use git_squad::buddy::{Buddies, Buddy};
use git_squad::template::{capture_email, parse_active, write_active};

fn buddy(alias: &str, name: &str, email: &str) -> Buddy {
    Buddy {
        alias: alias.to_string(),
        name: name.to_string(),
        email: email.to_string(),
    }
}

fn peter_dir() -> Buddies {
    Buddies::new(vec![buddy("pp", "Peter Pan", "peter.pan@example.com")])
}

#[test]
fn test_capture_email_plain_trailer() {
    let got = capture_email("Co-authored-by: Peter Pan <peter.pan@example.com>");
    assert_eq!(got, Some("peter.pan@example.com".to_string()));
}

#[test]
fn test_capture_email_rejects_other_lines() {
    assert_eq!(capture_email("Just a comment line"), None);
    assert_eq!(capture_email("Co-authored-by: nobody"), None);
    assert_eq!(capture_email("Co-authored-by: empty <>"), None);
}

#[test]
fn test_capture_email_takes_last_brackets() {
    let got = capture_email("Co-authored-by: Odd <Name <real@example.com>");
    assert_eq!(got, Some("real@example.com".to_string()));
}

#[test]
fn test_write_active_appends_block() {
    let dir = peter_dir();
    let out = write_active("Some template\n", &dir);
    assert_eq!(
        out,
        "Some template\n\n# BEGIN GIT-SQUAD\nCo-authored-by: Peter Pan <peter.pan@example.com>\n# END GIT-SQUAD\n"
    );
}

#[test]
fn test_write_active_empty_set_removes_block() {
    let dir = peter_dir();
    let with_block = write_active("Some template\n", &dir);
    let cleared = write_active(&with_block, &Buddies::default());
    assert_eq!(cleared, "Some template\n");
    assert!(!cleared.contains("# BEGIN GIT-SQUAD"));
    assert!(!cleared.contains("# END GIT-SQUAD"));
}

#[test]
fn test_write_active_is_idempotent() {
    let dir = peter_dir();
    let once = write_active("Header line\n\nBody text\n", &dir);
    let twice = write_active(&once, &dir);
    assert_eq!(once, twice);
}

#[test]
fn test_parse_active_round_trip() {
    let dir = peter_dir();
    let out = write_active("Anything at all\nsecond line\n", &dir);
    let active = parse_active(&out, &dir);
    assert_eq!(active.buddies.len(), 1);
    assert_eq!(active.buddies[0].alias, "pp");
    assert_eq!(active.buddies[0].name, "Peter Pan");
    assert_eq!(active.buddies[0].email, "peter.pan@example.com");
}

#[test]
fn test_parse_active_ignores_unknown_emails() {
    let dir = peter_dir();
    let text = "\n# BEGIN GIT-SQUAD\nCo-authored-by: Ghost <ghost@example.com>\nCo-authored-by: Peter Pan <peter.pan@example.com>\n# END GIT-SQUAD\n";
    let active = parse_active(text, &dir);
    assert_eq!(active.buddies.len(), 1);
    assert_eq!(active.buddies[0].alias, "pp");
}

#[test]
fn test_parse_active_unterminated_block() {
    let dir = peter_dir();
    let text = "prefix\n# BEGIN GIT-SQUAD\nCo-authored-by: Peter Pan <peter.pan@example.com>\n";
    let active = parse_active(text, &dir);
    assert_eq!(active.buddies.len(), 1);
}

#[test]
fn test_parse_active_outside_block_is_ignored() {
    let dir = peter_dir();
    let text = "Co-authored-by: Peter Pan <peter.pan@example.com>\n";
    let active = parse_active(text, &dir);
    assert_eq!(active.buddies.len(), 0);
}

#[test]
fn test_parse_active_markers_trimmed() {
    let dir = peter_dir();
    let text = "  # BEGIN GIT-SQUAD  \nCo-authored-by: Peter Pan <peter.pan@example.com>\n\t# END GIT-SQUAD\n";
    let active = parse_active(text, &dir);
    assert_eq!(active.buddies.len(), 1);
}

#[test]
fn test_parse_active_crlf_lines() {
    let dir = peter_dir();
    let text = "# BEGIN GIT-SQUAD\r\nCo-authored-by: Peter Pan <peter.pan@example.com>\r\n# END GIT-SQUAD\r\n";
    let active = parse_active(text, &dir);
    assert_eq!(active.buddies.len(), 1);
}

#[test]
fn test_write_active_keeps_text_outside_block() {
    let dir = peter_dir();
    let text = "line one\n\n# BEGIN GIT-SQUAD\nCo-authored-by: Old <old@example.com>\n# END GIT-SQUAD\nline after\n";
    let out = write_active(text, &dir);
    assert_eq!(
        out,
        "line one\n\nline after\n\n# BEGIN GIT-SQUAD\nCo-authored-by: Peter Pan <peter.pan@example.com>\n# END GIT-SQUAD\n"
    );
}

#[test]
fn test_write_active_on_empty_template() {
    let dir = peter_dir();
    let out = write_active("", &dir);
    assert_eq!(
        out,
        "\n\n# BEGIN GIT-SQUAD\nCo-authored-by: Peter Pan <peter.pan@example.com>\n# END GIT-SQUAD\n"
    );
}

#[test]
fn test_clearing_empty_template_stays_empty() {
    let out = write_active("", &Buddies::default());
    assert_eq!(out, "");
}

#[test]
fn test_markers_trimmed_of_unicode_whitespace() {
    // vertical tab and no-break space count as whitespace around markers
    let dir = peter_dir();
    let text = "\u{b}# BEGIN GIT-SQUAD\nCo-authored-by: Peter Pan <peter.pan@example.com>\n\u{a0}# END GIT-SQUAD\n";
    let active = parse_active(text, &dir);
    assert_eq!(active.buddies.len(), 1);
}
