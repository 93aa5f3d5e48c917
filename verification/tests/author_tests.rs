use git_squad::authors::{authors_from_log, parse_author};

#[test]
fn test_parse_author_line() {
    let a = parse_author("'Peter Pan <peter.pan@example.com>'").expect("parses");
    assert_eq!(a.name, "Peter Pan");
    assert_eq!(a.email, "peter.pan@example.com");
}

#[test]
fn test_parse_author_without_brackets() {
    assert!(parse_author("no brackets here").is_none());
}

#[test]
fn test_authors_from_log_dedups_first_occurrence() {
    // the same author appears on several commits; each distinct line counts once
    let log = "'Ada <ada@example.com>'\n'Bob <bob@example.com>'\n'Ada <ada@example.com>'\n";
    let authors = authors_from_log(log);
    assert_eq!(authors.len(), 2);
    assert_eq!(authors[0].name, "Ada");
    assert_eq!(authors[0].email, "ada@example.com");
    assert_eq!(authors[1].name, "Bob");
    assert_eq!(authors[1].email, "bob@example.com");
}

#[test]
fn test_authors_from_log_skips_unparseable_lines() {
    let log = "'Ada <ada@example.com>'\nnothing useful\n";
    let authors = authors_from_log(log);
    assert_eq!(authors.len(), 1);
    assert_eq!(authors[0].email, "ada@example.com");
}

#[test]
fn test_parse_author_trims_unicode_whitespace() {
    // a vertical tab after the name is whitespace and is trimmed away
    let a = parse_author("'N\u{b} <e@example.com>").expect("parses");
    assert_eq!(a.name, "N");
    assert_eq!(a.email, "e@example.com");
}
