use git_squad::buddy::{Buddies, Buddy, BuddyError};
use git_squad::session::{
    add_to_session, clear_session, forget_buddy, remove_from_session, SessionError,
};

fn buddy(alias: &str, name: &str, email: &str) -> Buddy {
    Buddy {
        alias: alias.to_string(),
        name: name.to_string(),
        email: email.to_string(),
    }
}

fn peter() -> Buddy {
    buddy("pp", "Peter Pan", "peter.pan@example.com")
}

fn peter_dir() -> Buddies {
    Buddies::new(vec![peter()])
}

#[test]
fn test_add_on_empty_template() {
    // the directory has pp; adding on an empty template yields one block
    // with exactly one trailer between the two markers
    let dir = peter_dir();
    let out = add_to_session("", &dir, &peter()).expect("first add succeeds");
    assert_eq!(
        out,
        "\n\n# BEGIN GIT-SQUAD\nCo-authored-by: Peter Pan <peter.pan@example.com>\n# END GIT-SQUAD\n"
    );
    assert_eq!(out.matches("# BEGIN GIT-SQUAD").count(), 1);
    assert_eq!(out.matches("# END GIT-SQUAD").count(), 1);
    assert_eq!(out.matches("Co-authored-by:").count(), 1);

    // a second add of the same buddy is refused and writes nothing
    let again = add_to_session(&out, &dir, &peter());
    assert_eq!(again, Err(SessionError::AlreadyActive));
}

#[test]
fn test_remove_restores_prefix() {
    let dir = peter_dir();
    let original = "Some template\n";
    let with_peter = add_to_session(original, &dir, &peter()).expect("add succeeds");
    let removed = remove_from_session(&with_peter, &dir, "pp").expect("remove succeeds");
    assert_eq!(removed, original);
}

#[test]
fn test_remove_inactive_is_refused() {
    let dir = peter_dir();
    assert_eq!(
        remove_from_session("Some template\n", &dir, "pp"),
        Err(SessionError::NotActive)
    );
}

#[test]
fn test_clear_session_removes_all_trace() {
    let mut dir = peter_dir();
    let _ = dir.add(buddy("wd", "Wendy Darling", "wendy@example.com"));
    let mut text = add_to_session("Template header\n", &dir, &peter()).unwrap();
    text = add_to_session(&text, &dir, dir.get("wd").unwrap()).unwrap();
    let cleared = clear_session(&text);
    assert_eq!(cleared, "Template header\n");
    // clearing again changes nothing
    assert_eq!(clear_session(&cleared), "Template header\n");
}

#[test]
fn test_forget_removes_directory_entry_and_trailer() {
    let mut dir = peter_dir();
    let text = add_to_session("Base\n", &dir, &peter()).expect("add succeeds");
    assert!(text.contains("Co-authored-by: Peter Pan"));
    let out = forget_buddy(&text, &mut dir, "pp").expect("forget succeeds");
    assert!(dir.buddies.is_empty());
    assert!(!out.contains("Co-authored-by: Peter Pan"));
    assert_eq!(out, "Base\n");
}

#[test]
fn test_forget_inactive_buddy_still_forgets() {
    let mut dir = peter_dir();
    let out = forget_buddy("Base\n", &mut dir, "pp").expect("forget succeeds");
    assert!(dir.buddies.is_empty());
    assert_eq!(out, "Base\n");
}

#[test]
fn test_forget_unknown_alias_leaves_directory() {
    let mut dir = peter_dir();
    let r = forget_buddy("Base\n", &mut dir, "nobody");
    assert_eq!(r, Err(BuddyError::AliasUnknown));
    assert_eq!(dir.buddies.len(), 1);
}

#[test]
fn test_remove_middle_keeps_order() {
    // removing a middle co-author leaves the others in their original order
    let mut dir = peter_dir();
    let _ = dir.add(buddy("wd", "Wendy Darling", "wendy@example.com"));
    let _ = dir.add(buddy("ch", "Captain Hook", "hook@example.com"));
    let mut text = add_to_session("Base\n", &dir, dir.get("pp").unwrap()).unwrap();
    text = add_to_session(&text, &dir, dir.get("wd").unwrap()).unwrap();
    text = add_to_session(&text, &dir, dir.get("ch").unwrap()).unwrap();
    let out = remove_from_session(&text, &dir, "wd").expect("remove succeeds");
    assert_eq!(
        out,
        "Base\n\n# BEGIN GIT-SQUAD\nCo-authored-by: Peter Pan <peter.pan@example.com>\nCo-authored-by: Captain Hook <hook@example.com>\n# END GIT-SQUAD\n"
    );
}
