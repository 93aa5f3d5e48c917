use git_squad::buddy::{Buddies, Buddy, BuddyError};

fn buddy(alias: &str, name: &str, email: &str) -> Buddy {
    Buddy {
        alias: alias.to_string(),
        name: name.to_string(),
        email: email.to_string(),
    }
}

#[test]
fn test_get_buddy_by_email() {
    let mut buddies = Buddies::default();
    let _ = buddies.add(Buddy {
        alias: "peter".to_string(),
        name: "Peter Pan".to_string(),
        email: "peter.pan@example.com".to_string(),
    });

    let result = buddies.get_buddy_by_email("peter.pan@example.com");
    assert!(result.is_some());
    let buddy = result.unwrap();
    assert_eq!(buddy.alias, "peter");
    assert_eq!(buddy.name, "Peter Pan");

    // Non-existent email
    //
    let result = buddies.get_buddy_by_email("captain.hook@example.com");
    assert!(result.is_none());
}

#[test]
fn test_format_co_author() {
    let buddy = Buddy {
        alias: "peter".to_string(),
        name: "Peter Pan".to_string(),
        email: "peter.pan@example.com".to_string(),
    };

    let co_author = buddy.format_co_author();
    assert_eq!(
        co_author,
        "Co-authored-by: Peter Pan <peter.pan@example.com>".to_string()
    );
}

#[test]
fn test_format_buddy() {
    let b = buddy("peter", "Peter Pan", "peter.pan@example.com");
    assert_eq!(b.format_buddy(), "Peter Pan <peter.pan@example.com>");
}

#[test]
fn test_add_duplicate_alias_is_refused() {
    let mut buddies = Buddies::default();
    assert!(buddies.add(buddy("pp", "Peter Pan", "peter@example.com")).is_ok());
    let again = buddies.add(buddy("pp", "Pete Pancake", "pete@example.com"));
    assert_eq!(again, Err(BuddyError::AliasExists));
    assert_eq!(buddies.buddies.len(), 1);
}

#[test]
fn test_forget_unknown_alias_is_refused() {
    let mut buddies = Buddies::default();
    assert_eq!(buddies.forget("nobody"), Err(BuddyError::AliasUnknown));
}

#[test]
fn test_forget_preserves_order() {
    let mut buddies = Buddies::new(vec![
        buddy("a", "Ada", "a@example.com"),
        buddy("b", "Bob", "b@example.com"),
        buddy("c", "Cid", "c@example.com"),
    ]);
    assert!(buddies.forget("a").is_ok());
    let aliases: Vec<&str> = buddies.buddies.iter().map(|b| b.alias.as_str()).collect();
    assert_eq!(aliases, vec!["b", "c"]);
}

#[test]
fn test_get_and_has() {
    let buddies = Buddies::new(vec![buddy("a", "Ada", "a@example.com")]);
    assert!(buddies.has("a"));
    assert!(!buddies.has("b"));
    assert_eq!(buddies.get("a").unwrap().email, "a@example.com");
    assert!(buddies.get("b").is_none());
}

#[test]
fn test_first_match_by_email_wins() {
    let buddies = Buddies::new(vec![
        buddy("one", "First", "shared@example.com"),
        buddy("two", "Second", "shared@example.com"),
    ]);
    assert_eq!(buddies.get_buddy_by_email("shared@example.com").unwrap().alias, "one");
}
