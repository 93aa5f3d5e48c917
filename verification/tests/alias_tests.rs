use git_squad::alias::{suggest_alias, UniqueAliasSuggester};

#[test]
fn test_empty_name_returns_buddy() {
    let aliases: Vec<String> = vec![];
    let suggester = UniqueAliasSuggester::new(&aliases);

    let result = suggester.suggest("");

    assert_eq!(result, "buddy");
}

#[test]
fn test_empty_name_with_existing_buddy_returns_buddy1() {
    let aliases: Vec<String> = vec!["buddy".to_string()];
    let suggester = UniqueAliasSuggester::new(&aliases);

    let result = suggester.suggest("");

    assert_eq!(result, "buddy1");
}

#[test]
fn test_simple_name() {
    let aliases: Vec<String> = vec![];
    let suggester = UniqueAliasSuggester::new(&aliases);

    let result = suggester.suggest("Peter Pan");

    assert_eq!(result, "pp");
}

#[test]
fn test_name_with_existing_alias() {
    let aliases: Vec<String> = vec!["wd".to_string()];
    let suggester = UniqueAliasSuggester::new(&aliases);

    let result = suggester.suggest("Wendy Darling");

    assert_eq!(result, "weda");
}

#[test]
fn test_special_characters() {
    let aliases: Vec<String> = vec![];
    let suggester = UniqueAliasSuggester::new(&aliases);

    let result = suggester.suggest("Captain Hook!");

    assert_eq!(result, "ch");
}

#[test]
fn test_all_lengths_occupied() {
    let aliases: Vec<String> = vec![
        "ch".to_string(),
        "caho".to_string(),
        "caphoo".to_string(),
        "capthook".to_string(),
    ];
    let suggester = UniqueAliasSuggester::new(&aliases);

    let result = suggester.suggest("Captain Hook");

    assert_eq!(result, "capthook1");
}

#[test]
fn test_non_alphabetic_name() {
    let aliases: Vec<String> = vec![];
    let suggester = UniqueAliasSuggester::new(&aliases);

    let result = suggester.suggest("123 @#$");

    assert_eq!(result, "buddy");
}

#[test]
fn test_multiple_words() {
    let aliases: Vec<String> = vec![];
    let suggester = UniqueAliasSuggester::new(&aliases);

    let result = suggester.suggest("Slightly Nibs Tootles");

    assert_eq!(result, "snt");
}

#[test]
fn test_create_alias_from_name() {
    let aliases: Vec<String> = vec![];
    let suggester = UniqueAliasSuggester::new(&aliases);

    let result = suggester.create_alias_from_name("Peter Pan", 2);

    assert_eq!(result, "pepa");
}

#[test]
fn test_make_unique() {
    let aliases: Vec<String> = vec!["neverland".to_string(), "neverland1".to_string()];
    let suggester = UniqueAliasSuggester::new(&aliases);

    let result = suggester.make_unique("neverland".to_string());

    assert_eq!(result, "neverland2");
}

#[test]
fn test_case_insensitivity() {
    let aliases: Vec<String> = vec![];
    let suggester = UniqueAliasSuggester::new(&aliases);

    let result = suggester.suggest("TIGER LILY");

    assert_eq!(result, "tl");
}

#[test]
fn test_suggest_alias_free_function() {
    let aliases: Vec<String> = vec!["pp".to_string()];
    assert_eq!(suggest_alias("Peter Pan", &aliases), "pepa");
}

#[test]
fn test_suggestion_is_lower_case_and_unused() {
    // ordinary names give a fresh, lower-case, whitespace-free alias
    let aliases: Vec<String> = vec!["jh".to_string(), "johe".to_string()];
    let result = suggest_alias("John Henry", &aliases);
    assert!(!aliases.contains(&result));
    assert!(!result.is_empty());
    assert!(result.chars().all(|c| c.is_ascii_lowercase() || c.is_ascii_digit()));
    assert_eq!(result, "johhen");
}

#[test]
fn test_repeated_suggestions_never_repeat() {
    // feeding each suggestion back into the taken set keeps them distinct
    let mut aliases: Vec<String> = vec![];
    for _ in 0..8 {
        let next = suggest_alias("Wendy Darling", &aliases);
        assert!(!aliases.contains(&next));
        aliases.push(next);
    }
    assert_eq!(aliases.len(), 8);
}

#[test]
fn test_counter_skips_far() {
    let aliases: Vec<String> = vec![
        "buddy".to_string(),
        "buddy1".to_string(),
        "buddy2".to_string(),
        "buddy3".to_string(),
    ];
    assert_eq!(suggest_alias("", &aliases), "buddy4");
}

#[test]
fn test_vertical_tab_splits_words() {
    // a vertical tab is whitespace: it separates words like a space does
    let aliases: Vec<String> = vec![];
    let suggester = UniqueAliasSuggester::new(&aliases);
    assert_eq!(suggester.create_alias_from_name("a\u{b}b", 1), "ab");
    assert_eq!(suggester.suggest("a\u{b}b"), "ab");
}

#[test]
fn test_unicode_space_splits_words() {
    let aliases: Vec<String> = vec![];
    let suggester = UniqueAliasSuggester::new(&aliases);
    assert_eq!(suggester.suggest("Peter\u{a0}Pan"), "pp");
}
