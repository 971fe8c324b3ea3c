use responsibility_tree::filter::{is_hidden, is_passed_over, same_text};

#[test]
fn dot_names_are_hidden() {
    assert!(is_hidden(".secret"));
    assert!(is_hidden(".git"));
    assert!(is_hidden("."));
}

#[test]
fn other_names_are_not_hidden() {
    assert!(!is_hidden("b.txt"));
    assert!(!is_hidden("a"));
    assert!(!is_hidden(""));
    assert!(!is_hidden("a.b."));
}

#[test]
fn a_hidden_entry_below_the_root_is_passed_over() {
    assert!(is_passed_over("/r", "/r/.git", ".git"));
    assert!(is_passed_over("/r", "/r/a/.env", ".env"));
    assert!(!is_passed_over("/r", "/r/a", "a"));
    assert!(!is_passed_over("/r", "/r/a.b", "a.b"));
}

#[test]
fn the_root_is_not_passed_over_whatever_its_name() {
    assert!(!is_passed_over("/home/.config", "/home/.config", ".config"));
    assert!(!is_passed_over("/r", "/r", "r"));
    assert!(is_passed_over("/home/.config", "/home/.config/.cache", ".cache"));
    assert!(is_passed_over("/home/.config", "/home/.config2", ".config2"));
}

#[test]
fn same_text_compares_character_by_character() {
    assert!(same_text("", ""));
    assert!(same_text("/a/b", "/a/b"));
    assert!(!same_text("/a/b", "/a/b/"));
    assert!(!same_text("/a/b", "/a/B"));
    assert!(same_text("日本", "日本"));
}
