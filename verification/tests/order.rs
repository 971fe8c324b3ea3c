use responsibility_tree::entry::Entry;
use responsibility_tree::order::{key_entry, keyed_precedes, sort_entries, sort_keyed, Keyed};

fn child(name: &str, is_dir: bool) -> Entry {
    Entry {
        path: format!("/root/{}", name),
        file_name: name.to_string(),
        parent: "/root".to_string(),
        is_dir,
    }
}

fn with_given_key(name: &str, is_dir: bool, key: &str) -> Keyed {
    Keyed { entry: child(name, is_dir), key: key.chars().collect() }
}

fn names_of(entries: &[Entry]) -> Vec<String> {
    entries.iter().map(|e| e.file_name.clone()).collect()
}

fn keyed_names_of(entries: &[Keyed]) -> Vec<String> {
    entries.iter().map(|k| k.entry.file_name.clone()).collect()
}

#[test]
fn the_key_of_an_entry_is_its_name_in_lowercase() {
    assert_eq!(key_entry(child("ReadMe.MD", false)).key, vec!['r', 'e', 'a', 'd', 'm', 'e', '.', 'm', 'd']);
    assert_eq!(key_entry(child("ÉCOLE", true)).key, vec!['é', 'c', 'o', 'l', 'e']);
    assert_eq!(key_entry(child("already", true)).key, vec!['a', 'l', 'r', 'e', 'a', 'd', 'y']);
    let keyed = key_entry(child("Name", true));
    assert_eq!(keyed.entry.file_name, "Name");
    assert_eq!(keyed.entry.path, "/root/Name");
    assert!(keyed.entry.is_dir);
}

#[test]
fn a_directory_precedes_a_file() {
    assert!(keyed_precedes(&key_entry(child("zzz", true)), &key_entry(child("aaa", false))));
    assert!(!keyed_precedes(&key_entry(child("aaa", false)), &key_entry(child("zzz", true))));
}

#[test]
fn names_are_compared_without_regard_to_case() {
    let before = |a: &str, b: &str| keyed_precedes(&key_entry(child(a, false)), &key_entry(child(b, false)));
    assert!(before("a.txt", "B.txt"));
    assert!(!before("B.txt", "a.txt"));
    assert!(before("A.txt", "b.txt"));
    assert!(before("ÉCOLE", "école2"));
}

#[test]
fn names_that_differ_only_in_case_tie() {
    let upper = key_entry(child("README", false));
    let lower = key_entry(child("readme", false));
    assert!(keyed_precedes(&upper, &lower));
    assert!(keyed_precedes(&lower, &upper));
}

#[test]
fn the_given_keys_decide_and_not_the_names() {
    let a = with_given_key("a", false, "2");
    let b = with_given_key("b", false, "1");
    assert!(keyed_precedes(&b, &a));
    assert!(!keyed_precedes(&a, &b));
    let mut v = vec![
        with_given_key("first", false, "c"),
        with_given_key("second", true, "z"),
        with_given_key("third", false, "a"),
        with_given_key("fourth", false, "c"),
        with_given_key("fifth", true, ""),
    ];
    sort_keyed(&mut v);
    assert_eq!(keyed_names_of(&v), ["fifth", "second", "third", "first", "fourth"]);
}

#[test]
fn sorting_puts_directories_first_and_names_in_order() {
    let mut v = vec![
        child("b.txt", false),
        child("src", true),
        child("A.txt", false),
        child("Docs", true),
        child("c.txt", false),
        child("app", true),
    ];
    sort_entries(&mut v);
    assert_eq!(names_of(&v), ["app", "Docs", "src", "A.txt", "b.txt", "c.txt"]);
}

#[test]
fn sorting_keeps_ties_in_the_order_in_which_they_came() {
    let mut v = vec![
        child("x", false),
        child("Readme", false),
        child("README", false),
        child("a", false),
        child("readme", false),
    ];
    sort_entries(&mut v);
    assert_eq!(names_of(&v), ["a", "Readme", "README", "readme", "x"]);
    let mut w = vec![child("readme", false), child("README", false), child("Readme", false)];
    sort_entries(&mut w);
    assert_eq!(names_of(&w), ["readme", "README", "Readme"]);
}

#[test]
fn sorting_keeps_every_entry() {
    let mut v = vec![
        child("same", false),
        child("other", true),
        child("same", false),
        child("same", true),
    ];
    sort_entries(&mut v);
    assert_eq!(names_of(&v), ["other", "same", "same", "same"]);
    assert_eq!(v.iter().filter(|e| e.is_dir).count(), 2);
    assert!(v[0].is_dir && v[1].is_dir && !v[2].is_dir && !v[3].is_dir);
    assert!(v.iter().all(|e| e.parent == "/root" && e.path == format!("/root/{}", e.file_name)));
}

#[test]
fn sorting_a_sorted_list_changes_nothing() {
    let mut v = vec![child("a", true), child("b", true), child("a", false), child("B", false)];
    sort_entries(&mut v);
    let once = names_of(&v);
    sort_entries(&mut v);
    assert_eq!(names_of(&v), once);
    assert_eq!(once, ["a", "b", "a", "B"]);
}

#[test]
fn sorting_handles_the_empty_and_the_single_list() {
    let mut none: Vec<Entry> = Vec::new();
    sort_entries(&mut none);
    assert!(none.is_empty());
    let mut one = vec![child("only", false)];
    sort_entries(&mut one);
    assert_eq!(names_of(&one), ["only"]);
    let mut no_keys: Vec<Keyed> = Vec::new();
    sort_keyed(&mut no_keys);
    assert!(no_keys.is_empty());
}

#[test]
fn sorting_a_reversed_list_of_many() {
    let mut v: Vec<Entry> =
        (0..200).rev().map(|i| child(&format!("f{:03}", i), i % 3 == 0)).collect();
    sort_entries(&mut v);
    let dirs: Vec<String> = (0..200).filter(|i| i % 3 == 0).map(|i| format!("f{:03}", i)).collect();
    let files: Vec<String> = (0..200).filter(|i| i % 3 != 0).map(|i| format!("f{:03}", i)).collect();
    let expected: Vec<String> = dirs.into_iter().chain(files).collect();
    assert_eq!(names_of(&v), expected);
}
