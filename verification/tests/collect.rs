use responsibility_tree::collect::{collect_entries, DirectoryChildren};
use responsibility_tree::entry::Entry;

fn found(parent: &str, name: &str, is_dir: bool) -> Entry {
    Entry {
        path: format!("{}/{}", parent, name),
        file_name: name.to_string(),
        parent: parent.to_string(),
        is_dir,
    }
}

fn the_root(path: &str, parent: &str, name: &str) -> Entry {
    Entry {
        path: path.to_string(),
        file_name: name.to_string(),
        parent: parent.to_string(),
        is_dir: true,
    }
}

fn listed(tree: &DirectoryChildren, dir: &str) -> Option<Vec<String>> {
    tree.get(dir).map(|v| v.iter().map(|e| e.file_name.clone()).collect())
}

#[test]
fn the_root_has_a_group_even_if_nothing_was_met() {
    let tree = collect_entries("/root", Vec::new());
    assert_eq!(listed(&tree, "/root"), Some(vec![]));
    assert_eq!(listed(&tree, "/"), None);
    assert_eq!(listed(&tree, "/root/a"), None);
}

#[test]
fn a_new_tree_holds_the_root_alone() {
    let tree = DirectoryChildren::new("/somewhere");
    assert_eq!(listed(&tree, "/somewhere"), Some(vec![]));
    assert_eq!(listed(&tree, "/somewhere/else"), None);
}

#[test]
fn entries_are_grouped_by_their_parent() {
    let tree = collect_entries(
        "/root",
        vec![
            the_root("/root", "/", "root"),
            found("/root", "x", true),
            found("/root/x", "y.rs", false),
            found("/root/x", "z", true),
            found("/root/x/z", "deep.txt", false),
            found("/root", "b.txt", false),
        ],
    );
    assert_eq!(listed(&tree, "/"), None);
    assert_eq!(listed(&tree, "/root"), Some(vec!["x".to_string(), "b.txt".to_string()]));
    assert_eq!(listed(&tree, "/root/x"), Some(vec!["z".to_string(), "y.rs".to_string()]));
    assert_eq!(listed(&tree, "/root/x/z"), Some(vec!["deep.txt".to_string()]));
}

#[test]
fn an_empty_directory_has_a_group_with_nothing_in_it() {
    let tree = collect_entries("/r", vec![found("/r", "a", true)]);
    assert_eq!(listed(&tree, "/r"), Some(vec!["a".to_string()]));
    assert_eq!(listed(&tree, "/r/a"), Some(vec![]));
}

#[test]
fn a_file_has_no_group() {
    let tree = collect_entries("/r", vec![found("/r", "a.txt", false)]);
    assert_eq!(listed(&tree, "/r"), Some(vec!["a.txt".to_string()]));
    assert_eq!(listed(&tree, "/r/a.txt"), None);
}

#[test]
fn the_root_itself_is_left_out() {
    let tree = collect_entries("/r", vec![the_root("/r", "/", "r")]);
    assert_eq!(listed(&tree, "/r"), Some(vec![]));
    assert_eq!(listed(&tree, "/"), None);
    let at_the_top = collect_entries("/", vec![the_root("/", "", ""), found("", "etc", true)]);
    assert_eq!(listed(&at_the_top, ""), Some(vec!["etc".to_string()]));
    assert_eq!(listed(&at_the_top, "/"), Some(vec![]));
}

#[test]
fn a_root_with_a_hidden_name_keeps_its_children() {
    let tree = collect_entries(
        "/home/.config",
        vec![
            the_root("/home/.config", "/home", ".config"),
            found("/home/.config", "app", true),
            found("/home/.config/app", "settings.toml", false),
            found("/home/.config", ".cache", true),
        ],
    );
    assert_eq!(listed(&tree, "/home"), None);
    assert_eq!(listed(&tree, "/home/.config"), Some(vec!["app".to_string()]));
    assert_eq!(listed(&tree, "/home/.config/app"), Some(vec!["settings.toml".to_string()]));
    assert_eq!(listed(&tree, "/home/.config/.cache"), None);
}

#[test]
fn an_entry_brings_the_group_of_its_directory() {
    let tree = collect_entries("/r", vec![found("/r/unmet", "f.txt", false)]);
    assert_eq!(listed(&tree, "/r"), Some(vec![]));
    assert_eq!(listed(&tree, "/r/unmet"), Some(vec!["f.txt".to_string()]));
}

#[test]
fn a_directory_met_behind_its_children_keeps_them() {
    let tree = collect_entries(
        "/r",
        vec![found("/r/d", "f.txt", false), found("/r", "d", true), found("/r/d", "g.txt", false)],
    );
    assert_eq!(listed(&tree, "/r"), Some(vec!["d".to_string()]));
    assert_eq!(listed(&tree, "/r/d"), Some(vec!["f.txt".to_string(), "g.txt".to_string()]));
}

#[test]
fn hidden_entries_are_passed_over() {
    let tree = collect_entries(
        "/root",
        vec![
            found("/root", ".secret", false),
            found("/root", "b.txt", false),
            found("/root", ".git", true),
            found("/root", "a", true),
        ],
    );
    assert_eq!(listed(&tree, "/root"), Some(vec!["a".to_string(), "b.txt".to_string()]));
}

#[test]
fn a_directory_of_hidden_entries_alone_has_an_empty_group() {
    let tree = collect_entries(
        "/root",
        vec![found("/root", "a", true), found("/root/a", ".keep", false)],
    );
    assert_eq!(listed(&tree, "/root/a"), Some(vec![]));
}

#[test]
fn a_hidden_directory_has_no_group() {
    let tree = collect_entries("/root", vec![found("/root", ".git", true)]);
    assert_eq!(listed(&tree, "/root"), Some(vec![]));
    assert_eq!(listed(&tree, "/root/.git"), None);
}

#[test]
fn each_group_is_sorted() {
    let tree = collect_entries(
        "/root",
        vec![
            found("/root", "zeta.txt", false),
            found("/root", "Beta", true),
            found("/root", "alpha.txt", false),
            found("/root", "alpha", true),
            found("/root/alpha", "b", false),
            found("/root/alpha", "A", false),
            found("/root", "Gamma.txt", false),
        ],
    );
    assert_eq!(
        listed(&tree, "/root"),
        Some(vec![
            "alpha".to_string(),
            "Beta".to_string(),
            "alpha.txt".to_string(),
            "Gamma.txt".to_string(),
            "zeta.txt".to_string(),
        ])
    );
    assert_eq!(listed(&tree, "/root/alpha"), Some(vec!["A".to_string(), "b".to_string()]));
}

#[test]
fn every_shown_entry_is_kept_once() {
    let walked = vec![
        found("/root", "one", false),
        found("/root", ".two", false),
        found("/root", "three", true),
        found("/root", "four", false),
    ];
    let tree = collect_entries("/root", walked);
    let mut names = listed(&tree, "/root").unwrap();
    names.sort();
    assert_eq!(names, ["four", "one", "three"]);
}

#[test]
fn an_entry_met_twice_is_kept_twice() {
    let tree = collect_entries(
        "/root",
        vec![found("/root", "dup", false), found("/root", "dup", false)],
    );
    assert_eq!(listed(&tree, "/root"), Some(vec!["dup".to_string(), "dup".to_string()]));
}

#[test]
fn the_children_keep_what_the_walk_said_of_them() {
    let tree = collect_entries("/r", vec![found("/r", "f.rs", false), found("/r", "d", true)]);
    let children = tree.get("/r").unwrap();
    assert_eq!(children.len(), 2);
    assert_eq!(children[0].path, "/r/d");
    assert_eq!(children[0].parent, "/r");
    assert!(children[0].is_dir);
    assert_eq!(children[1].path, "/r/f.rs");
    assert_eq!(children[1].file_name, "f.rs");
    assert!(!children[1].is_dir);
}

#[test]
fn collecting_twice_gives_the_same_tree() {
    let walk = || {
        vec![
            found("/root", "b", false),
            found("/root", "B", false),
            found("/root", "a", true),
            found("/root/a", "x", false),
        ]
    };
    let first = collect_entries("/root", walk());
    let second = collect_entries("/root", walk());
    assert_eq!(listed(&first, "/root"), listed(&second, "/root"));
    assert_eq!(listed(&first, "/root/a"), listed(&second, "/root/a"));
    assert_eq!(listed(&first, "/root"), Some(vec!["a".to_string(), "b".to_string(), "B".to_string()]));
}

#[test]
fn many_directories_are_found_again() {
    let mut walked = Vec::new();
    for i in 0..300 {
        walked.push(found("/root", &format!("d{:03}", i), true));
        walked.push(found(&format!("/root/d{:03}", i), "file.txt", false));
        walked.push(found(&format!("/root/d{:03}", i), "Another.txt", false));
    }
    let tree = collect_entries("/root", walked);
    assert_eq!(tree.get("/root").unwrap().len(), 300);
    for i in 0..300 {
        assert_eq!(
            listed(&tree, &format!("/root/d{:03}", i)),
            Some(vec!["Another.txt".to_string(), "file.txt".to_string()])
        );
    }
}
