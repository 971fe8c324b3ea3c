use responsibility_tree::text::{chars_of, lex_le_chars};

fn letters(s: &str) -> Vec<char> {
    s.chars().collect()
}

#[test]
fn chars_of_gives_the_characters_in_order() {
    assert_eq!(chars_of("a└é"), vec!['a', '└', 'é']);
    assert_eq!(chars_of(""), Vec::<char>::new());
}

#[test]
fn a_prefix_stands_before_the_longer_string() {
    assert!(lex_le_chars(&letters(""), &letters("")));
    assert!(lex_le_chars(&letters(""), &letters("a")));
    assert!(lex_le_chars(&letters("a"), &letters("ab")));
    assert!(!lex_le_chars(&letters("ab"), &letters("a")));
    assert!(!lex_le_chars(&letters("a"), &letters("")));
}

#[test]
fn the_first_difference_decides() {
    assert!(lex_le_chars(&letters("abc"), &letters("abd")));
    assert!(!lex_le_chars(&letters("abd"), &letters("abc")));
    assert!(lex_le_chars(&letters("abz"), &letters("ac")));
    assert!(lex_le_chars(&letters("same"), &letters("same")));
}

#[test]
fn characters_go_by_code_point() {
    assert!(lex_le_chars(&letters("B"), &letters("a")));
    assert!(!lex_le_chars(&letters("a"), &letters("B")));
    assert!(lex_le_chars(&letters("z"), &letters("é")));
    assert!(lex_le_chars(&letters("é"), &letters("日")));
}

#[test]
fn the_order_agrees_with_the_order_of_str() {
    let words = ["", "a", "A", "ab", "b", "é", "zz", "日本", "a.txt", "a_b", "a-b"];
    for x in words {
        for y in words {
            assert_eq!(lex_le_chars(&letters(x), &letters(y)), x <= y, "{:?} {:?}", x, y);
        }
    }
}
