use plank::text::{
    chars_of, copy, copy_list, is_white_space, join, same_text, split_once, split_words, string_of,
};

fn list(words: &[&str]) -> Vec<String> {
    words.iter().map(|word| word.to_string()).collect()
}

#[test]
fn characters_and_strings() {
    assert_eq!(chars_of("aé\u{1f600}"), vec!['a', 'é', '\u{1f600}']);
    assert_eq!(string_of(&vec!['a', 'b', 'c', 'd'], 1, 3), "bc");
    assert_eq!(string_of(&vec!['a'], 1, 1), "");
    assert_eq!(copy("é"), "é");
    assert_eq!(copy_list(&list(&["a", "b"])), list(&["a", "b"]));
    assert!(same_text("ab", "ab"));
    assert!(!same_text("ab", "abc"));
}

#[test]
fn joins() {
    assert_eq!(join(&list(&[]), ", "), "");
    assert_eq!(join(&list(&["a"]), ", "), "a");
    assert_eq!(join(&list(&["a", "", "b"]), ", "), "a, , b");
}

#[test]
fn splits_at_the_first_mark() {
    assert_eq!(split_once("a:b:c", ':'), Some(("a".to_string(), "b:c".to_string())));
    assert_eq!(split_once(":", ':'), Some((String::new(), String::new())));
    assert_eq!(split_once("abc", ':'), None);
    assert_eq!(split_once("", ':'), None);
    for text in ["a:b", "é:ü:", "::", "ros:apt install {}", "none"] {
        let expected = text.split_once(':').map(|(a, b)| (a.to_string(), b.to_string()));
        assert_eq!(split_once(text, ':'), expected);
    }
}

#[test]
fn white_space_is_that_of_unicode() {
    for c in '\0'..=char::MAX {
        assert_eq!(is_white_space(c), c.is_whitespace(), "{c:?}");
    }
}

#[test]
fn splits_words() {
    assert_eq!(split_words("  ros2 \t run\u{3000}pkg\n"), list(&["ros2", "run", "pkg"]));
    assert_eq!(split_words(""), list(&[]));
    assert_eq!(split_words(" \n"), list(&[]));
    for text in ["a", " a", "a ", "a b", "a  b\u{a0}c", "\u{2028}x\u{85}"] {
        let expected: Vec<String> = text.split_whitespace().map(str::to_string).collect();
        assert_eq!(split_words(text), expected);
    }
}
