use plank::patterns::{
    anchor, command_of, matched_command, pattern_compiles, pattern_names, resolvers_for,
};

fn list(words: &[&str]) -> Vec<String> {
    words.iter().map(|word| word.to_string()).collect()
}

fn pairs(entries: &[(&str, &str)]) -> Vec<(String, String)> {
    entries.iter().map(|(a, b)| (a.to_string(), b.to_string())).collect()
}

#[test]
fn a_pattern_names_whole_names() {
    assert_eq!(anchor("a|b"), "^(?:a|b)$");
    assert!(pattern_names("lib.*", "libfoo"));
    assert!(pattern_names("lib.*", "lib"));
    assert!(!pattern_names("lib.*", "mylib"));
    assert!(!pattern_names("lib", "libfoo"));
    assert!(pattern_names("a|bc", "bc"));
    assert!(!pattern_names("a|bc", "abc"));
    assert!(pattern_names("(?i)lib", "LIB"));
    assert!(!pattern_names("a", "a\n"));
    assert!(!pattern_names("(", "("));
}

#[test]
fn a_plain_pattern_names_itself() {
    let names = ["", "rclcpp", "lib-foo_2", "a/b", "é ß", "a]}", "#&~-", ":x", "a<b>", "A"];
    for pattern in names {
        assert!(pattern_compiles(pattern), "{pattern}");
        for name in names {
            assert_eq!(pattern_names(pattern, name), pattern == name, "{pattern} {name}");
        }
    }
    let long = "a".repeat(100_000);
    assert!(pattern_compiles(&long));
    assert!(pattern_names(&long, &long));
    assert!(!pattern_names(&long, "a"));
}

#[test]
fn what_is_no_regular_expression_does_not_compile() {
    for pattern in ["(", ")", "a)(b", "[", "*", "a{2,1}", "\\", "(?x)a #b"] {
        assert!(!pattern_compiles(pattern), "{pattern}");
    }
    assert!(pattern_compiles("(a|b)+[0-9]?"));
}

#[test]
fn the_last_match_counts() {
    let resolvers = pairs(&[("lib.*", "x"), ("libfoo", "y"), ("z", "")]);
    let matched = |matches: [bool; 3]| matched_command(&resolvers, &matches.to_vec());
    assert_eq!(matched([true, true, false]), Some("y".to_string()));
    assert_eq!(matched([true, false, false]), Some("x".to_string()));
    assert_eq!(matched([true, true, true]), Some("".to_string()));
    assert_eq!(matched([false, false, false]), None);
    assert_eq!(matched_command(&vec![], &vec![]), None);

    assert_eq!(command_of(&resolvers, "libfoo"), Some("y".to_string()));
    assert_eq!(command_of(&resolvers, "libbar"), Some("x".to_string()));
    assert_eq!(command_of(&resolvers, "z"), Some("".to_string()));
    assert_eq!(command_of(&resolvers, "git"), None);
}

#[test]
fn commands_for_the_names_that_a_pattern_names() {
    let own = resolvers_for(
        &list(&["libfoo", "git", "libfoo", "libbar"]),
        &pairs(&[("lib.*", "x"), ("libbar", "")]),
    );
    assert_eq!(own.names(), &list(&["libbar", "libfoo"]));
    assert_eq!(own.get("libfoo"), Some(&"x".to_string()));
    assert_eq!(own.get("libbar"), Some(&"".to_string()));
}
