use plank::template::{resolve_commands, substitute, PLACEHOLDER};

fn args(names: &[&str]) -> Vec<String> {
    names.iter().map(|name| name.to_string()).collect()
}

fn resolve(template: &str, names: &[&str]) -> String {
    resolve_commands(template, &args(names))
}

#[test]
fn arguments_are_joined_with_spaces() {
    assert_eq!(
        resolve("apt update && apt install {}", &["git", "vim"]),
        "apt update && apt install git vim"
    );
    assert_eq!(resolve("install {}", &[]), "install ");
}

#[test]
fn escaped_braces_stay() {
    assert_eq!(resolve(r"echo \{}", &["a", "b"]), "echo {}");
    assert_eq!(resolve("echo #{}", &["a", "b"]), "echo {}");
    assert_eq!(resolve(r"\{}{}", &["a"]), "{}a");
    assert_eq!(resolve(r"\\{}", &["a"]), r"\{}");
    assert_eq!(resolve(r"#\{}", &["a"]), "#{}");
}

#[test]
fn every_unescaped_occurrence_is_replaced() {
    assert_eq!(resolve("{}", &["a"]), "a");
    assert_eq!(resolve("{}{}", &["a"]), "aa");
    assert_eq!(resolve("x{}y{}", &["a"]), "xaya");
    assert_eq!(resolve("{{}}", &["a"]), "{a}");
    assert_eq!(resolve("{{}", &["a"]), "{a");
    assert_eq!(resolve("\n{}", &["a"]), "\na");
    assert_eq!(resolve("é{}ü", &["ß"]), "éßü");
    assert_eq!(resolve("}{}{", &["a"]), "}a{");
}

#[test]
fn other_text_stays() {
    assert_eq!(resolve("", &["a"]), "");
    assert_eq!(resolve("colcon build", &["a"]), "colcon build");
    assert_eq!(resolve("{ } { a }", &["b"]), "{ } { a }");
    assert_eq!(resolve(r"\ #", &["b"]), r"\ #");
}

#[test]
fn a_replacement_is_not_resolved_again() {
    assert_eq!(resolve("run {}", &["{}", "#{}", "$0", "$1"]), "run {} #{} $0 $1");
}

#[test]
fn substitutes_by_what_is_in_front() {
    assert_eq!(substitute(None, "a"), "a");
    assert_eq!(substitute(Some("x"), "a"), "xa");
    assert_eq!(substitute(Some("#"), "a"), "{}");
    assert_eq!(substitute(Some("\\"), "a"), "{}");
    assert_eq!(substitute(Some(""), "a"), "a");
}

/// What the scan from left to right does, without a regex.
fn scanned(template: &str, replacement: &str) -> String {
    let chars: Vec<char> = template.chars().collect();
    let mut out = String::new();
    let mut i = 0;
    while i < chars.len() {
        let rest = &chars[i..];
        if rest.len() >= 3 && rest[0] != '\n' && rest[1] == '{' && rest[2] == '}' {
            if rest[0] == '#' || rest[0] == '\\' {
                out.push_str("{}");
            } else {
                out.push(rest[0]);
                out.push_str(replacement);
            }
            i += 3;
        } else if rest.len() >= 2 && rest[0] == '{' && rest[1] == '}' {
            out.push_str(replacement);
            i += 2;
        } else {
            out.push(rest[0]);
            i += 1;
        }
    }
    out
}

#[test]
fn the_pattern_matches_as_scanned() {
    assert_eq!(PLACEHOLDER, r"(.)?\{\}");
    let alphabet = ['{', '}', '#', '\\', '\n', 'x'];
    for len in 0..6u32 {
        for number in 0..alphabet.len().pow(len) {
            let mut rest = number;
            let mut template = String::new();
            for _ in 0..len {
                template.push(alphabet[rest % alphabet.len()]);
                rest /= alphabet.len();
            }
            assert_eq!(resolve(&template, &["A", "B"]), scanned(&template, "A B"), "{template:?}");
        }
    }
}
