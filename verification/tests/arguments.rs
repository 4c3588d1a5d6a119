use plank::arguments::{package_resolvers, read_resolvers};
use plank::config::{settle, uses_last_run, Plankconfig};
use plank::names::NameSet;

fn list(words: &[&str]) -> Vec<String> {
    words.iter().map(|word| word.to_string()).collect()
}

fn pairs(entries: &[(&str, &str)]) -> Vec<(String, String)> {
    entries.iter().map(|(a, b)| (a.to_string(), b.to_string())).collect()
}

fn set(words: &[&str]) -> NameSet {
    NameSet::from_list(&list(words))
}

#[test]
fn resolvers_are_split_at_the_first_colon() {
    let resolvers = package_resolvers(&list(&["lib.*:pip install {}", "b:", "c:x:y", ":z"]));
    assert_eq!(
        resolvers,
        Ok(pairs(&[("lib.*", "pip install {}"), ("b", ""), ("c", "x:y"), ("", "z")]))
    );
    assert_eq!(package_resolvers(&list(&[])), Ok(vec![]));
}

#[test]
fn resolvers_stay_in_the_order_given() {
    let resolvers = package_resolvers(&list(&["b:x", "a:y", "b:z"]));
    assert_eq!(resolvers, Ok(pairs(&[("b", "x"), ("a", "y"), ("b", "z")])));
}

#[test]
fn the_first_argument_without_a_pattern_is_refused() {
    for bad in ["(:x", "*:x", "[a:x", "a)(b:x", "(?x)a #b:x", "(?:a):x", "a{2,1}:x", "\\:x"] {
        let refused = package_resolvers(&list(&["a:x", bad, "worse"]));
        assert_eq!(refused, Err(bad.to_string()), "{bad}");
    }
    assert_eq!(package_resolvers(&list(&["worse", "(:x"])), Err("worse".to_string()));
}

#[test]
fn arguments_are_read_by_what_is_a_pattern() {
    let arguments = list(&["a:x", "b:y"]);
    assert_eq!(
        read_resolvers(&arguments, &vec![true, true]),
        Ok(pairs(&[("a", "x"), ("b", "y")]))
    );
    assert_eq!(read_resolvers(&arguments, &vec![true, false]), Err("b:y".to_string()));
    assert_eq!(read_resolvers(&arguments, &vec![false, false]), Err("a:x".to_string()));
    assert_eq!(read_resolvers(&list(&["a"]), &vec![true]), Err("a".to_string()));
}

#[test]
fn the_first_argument_without_a_colon_is_refused() {
    let refused = package_resolvers(&list(&["a:x", "bad", "worse"]));
    assert_eq!(refused.err(), Some("bad".to_string()));
    assert_eq!(package_resolvers(&list(&[""])).err(), Some("".to_string()));
}

#[test]
fn the_last_run_is_used_unless_it_is_to_be_overwritten() {
    assert!(uses_last_run(true, false));
    assert!(!uses_last_run(true, true));
    assert!(!uses_last_run(false, false));
    assert!(!uses_last_run(false, true));
}

#[test]
fn the_top_layer_of_the_last_run_is_kept() {
    let first = settle(None, set(&["b", "a"]));
    assert_eq!(first.top_layer.names(), &list(&["a", "b"]));
    assert!(!first.outdated);
    let kept = first.keep.unwrap();
    assert_eq!(kept.top_layer.names(), &list(&["a", "b"]));

    let second = settle(Some(kept), set(&["c"]));
    assert_eq!(second.top_layer.names(), &list(&["a", "b"]));
    assert!(second.outdated);
    assert!(second.keep.is_none());

    let same = settle(Some(Plankconfig { top_layer: set(&["c"]) }), set(&["c"]));
    assert_eq!(same.top_layer.names(), &list(&["c"]));
    assert!(!same.outdated);
    assert!(same.keep.is_none());
}
