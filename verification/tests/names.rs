use plank::names::{compare, less, NameMap, NameSet};
use std::cmp::Ordering;
use std::collections::{BTreeMap, BTreeSet};

fn list(words: &[&str]) -> Vec<String> {
    words.iter().map(|word| word.to_string()).collect()
}

const WORDS: [&str; 12] = [
    "", "a", "A", "ab", "b", "aé", "az", "a\u{ffff}", "a\u{1f600}", "_", "a_exec", "Z",
];

#[test]
fn names_are_ordered_as_strings_are() {
    for a in WORDS {
        for b in WORDS {
            assert_eq!(less(a, b), a < b, "{a:?} {b:?}");
            assert_eq!(compare(a, b), a.cmp(b), "{a:?} {b:?}");
        }
    }
    assert_eq!(compare("a", "b"), Ordering::Less);
    assert_eq!(compare("b", "a"), Ordering::Greater);
    assert_eq!(compare("a", "a"), Ordering::Equal);
}

#[test]
fn sets_are_sorted_and_have_nothing_twice() {
    let mut set = NameSet::new();
    let mut expected: BTreeSet<String> = BTreeSet::new();
    for word in WORDS.iter().chain(WORDS.iter().rev()) {
        set.insert(word.to_string());
        expected.insert(word.to_string());
        let names: Vec<String> = expected.iter().cloned().collect();
        assert_eq!(set.names(), &names);
    }
    assert!(set.contains("az"));
    assert!(!set.contains("zz"));
}

#[test]
fn a_set_does_not_depend_on_the_order_of_insertion() {
    let forward = NameSet::from_list(&list(&WORDS));
    let mut words = list(&WORDS);
    words.reverse();
    let backward = NameSet::from_list(&words);
    assert!(forward.same(&backward));
    assert_eq!(forward.names(), backward.names());
    assert_eq!(forward, backward);
}

#[test]
fn unions_and_copies() {
    let a = NameSet::from_list(&list(&["c", "a"]));
    let b = NameSet::from_list(&list(&["b", "c"]));
    assert_eq!(a.union(&b).names(), &list(&["a", "b", "c"]));
    assert_eq!(a.names(), &list(&["a", "c"]));
    assert!(a.copied().same(&a));
    assert!(!a.same(&b));
    assert!(!a.same(&NameSet::new()));
    assert!(NameSet::new().same(&NameSet::new()));
}

#[test]
fn maps_keep_the_last_value() {
    let mut map: NameMap<u32> = NameMap::new();
    let mut expected: BTreeMap<String, u32> = BTreeMap::new();
    for (i, word) in WORDS.iter().chain(WORDS.iter().rev()).enumerate() {
        map.insert(word.to_string(), i as u32);
        expected.insert(word.to_string(), i as u32);
    }
    let names: Vec<String> = expected.keys().cloned().collect();
    assert_eq!(map.names(), &names);
    for (at, (name, value)) in expected.iter().enumerate() {
        assert_eq!(map.value_at(at), value);
        assert_eq!(map.get(name), Some(value));
        assert!(map.contains_key(name));
    }
    assert_eq!(map.get("zz"), None);
    assert!(!map.contains_key("zz"));
}
