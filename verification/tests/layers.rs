use plank::layers::{ColconPackage, Dependencies, Layer, Name, Package, Source};
use plank::names::NameSet;
use std::cmp::Ordering;

fn list(words: &[&str]) -> Vec<String> {
    words.iter().map(|word| word.to_string()).collect()
}

fn layer(name: &str, path: &str) -> Layer {
    Layer {
        name: Name::from(name.to_string()),
        source: Source::Path(path.to_string()),
        dependencies: Dependencies {
            system_dependencies: NameSet::new(),
            local_dependencies: NameSet::new(),
        },
    }
}

#[test]
fn a_name_is_its_text() {
    let name = Name::from("rclcpp".to_string());
    assert_eq!(name.as_str(), "rclcpp");
    let text: &str = name.as_ref();
    assert_eq!(text, "rclcpp");
    assert_eq!(name.to_text(), "rclcpp");
}

#[test]
fn names_compare_as_their_texts() {
    for a in ["", "a", "A", "ab", "b", "é"] {
        for b in ["", "a", "A", "ab", "b", "é"] {
            let (x, y) = (Name::from(a.to_string()), Name::from(b.to_string()));
            assert_eq!(x == y, a == b);
            assert_eq!(x < y, a < b);
            assert_eq!(x.partial_cmp(&y), a.partial_cmp(b));
            assert_eq!(x.cmp(&y), a.cmp(b));
        }
    }
}

#[test]
fn the_debug_text_of_a_name_is_quoted() {
    assert_eq!(Name::from("rclcpp".to_string()).debug_text(), "\"rclcpp\"");
    assert_eq!(Name::from("it's ~".to_string()).debug_text(), "\"it's ~\"");
    assert_eq!(Name::from("a\"b".to_string()).debug_text(), "\"a\\\"b\"");
}

#[test]
fn dependencies_of_both_kinds_are_merged_into_sets() {
    let package = Package::from_colcon_package(
        "src/a".to_string(),
        ColconPackage {
            name: "a".to_string(),
            depend: Some(list(&["z", "c"])),
            build_depend: Some(list(&["c", "b", "b"])),
            exec_depend: None,
        },
    );
    assert_eq!(package.path, "src/a");
    assert_eq!(package.build.names(), &list(&["b", "c", "z"]));
    assert_eq!(package.run.names(), &list(&["c", "z"]));
}

#[test]
fn set_layers_are_ordered_by_name_alone() {
    assert_eq!(layer("a", "z").cmp(&layer("b", "a")), Ordering::Less);
    assert_eq!(layer("a", "z").cmp(&layer("a", "a")), Ordering::Equal);
    assert_eq!(layer("b", "a").partial_cmp(&layer("a", "z")), Some(Ordering::Greater));
    assert!(layer("a", "z") < layer("b", "a"));
    assert!(layer("a", "z") != layer("a", "a"));
    assert!(matches!(layer("a", "z").source, Source::Path(_)));
    let from = Source::LayerName(Name::from("a".to_string()));
    assert!(from != Source::Path("a".to_string()));
}
