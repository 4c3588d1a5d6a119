use plank::layers::ColconPackage;
use plank::names::{NameMap, NameSet};
use plank::plan::{
    build_layers, exec_layers, generate_layer, layer_with, resolve_system_dependencies,
    Dependencies, Layer, Package, Packages, Source,
};
use std::cmp::Ordering;

fn list(words: &[&str]) -> Vec<String> {
    words.iter().map(|word| word.to_string()).collect()
}

fn set(words: &[&str]) -> NameSet {
    NameSet::from_list(&list(words))
}

fn packages(names: &[&str]) -> Packages {
    let mut packages: Packages = NameMap::new();
    for name in names {
        packages.insert(
            name.to_string(),
            Package {
                path: format!("src/{name}"),
                build: list(&["cmake", "b"]),
                run: list(&["c"]),
            },
        );
    }
    packages
}

fn resolvers(entries: &[(&str, &str)]) -> Vec<(String, String)> {
    entries.iter().map(|(pattern, command)| (pattern.to_string(), command.to_string())).collect()
}

fn commands(entries: &[(&str, &str)]) -> NameMap<String> {
    let mut map: NameMap<String> = NameMap::new();
    for (name, command) in entries {
        map.insert(name.to_string(), command.to_string());
    }
    map
}

fn layer(dependencies: &[&str], own: &[(&str, &str)]) -> Layer {
    generate_layer(
        "a".to_string(),
        Source::Path("src/a".to_string()),
        &list(dependencies),
        &packages(&["b", "c"]),
        &set(&["ignored"]),
        &resolvers(own),
        "apt install {}",
    )
}

#[test]
fn packages_keep_their_dependencies_in_order() {
    let package = Package::from_colcon_package(
        "src/a".to_string(),
        ColconPackage {
            name: "a".to_string(),
            depend: Some(list(&["z", "c"])),
            build_depend: Some(list(&["c", "b", "b"])),
            exec_depend: None,
        },
    );
    assert_eq!(package.path, "src/a");
    assert_eq!(package.build, list(&["c", "b", "b", "z", "c"]));
    assert_eq!(package.run, list(&["z", "c"]));
}

#[test]
fn dependencies_are_local_or_of_the_system_or_ignored() {
    let layer = layer(&["vim", "c", "ignored", "git", "b", "git"], &[]);
    assert_eq!(layer.name, "a");
    assert_eq!(layer.source, Source::Path("src/a".to_string()));
    assert_eq!(
        layer.system_dependencies,
        Dependencies::Resolved(list(&["apt install git vim"]))
    );
    assert_eq!(layer.local_dependencies, set(&["b", "c"]));
}

#[test]
fn a_local_package_is_copied_even_where_it_is_ignored() {
    let layer = generate_layer(
        "a".to_string(),
        Source::LayerName("b".to_string()),
        &list(&["b"]),
        &packages(&["b"]),
        &set(&["b"]),
        &resolvers(&[("b", "pip install {}")]),
        "apt install {}",
    );
    assert_eq!(layer.local_dependencies, set(&["b"]));
    assert_eq!(layer.system_dependencies, Dependencies::Nothing);
}

#[test]
fn nothing_is_installed_where_nothing_is_needed() {
    assert_eq!(layer(&[], &[]).system_dependencies, Dependencies::Nothing);
    assert_eq!(layer(&["b", "ignored"], &[]).system_dependencies, Dependencies::Nothing);
}

#[test]
fn own_resolvers_come_before_the_common_one() {
    let layer = layer(
        &["x", "git", "numpy", "attrs", "vim"],
        &[("numpy", "pip install {}"), ("attrs", "pip install {} # {}"), ("unused", "no {}")],
    );
    assert_eq!(
        layer.system_dependencies,
        Dependencies::Resolved(list(&[
            "pip install attrs # attrs",
            "pip install numpy",
            "apt install git vim x",
        ]))
    );
}

#[test]
fn a_pattern_resolves_the_dependencies_that_it_names() {
    assert_eq!(
        layer(&["libfoo"], &[("lib.*", "pip install {}")]).system_dependencies,
        Dependencies::Resolved(list(&["pip install libfoo", "apt install "]))
    );
    assert_eq!(
        layer(&["libfoo", "mylib", "lib"], &[("lib.+", "pip install {}")]).system_dependencies,
        Dependencies::Resolved(list(&["pip install libfoo", "apt install lib mylib"]))
    );
}

#[test]
fn the_last_pattern_that_names_a_dependency_counts() {
    let own = [("lib.*", "pip {}"), ("libfoo", "cargo {}"), (".*bar", ""), ("other", "no {}")];
    assert_eq!(
        layer(&["libfoo", "libbar", "libbaz", "git"], &own).system_dependencies,
        Dependencies::Resolved(list(&["pip libbaz", "cargo libfoo", "apt install git"]))
    );
    assert_eq!(
        layer(&["libfoo"], &[("libfoo", "cargo {}"), ("lib.*", "pip {}")]).system_dependencies,
        Dependencies::Resolved(list(&["pip libfoo", "apt install "]))
    );
}

#[test]
fn a_layer_goes_by_the_commands_that_apply() {
    let with = layer_with(
        "a".to_string(),
        Source::Path("src/a".to_string()),
        &list(&["libfoo", "b", "git", "ignored"]),
        &packages(&["b"]),
        &set(&["ignored"]),
        &commands(&[("libfoo", "pip install {}")]),
        "apt install {}",
    );
    assert_eq!(
        with.system_dependencies,
        Dependencies::Resolved(list(&["pip install libfoo", "apt install git"]))
    );
    assert_eq!(with.local_dependencies, set(&["b"]));
    assert_eq!(
        resolve_system_dependencies(&set(&["x", "y"]), &commands(&[("x", "")]), "i {}"),
        Dependencies::Resolved(list(&["i y"]))
    );
    assert_eq!(
        resolve_system_dependencies(&set(&[]), &commands(&[]), "i {}"),
        Dependencies::Nothing
    );
}

#[test]
fn a_blank_resolver_resolves_nothing() {
    assert_eq!(
        layer(&["git", "numpy"], &[("numpy", "")]).system_dependencies,
        layer(&["git"], &[("numpy", "")]).system_dependencies
    );
    assert_eq!(
        layer(&["numpy"], &[("numpy", "")]).system_dependencies,
        Dependencies::Resolved(list(&["apt install "]))
    );
}

#[test]
fn one_build_layer_per_package() {
    let layers = build_layers(&packages(&["b", "a"]), &set(&[]), &resolvers(&[]), "i {}");
    assert_eq!(layers.names(), &list(&["a", "b"]));
    let layer = layers.get("a").unwrap();
    assert_eq!(layer.name, "a");
    assert_eq!(layer.source, Source::Path("src/a".to_string()));
    assert_eq!(layer.system_dependencies, Dependencies::Resolved(list(&["i cmake"])));
    assert_eq!(layer.local_dependencies, set(&["b"]));
}

#[test]
fn one_run_time_layer_per_package() {
    let layers = exec_layers(&packages(&["b", "a"]), &set(&[]), &resolvers(&[]), "i {}");
    assert_eq!(layers.names(), &list(&["a_exec", "b_exec"]));
    let layer = layers.get("b_exec").unwrap();
    assert_eq!(layer.name, "b_exec");
    assert_eq!(layer.source, Source::LayerName("b".to_string()));
    assert_eq!(layer.system_dependencies, Dependencies::Resolved(list(&["i c"])));
    assert_eq!(layer.local_dependencies, set(&[]));
}

#[test]
fn layers_are_ordered_by_name_alone() {
    let named = |name: &str, path: &str| Layer {
        name: name.to_string(),
        source: Source::Path(path.to_string()),
        system_dependencies: Dependencies::Nothing,
        local_dependencies: set(&[]),
    };
    assert_eq!(named("a", "z").cmp(&named("b", "a")), Ordering::Less);
    assert_eq!(named("b", "z").cmp(&named("b", "a")), Ordering::Equal);
    assert_eq!(named("b", "a").partial_cmp(&named("a", "a")), Some(Ordering::Greater));
    assert!(named("a", "z") < named("b", "a"));
}
