use plank::arguments::package_resolvers;
use plank::dockerfile::{
    append_layer, dockerfile, foot_of_include, head_of_include, layers_text, to_array_form,
    Include, LayerError, Settings, BUILD_BASE, EXEC_BASE, RULE,
};
use plank::graph::layer_order;
use plank::names::{NameMap, NameSet};
use plank::plan::{Dependencies, Layer, Layers, Package, Source};
use plank::planner::{plan, Choices, Plan, PlanError, DEFAULT_MIN_POPULARITY};
use plank::popularity::survey;

fn list(words: &[&str]) -> Vec<String> {
    words.iter().map(|word| word.to_string()).collect()
}

fn set(words: &[&str]) -> NameSet {
    NameSet::from_list(&list(words))
}

fn package(name: &str, build: &[&str], run: &[&str]) -> (String, Package) {
    let package = Package { path: format!("src/{name}"), build: list(build), run: list(run) };
    (name.to_string(), package)
}

fn choices(min_build: u32, min_exec: u32) -> Choices {
    Choices {
        min_build_popularity: min_build,
        min_exec_popularity: min_exec,
        ignore: set(&["skip"]),
        package_resolvers: package_resolvers(&list(&["numpy:pip install {}"])).unwrap(),
        default_resolver: "apt install {}".to_string(),
    }
}

fn settings() -> Settings {
    Settings {
        base_image: "ros:jazzy".to_string(),
        artifact_dir: "install".to_string(),
        build_command: "colcon build {}".to_string(),
        exec_command: "ros2 run  {} #{}".to_string(),
    }
}

fn layer(name: &str, source: Source, local: &[&str]) -> Layer {
    Layer {
        name: name.to_string(),
        source,
        system_dependencies: Dependencies::Nothing,
        local_dependencies: set(local),
    }
}

fn builds(entries: &[(&str, &[&str])]) -> Layers {
    let mut layers: Layers = NameMap::new();
    for (name, local) in entries {
        layers.insert(name.to_string(), layer(name, Source::Path(format!("src/{name}")), local));
    }
    layers
}

fn runs(entries: &[(&str, &str, &[&str])]) -> Layers {
    let mut layers: Layers = NameMap::new();
    for (name, from, local) in entries {
        layers.insert(name.to_string(), layer(name, Source::LayerName(from.to_string()), local));
    }
    layers
}

fn found() -> Vec<(String, Package)> {
    vec![
        package("app", &["git", "lib", "numpy", "vim"], &["lib", "curl", "skip"]),
        package("lib", &["git", "skip"], &["curl"]),
    ]
}

fn planned() -> Plan {
    plan(&survey(found()), &choices(2, 2)).unwrap()
}

fn position(order: &[String], name: &str) -> usize {
    order.iter().position(|other| other == name).unwrap()
}

#[test]
fn a_plan_has_all_layers() {
    let plan = planned();
    assert_eq!(plan.build_top_layer, set(&["git"]));
    assert_eq!(plan.exec_top_layer, set(&["curl"]));
    assert_eq!(plan.build_layers.names(), &list(&["app", "lib"]));
    assert_eq!(plan.exec_layers.names(), &list(&["app_exec", "lib_exec"]));
    assert_eq!(
        plan.build_layers.get("app").unwrap().system_dependencies,
        Dependencies::Resolved(list(&["pip install numpy", "apt install vim"]))
    );
    assert_eq!(
        plan.build_layers.get("lib").unwrap().system_dependencies,
        Dependencies::Nothing
    );
    let mut names = plan.order.clone();
    names.sort();
    assert_eq!(names, list(&["app", "app_exec", "lib", "lib_exec"]));
    assert!(position(&plan.order, "lib") < position(&plan.order, "app"));
    assert!(position(&plan.order, "app") < position(&plan.order, "app_exec"));
    assert!(position(&plan.order, "lib") < position(&plan.order, "app_exec"));
    assert!(position(&plan.order, "lib") < position(&plan.order, "lib_exec"));
}

#[test]
fn there_is_no_plan_without_popular_dependencies() {
    match plan(&survey(found()), &choices(3, 2)) {
        Err(PlanError::NoBuildTopLayer(index)) => {
            assert_eq!(index.counts(), &vec![1, 2]);
            assert_eq!(index.names(1), Some(&list(&["numpy", "skip", "vim"])));
            assert_eq!(index.names(2), Some(&list(&["git"])));
        }
        other => panic!("{other:?}"),
    }
    match plan(&survey(found()), &choices(2, DEFAULT_MIN_POPULARITY)) {
        Err(PlanError::NoExecTopLayer(index)) => {
            assert_eq!(index.names(1), Some(&list(&["skip"])));
            assert_eq!(index.names(2), Some(&list(&["curl"])));
        }
        other => panic!("{other:?}"),
    }
    assert!(matches!(plan(&survey(vec![]), &choices(0, 0)), Err(PlanError::NoBuildTopLayer(_))));
    assert_eq!(DEFAULT_MIN_POPULARITY, 4);
}

#[test]
fn layers_come_after_what_they_copy_from() {
    let build = builds(&[("a", &["c", "d"]), ("b", &["a"]), ("c", &["d"]), ("d", &[])]);
    let run = runs(&[("a_exec", "a", &["d"]), ("d_exec", "d", &["b"])]);
    let order = layer_order(&build, &run);
    assert_eq!(order.len(), 6);
    for (from, to) in [
        ("d", "c"), ("c", "a"), ("d", "a"), ("a", "b"), ("a", "a_exec"), ("d", "a_exec"),
        ("d", "d_exec"), ("b", "d_exec"),
    ] {
        assert!(position(&order, from) < position(&order, to), "{from} {to} {order:?}");
    }
    assert_eq!(order, layer_order(&build, &run));
}

#[test]
fn layers_in_a_cycle_are_left_out() {
    let build = builds(&[("a", &["b"]), ("b", &["a"]), ("c", &["c"]), ("d", &["a"]), ("e", &[])]);
    let run = runs(&[("a_exec", "a", &[]), ("e_exec", "e", &["e"])]);
    assert_eq!(layer_order(&build, &run), list(&["e", "e_exec"]));
}

#[test]
fn a_name_that_is_only_copied_from_is_in_the_order() {
    let build = builds(&[("a", &["ghost"])]);
    assert_eq!(layer_order(&build, &runs(&[])), list(&["ghost", "a"]));
    assert!(layer_order(&builds(&[]), &runs(&[])).is_empty());
}

#[test]
fn commands_in_array_form() {
    assert_eq!(to_array_form("ros2  run\tapp"), r#"["ros2", "run", "app"]"#);
    assert_eq!(to_array_form("app"), r#"["app"]"#);
    assert_eq!(to_array_form(""), r#"[""]"#);
    assert_eq!(to_array_form(" \n"), r#"[""]"#);
}

#[test]
fn a_build_layer_is_written() {
    let mut out = String::from("# before\n");
    let mut layer = layer("app", Source::Path("src/app".to_string()), &["lib", "core"]);
    layer.system_dependencies = Dependencies::Resolved(list(&["one", "two", "three"]));
    append_layer(&mut out, BUILD_BASE, &layer, &settings());
    assert_eq!(
        out,
        "# before\n\
         \n\
         from base as app\n\
         workdir /package\n\
         run three\n\
         run two\n\
         run one\n\
         copy --link --from=core /package/install ./dependencies/core/install/\n\
         copy --link --from=lib /package/install ./dependencies/lib/install/\n\
         copy src/app /package/app\n\
         run colcon build /package/app\n"
    );
}

#[test]
fn a_run_time_layer_is_written() {
    let mut out = String::new();
    let layer = layer("app_exec", Source::LayerName("app".to_string()), &[]);
    append_layer(&mut out, EXEC_BASE, &layer, &settings());
    assert_eq!(
        out,
        "\n\
         from base_exec as app_exec\n\
         workdir /package\n\
         copy --link --from=app /package/ ./app/\n\
         entrypoint [\"ros2\", \"run\", \"app\", \"{}\"]\n"
    );
}

#[test]
fn layers_are_written_in_order() {
    let build = builds(&[("a", &[]), ("b", &["a"])]);
    let first = layers_text(&list(&["a"]), &build, &runs(&[]), &settings()).unwrap();
    let both = layers_text(&list(&["a", "b"]), &build, &runs(&[]), &settings()).unwrap();
    let mut expected = first;
    append_layer(&mut expected, BUILD_BASE, build.get("b").unwrap(), &settings());
    assert_eq!(both, expected);
    assert_eq!(layers_text(&list(&[]), &build, &runs(&[]), &settings()), Ok(String::new()));
}

#[test]
fn the_first_layer_with_an_error_is_named() {
    let build = builds(&[("a", &[]), ("a_exec", &[])]);
    let run = runs(&[("a_exec", "a", &[])]);
    let text = |order: &[&str]| layers_text(&list(order), &build, &run, &settings());
    assert_eq!(text(&["a", "a_exec"]), Err(LayerError::Ambiguous("a_exec".to_string())));
    assert_eq!(
        text(&["a", "none", "a_exec"]),
        Err(LayerError::Missing("none".to_string()))
    );
    assert!(text(&["a"]).is_ok());
}

#[test]
fn a_package_named_like_a_run_time_layer_is_refused() {
    let plan = plan(
        &survey(vec![
            package("app", &["git"], &["curl"]),
            package("app_exec", &["git"], &["curl"]),
        ]),
        &choices(1, 1),
    )
    .unwrap();
    let file = dockerfile(
        &vec![],
        &plan.build_top_layer,
        &plan.exec_top_layer,
        "apt install {}",
        &plan.order,
        &plan.build_layers,
        &plan.exec_layers,
        &settings(),
    );
    assert_eq!(file, Err(LayerError::Ambiguous("app_exec".to_string())));
}

#[test]
fn included_files_have_a_head_and_a_foot() {
    assert_eq!(RULE, "-".repeat(80));
    assert_eq!(
        head_of_include("a.docker"),
        format!("#--- include `a.docker` ---\n#{}\n", "-".repeat(80))
    );
    assert_eq!(
        foot_of_include("a.docker"),
        format!("\n#--- end `a.docker` ---\n#{}\n\n\n", "-".repeat(80))
    );
}

const EXPECTED: &str = r#"from ros:jazzy as base
run apt install git

from ros:jazzy as base_exec
run apt install curl

from base as lib
workdir /package
copy src/lib /package/lib
run colcon build /package/lib

from base_exec as lib_exec
workdir /package
copy --link --from=lib /package/ ./lib/
entrypoint ["ros2", "run", "lib", "{}"]

from base as app
workdir /package
run apt install vim
run pip install numpy
copy --link --from=lib /package/install ./dependencies/lib/install/
copy src/app /package/app
run colcon build /package/app

from base_exec as app_exec
workdir /package
copy --link --from=lib /package/install ./dependencies/lib/install/
copy --link --from=app /package/ ./app/
entrypoint ["ros2", "run", "app", "{}"]
"#;

#[test]
fn a_whole_dockerfile() {
    let plan = planned();
    let file = |includes: &Vec<Include>| {
        dockerfile(
            includes,
            &plan.build_top_layer,
            &plan.exec_top_layer,
            "apt install {}",
            &plan.order,
            &plan.build_layers,
            &plan.exec_layers,
            &settings(),
        )
        .unwrap()
    };
    assert_eq!(String::from_utf8(file(&vec![])).unwrap(), EXPECTED);

    let includes = vec![
        Include { name: "é".to_string(), contents: vec![0xff, 0x00] },
        Include { name: "b".to_string(), contents: vec![] },
    ];
    let mut expected = head_of_include("é").into_bytes();
    expected.extend([0xff, 0x00]);
    expected.extend(foot_of_include("é").into_bytes());
    expected.extend(head_of_include("b").into_bytes());
    expected.extend(foot_of_include("b").into_bytes());
    expected.extend(EXPECTED.as_bytes());
    assert_eq!(file(&includes), expected);
}
