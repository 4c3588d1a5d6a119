use plank::names::NameSet;
use plank::plan::Package;
use plank::popularity::{
    invert, survey, tally, top_layer, PackagePopularity, PopularityIndex, Survey,
};

fn list(words: &[&str]) -> Vec<String> {
    words.iter().map(|word| word.to_string()).collect()
}

fn package(name: &str, build: &[&str], run: &[&str]) -> (String, Package) {
    let package = Package { path: format!("src/{name}"), build: list(build), run: list(run) };
    (name.to_string(), package)
}

fn found() -> Vec<(String, Package)> {
    vec![
        package("a", &["git", "b", "vim", "git"], &["vim"]),
        package("b", &["git", "cmake"], &["vim", "a"]),
        package("c", &["cmake", "b"], &[]),
    ]
}

fn counts(popularity: &PackagePopularity) -> Vec<(String, u32)> {
    let mut out = Vec::new();
    for (at, name) in popularity.names().iter().enumerate() {
        out.push((name.clone(), *popularity.value_at(at)));
    }
    out
}

fn pairs(entries: &[(&str, u32)]) -> Vec<(String, u32)> {
    entries.iter().map(|(name, count)| (name.to_string(), *count)).collect()
}

#[test]
fn every_mention_counts() {
    let mut popularity = PackagePopularity::new();
    tally(&mut popularity, &list(&["b", "a", "b"]));
    assert_eq!(counts(&popularity), pairs(&[("a", 1), ("b", 2)]));
    tally(&mut popularity, &list(&["c", "b"]));
    assert_eq!(counts(&popularity), pairs(&[("a", 1), ("b", 3), ("c", 1)]));
    tally(&mut popularity, &list(&[]));
    assert_eq!(counts(&popularity), pairs(&[("a", 1), ("b", 3), ("c", 1)]));
}

#[test]
fn a_survey_counts_builds_and_runs_apart() {
    let survey = survey(found());
    assert_eq!(survey.local_packages.names(), &list(&["a", "b", "c"]));
    assert_eq!(
        counts(&survey.build_popularity),
        pairs(&[("b", 2), ("cmake", 2), ("git", 3), ("vim", 1)])
    );
    assert_eq!(counts(&survey.exec_popularity), pairs(&[("a", 1), ("vim", 2)]));
}

#[test]
fn a_survey_does_not_depend_on_the_order() {
    let forward = survey(found());
    let mut reversed = found();
    reversed.reverse();
    let backward = survey(reversed);
    assert_eq!(forward.local_packages.names(), backward.local_packages.names());
    assert_eq!(counts(&forward.build_popularity), counts(&backward.build_popularity));
    assert_eq!(counts(&forward.exec_popularity), counts(&backward.exec_popularity));
}

#[test]
fn of_two_packages_with_one_name_the_last_counts() {
    let mut survey = Survey::new();
    let (name, first) = package("a", &["git"], &[]);
    survey.record(name, first);
    let second = Package { path: "other".to_string(), build: list(&["git"]), run: list(&[]) };
    survey.record("a".to_string(), second);
    assert_eq!(survey.local_packages.names(), &list(&["a"]));
    assert_eq!(survey.local_packages.get("a").unwrap().path, "other");
    assert_eq!(counts(&survey.build_popularity), pairs(&[("git", 2)]));
}

#[test]
fn the_index_leaves_out_local_packages() {
    let survey = survey(found());
    let index = invert(&survey.build_popularity, &survey.local_packages);
    assert_eq!(index.counts(), &vec![1, 2, 3]);
    assert_eq!(index.names(1), Some(&list(&["vim"])));
    assert_eq!(index.names(2), Some(&list(&["cmake"])));
    assert_eq!(index.names(3), Some(&list(&["git"])));
    assert_eq!(index.names(4), None);
    let index = invert(&survey.exec_popularity, &survey.local_packages);
    assert_eq!(index.counts(), &vec![2]);
}

#[test]
fn names_of_one_count_are_in_ascending_order() {
    let mut popularity = PackagePopularity::new();
    tally(&mut popularity, &list(&["z", "a", "m", "m"]));
    let index = invert(&popularity, &survey(vec![]).local_packages);
    assert_eq!(index.names(1), Some(&list(&["a", "z"])));
    assert_eq!(index.names(2), Some(&list(&["m"])));
}

#[test]
fn the_top_layer_has_the_popular_names() {
    let survey = survey(found());
    let index = invert(&survey.build_popularity, &survey.local_packages);
    let top = |minimum: u32| top_layer(&index, minimum).map(|names| names.names().clone());
    assert_eq!(top(0), Some(list(&["cmake", "git", "vim"])));
    assert_eq!(top(1), Some(list(&["cmake", "git", "vim"])));
    assert_eq!(top(2), Some(list(&["cmake", "git"])));
    assert_eq!(top(3), Some(list(&["git"])));
    assert_eq!(top(4), None);
    assert_eq!(top(u32::MAX), None);
    let empty: Option<NameSet> = top_layer(&PopularityIndex::new(), 0);
    assert!(empty.is_none());
}
