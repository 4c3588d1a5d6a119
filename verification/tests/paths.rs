use camino::Utf8Path;
use plank::paths::{
    backup_extension, backup_path, directory_from, is_manifest, lengthen, package_directory,
    PathError,
};

fn directory(path: &str, target: &str) -> Result<String, PathError> {
    package_directory(path, target)
}

#[test]
fn manifests_are_told_by_their_name() {
    assert!(is_manifest("package.xml"));
    assert!(is_manifest("./src/a/package.xml"));
    assert!(is_manifest("/package.xml"));
    assert!(is_manifest("a/package.xml/"));
    assert!(!is_manifest("a/my_package.xml"));
    assert!(!is_manifest("a/package.xml.bak"));
    assert!(!is_manifest("package.xml/a"));
    assert!(!is_manifest("Package.xml"));
    assert!(!is_manifest(".."));
    assert!(!is_manifest(""));
}

#[test]
fn directories_are_seen_from_where_the_search_began() {
    assert_eq!(directory("./a/package.xml", "./"), Ok("a".to_string()));
    assert_eq!(directory("./src/a/package.xml", "."), Ok("src/a".to_string()));
    assert_eq!(directory("work/src/a/package.xml", "work"), Ok("src/a".to_string()));
    assert_eq!(directory("work/src/a/package.xml", "work/"), Ok("src/a".to_string()));
    assert_eq!(directory("/work/a/package.xml", "/"), Ok("work/a".to_string()));
    assert_eq!(directory("./package.xml", "./"), Ok("".to_string()));
    assert_eq!(directory("work/../a/package.xml", "work"), Ok("../a".to_string()));
}

#[test]
fn a_package_elsewhere_has_no_directory() {
    assert_eq!(directory("other/a/package.xml", "work"), Err(PathError::Outside));
    assert_eq!(directory("workshop/a/package.xml", "work"), Err(PathError::Outside));
    assert_eq!(directory("work/package.xml", "work/package.xml"), Err(PathError::NoParent));
}

#[test]
fn a_directory_takes_both_steps() {
    let some = || Some("a".to_string());
    assert_eq!(directory_from(some(), Some("b".to_string())), Ok("b".to_string()));
    assert_eq!(directory_from(some(), None), Err(PathError::NoParent));
    assert_eq!(directory_from(None, some()), Err(PathError::Outside));
    assert_eq!(directory_from(None, None), Err(PathError::Outside));
}

#[test]
fn backups_stand_beside_the_file() {
    assert_eq!(backup_path("Dockerfile"), "Dockerfile.bak");
    assert_eq!(backup_path("out.txt"), "out.txtbak");
    assert_eq!(backup_path("out."), "out.bak");
    assert_eq!(backup_path("a.b/c.d.e"), "a.b/c.d.ebak");
    assert_eq!(backup_path("a.b/c"), "a.b/c.bak");
    assert_eq!(backup_path(".docker"), ".docker.bak");
    assert_eq!(backup_path("a/.docker.dev"), "a/.docker.devbak");
    assert_eq!(backup_path("...a"), "...abak");
    assert_eq!(backup_path("..a.b"), "..a.bbak");
    assert_eq!(backup_path("..."), "...bak");
    assert_eq!(backup_path("Dockerfile:dev"), "Dockerfile:dev.bak");
    assert_eq!(backup_path("a.b:c"), "a.b:cbak");
}

#[test]
fn the_extension_of_a_backup_is_longer() {
    assert_eq!(backup_extension(None), "bak");
    assert_eq!(backup_extension(Some("txt".to_string())), "txtbak");
    assert_eq!(backup_extension(Some("".to_string())), "bak");
}

#[test]
fn paths_may_hold_a_colon() {
    assert!(is_manifest("abc:b/package.xml"));
    assert!(!is_manifest("abc:package.xml"));
    assert_eq!(directory("./abc:b/package.xml", "./"), Ok("abc:b".to_string()));
    assert!(is_manifest("x/c:y/package.xml"));
    assert_eq!(directory("w/x/c:y/package.xml", "w"), Ok("x/c:y".to_string()));
    assert_eq!(backup_path("x/c:y.z"), "x/c:y.zbak");
}

#[test]
fn a_longer_extension_stands_in_the_place_of_bak() {
    assert_eq!(lengthen("a.bak", "b\\cbak"), "a.b\\cbak");
    assert_eq!(lengthen("x/.bak", "ybak"), "x/.ybak");
    assert_eq!(lengthen("..", "a\\bbak"), "..");
    assert_eq!(lengthen("abak", "ybak"), "abak");
    assert_eq!(lengthen("bak", "ybak"), "bak");
    assert_eq!(lengthen("", "ybak"), "");
}

#[test]
fn backups_have_the_longer_extension_whatever_it_holds() {
    for output in ["a.b\\c", "a.b\\c/", "..a\\b", "..a\\b/", "x/a.b\\c//", "a\\b.c", "..a", "..", "/"] {
        let path = Utf8Path::new(output);
        let extension = path.extension().unwrap_or("").to_string() + "bak";
        assert_eq!(backup_path(output), path.with_extension(extension).into_string(), "{output}");
    }
}
