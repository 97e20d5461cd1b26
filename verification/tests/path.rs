use p1c0_kernel::filesystem::Path;

fn components(path: &Path) -> Vec<String> {
    path.components().iter().map(|c| c.to_string()).collect()
}

#[test]
fn can_construct_path() {
    let path = Path::try_from("/some/path").unwrap();

    assert_eq!(components(&path), vec!["some", "path"]);
}

#[test]
fn cannot_construct_relative_path_from_str() {
    assert!(Path::try_from("some/path").is_err());
}

#[test]
fn path_ignores_duplicated_slash() {
    let path = Path::try_from("//some//path").unwrap();

    assert_eq!(components(&path), vec!["some", "path"]);
}

#[test]
fn path_removes_trailing_slash() {
    let path = Path::try_from("/some/path/").unwrap();

    assert_eq!(components(&path), vec!["some", "path"]);
}

#[test]
fn path_can_contain_symbols() {
    let path = Path::try_from("/some/path/file.txt").unwrap();

    assert_eq!(components(&path), vec!["some", "path", "file.txt"]);
}

#[test]
fn path_iterator_yields_components_then_stops() {
    let path = Path::try_from("  /a//b/  ").unwrap();
    let mut iter = path.iter();
    assert_eq!(iter.next(), Some("a"));
    assert_eq!(iter.next(), Some("b"));
    assert_eq!(iter.next(), None);
}

#[test]
fn root_path_has_no_components() {
    let path = Path::try_from("/").unwrap();
    assert!(components(&path).is_empty());
    assert!(Path::try_from("").is_err());
}
