use antiseptic::find_files::{
    compile_exclusions, consider_collecting_file, is_excluded, FileSet, WalkEntry,
};
use antiseptic::{AntisepticError, Configuration};

fn entry(path: &str, name: &str, is_file: bool) -> WalkEntry {
    WalkEntry {
        path: path.to_string(),
        file_name: name.to_string(),
        is_file,
    }
}

fn config(exclude: &[&str]) -> Configuration {
    Configuration {
        exclude: exclude.iter().map(|s| s.to_string()).collect(),
        allowed_words: Vec::new(),
    }
}

fn paths(set: &FileSet) -> Vec<String> {
    set.paths()
}

#[test]
fn file_set_is_ordered_and_without_duplicates() {
    let mut first = FileSet::new();
    assert!(first.insert("src/b.rs".to_string()));
    assert!(first.insert("src/a.rs".to_string()));
    assert!(!first.insert("src/b.rs".to_string()));
    assert!(first.insert("README".to_string()));
    let mut second = FileSet::new();
    for p in ["README", "src/a.rs", "src/b.rs", "src/a.rs"] {
        second.insert(p.to_string());
    }
    assert_eq!(paths(&first), vec!["README", "src/a.rs", "src/b.rs"]);
    let mut unicode = FileSet::new();
    for p in ["é.txt", "z.txt", "a.txt", "Z.txt"] {
        unicode.insert(p.to_string());
    }
    assert_eq!(paths(&unicode), vec!["Z.txt", "a.txt", "z.txt", "é.txt"]);
    assert_eq!(paths(&first), paths(&second));
}

#[test]
fn excluded_directory_is_skipped() {
    let (exclusions, _) = compile_exclusions(&config(&["target"]));
    let mut files = FileSet::new();
    let result = consider_collecting_file(
        Some(&entry("proj/target", "target", false)),
        &mut files,
        &exclusions,
    );
    assert_eq!(result, Ok(true));
    assert!(files.paths().is_empty());
    let result = consider_collecting_file(
        Some(&entry("proj/src", "src", false)),
        &mut files,
        &exclusions,
    );
    assert_eq!(result, Ok(false));
    assert!(files.paths().is_empty());
}

#[test]
fn files_are_collected_unless_excluded() {
    let (exclusions, _) = compile_exclusions(&config(&["*.lock", "**/gen/**"]));
    let mut files = FileSet::new();
    for e in [
        entry("proj/src/main.rs", "main.rs", true),
        entry("proj/Cargo.lock", "Cargo.lock", true),
        entry("proj/gen/out.rs", "out.rs", true),
        entry("proj/src/main.rs", "main.rs", true),
    ] {
        assert_eq!(consider_collecting_file(Some(&e), &mut files, &exclusions), Ok(false));
    }
    assert_eq!(paths(&files), vec!["proj/src/main.rs"]);
}

#[test]
fn walk_error_aborts() {
    let (exclusions, _) = compile_exclusions(&config(&[]));
    let mut files = FileSet::new();
    assert_eq!(
        consider_collecting_file(None, &mut files, &exclusions),
        Err(AntisepticError::WalkDirIterAborts)
    );
}

#[test]
fn invalid_glob_excludes_nothing() {
    let (exclusions, invalid) = compile_exclusions(&config(&["a[", "*.md", "{x"]));
    assert_eq!(invalid, vec!["a[", "{x"]);
    assert!(!is_excluded(&entry("a[", "a[", true), &exclusions));
    assert!(is_excluded(&entry("docs/x.md", "x.md", true), &exclusions));
}

#[test]
fn glob_whose_matcher_cannot_be_built_is_inert() {
    let mut deep = "x".to_string();
    for _ in 0..300 {
        deep = format!("{{a,{}}}", deep);
    }
    let (exclusions, invalid) = compile_exclusions(&config(&[deep.as_str(), "*.md"]));
    assert_eq!(invalid, vec![deep.clone()]);
    assert!(!is_excluded(&entry("src/x", "x", true), &exclusions));
    assert!(is_excluded(&entry("README.md", "README.md", true), &exclusions));
    let mut files = FileSet::new();
    assert_eq!(
        consider_collecting_file(Some(&entry("src/x", "x", true)), &mut files, &exclusions),
        Ok(false)
    );
    assert_eq!(paths(&files), vec!["src/x"]);
}
