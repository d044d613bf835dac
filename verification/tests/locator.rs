use fortuner::find_files;
use fortuner::FortuneError;
use fortuner::SourceWalk;
use fortuner::WalkEntry;

fn walk(source: &str, entries: &[(&str, bool)]) -> SourceWalk {
    SourceWalk {
        source: source.to_string(),
        error: None,
        entries: entries
            .iter()
            .map(|(p, f)| WalkEntry { path: p.to_string(), is_file: *f })
            .collect(),
    }
}

fn missing(source: &str, cause: &str) -> SourceWalk {
    SourceWalk {
        source: source.to_string(),
        error: Some(cause.to_string()),
        entries: Vec::new(),
    }
}

#[test]
fn test_find_files() {
    // A single existing file is discovered as itself.
    let res = find_files(&vec![walk(
        "./tests/inputs/jokes",
        &[("./tests/inputs/jokes", true)],
    )]);
    assert!(res.is_ok());
    let files = res.unwrap();
    assert_eq!(files.len(), 1);
    assert_eq!(files.first().unwrap(), "./tests/inputs/jokes");

    // A source path that does not exist fails the whole discovery.
    let res = find_files(&vec![missing(
        "/path/does/not/exist",
        "No such file or directory (os error 2)",
    )]);
    assert!(res.is_err());

    // Every input file is found except those with the `dat` extension.
    let res = find_files(&vec![walk(
        "./tests/inputs",
        &[
            ("./tests/inputs", false),
            ("./tests/inputs/jokes", true),
            ("./tests/inputs/ascii-art", true),
            ("./tests/inputs/jokes.dat", true),
            ("./tests/inputs/empty", true),
            ("./tests/inputs/fortunes", true),
            ("./tests/inputs/quotes", true),
            ("./tests/inputs/quotes.dat", true),
        ],
    )]);
    assert!(res.is_ok());
    let files = res.unwrap();
    assert_eq!(files.len(), 5);
    let first = files.first().unwrap();
    assert!(first.contains("ascii-art"));
    let last = files.last().unwrap();
    assert!(last.contains("quotes"));

    // Several sources: the result is sorted, with duplicates removed.
    let res = find_files(&vec![
        walk("./tests/inputs/jokes", &[("./tests/inputs/jokes", true)]),
        walk(
            "./tests/inputs/ascii-art",
            &[("./tests/inputs/ascii-art", true)],
        ),
        walk("./tests/inputs/jokes", &[("./tests/inputs/jokes", true)]),
    ]);
    assert!(res.is_ok());
    let files = res.unwrap();
    assert_eq!(files.len(), 2);
    assert!(files.first().unwrap().ends_with("ascii-art"));
    assert!(files.last().unwrap().ends_with("jokes"));
}

#[test]
fn sorted_and_deduplicated_regardless_of_order() {
    let res = find_files(&vec![walk(
        "dir",
        &[
            ("dir/c", true),
            ("dir/a", true),
            ("dir/b", true),
            ("dir/a", true),
            ("dir/c", true),
        ],
    )]);
    let files = res.unwrap();
    assert_eq!(files, vec!["dir/a", "dir/b", "dir/c"]);
}

#[test]
fn dat_files_excluded_at_any_depth() {
    let res = find_files(&vec![walk(
        "top",
        &[
            ("top/sub/deep/fortunes.dat", true),
            ("top/sub/deep/fortunes", true),
            ("top/other.dat", true),
            ("top/keep.txt", true),
        ],
    )]);
    let files = res.unwrap();
    assert_eq!(files, vec!["top/keep.txt", "top/sub/deep/fortunes"]);
}

#[test]
fn hidden_dat_file_has_no_extension_and_is_kept() {
    // `.dat` is a file name without an extension, not an excluded file.
    let res = find_files(&vec![walk("d", &[("d/.dat", true), ("d/x.dat", true)])]);
    let files = res.unwrap();
    assert_eq!(files, vec!["d/.dat"]);
}

#[test]
fn directories_are_not_results() {
    let res = find_files(&vec![walk("d", &[("d", false), ("d/sub", false)])]);
    assert_eq!(res.unwrap().len(), 0);
}

#[test]
fn one_missing_path_aborts_even_with_valid_ones() {
    let res = find_files(&vec![
        walk("ok", &[("ok/file", true)]),
        missing("/nope", "No such file or directory (os error 2)"),
    ]);
    match res {
        Err(FortuneError::PathNotFound { path, cause }) => {
            assert_eq!(path, "/nope");
            assert!(cause.contains("No such file"));
        }
        _ => panic!("expected PathNotFound"),
    }
}

#[test]
fn existing_but_empty_inputs_give_empty_result() {
    let res = find_files(&vec![walk("empty", &[])]);
    assert_eq!(res.unwrap().len(), 0);
}
