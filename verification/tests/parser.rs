use fortuner::read_fortunes;
use fortuner::FileRead;
use fortuner::FortuneError;

fn lines_file(path: &str, lines: &[&str]) -> FileRead {
    FileRead::Lines {
        path: path.to_string(),
        lines: lines.iter().map(|l| l.to_string()).collect(),
    }
}

fn jokes() -> FileRead {
    lines_file(
        "./tests/inputs/jokes",
        &[
            "Q. What do you call a head of lettuce in a shirt and tie?",
            "A. Collared greens.",
            "%",
            "Q: Why did the gardener quit?",
            "A: His celery wasn't high enough.",
            "%",
            "Q: Why did the scarecrow win an award?",
            "A: He was outstanding in his field.",
            "%",
            "Q: What do you call a fake noodle?",
            "A: An impasta.",
            "%",
            "Q: Why don't eggs tell jokes?",
            "A: They'd crack each other up.",
            "%",
            "Q: What do you call a deer wearing an eye patch?",
            "A: A bad idea (bad-eye deer).",
            "%",
        ],
    )
}

fn quotes() -> FileRead {
    lines_file(
        "./tests/inputs/quotes",
        &[
            "The only way to do great work is to love what you do.",
            "%",
            "Well done is better than well said.",
            "%",
            "Simplicity is the ultimate sophistication.",
            "%",
            "What we think, we become.",
            "%",
            "No wind favors one who has no destined port.",
            "%",
        ],
    )
}

#[test]
fn test_read_fortunes() {
    // A single input file.
    let res = read_fortunes(&vec![jokes()]);
    assert!(res.is_ok());

    if let Ok(fortunes) = res {
        assert_eq!(fortunes.len(), 6);
        assert_eq!(
            fortunes.first().unwrap().text,
            "Q. What do you call a head of lettuce in a shirt and tie?\n\
            A. Collared greens."
        );
        assert_eq!(
            fortunes.last().unwrap().text,
            "Q: What do you call a deer wearing an eye patch?\n\
            A: A bad idea (bad-eye deer)."
        );
    }

    // Several input files.
    let res = read_fortunes(&vec![jokes(), quotes()]);
    assert!(res.is_ok());
    assert_eq!(res.unwrap().len(), 11);
}

#[test]
fn records_tagged_with_base_name_in_order() {
    let res = read_fortunes(&vec![lines_file(
        "./deep/dir/frogs",
        &["one", "%", "two", "%", "three", "%"],
    )]);
    let fortunes = res.unwrap();
    assert_eq!(fortunes.len(), 3);
    let texts: Vec<&str> = fortunes.iter().map(|f| f.text.as_str()).collect();
    assert_eq!(texts, vec!["one", "two", "three"]);
    for f in &fortunes {
        assert_eq!(f.source, "frogs");
    }
}

#[test]
fn trailing_unterminated_block_is_dropped() {
    let res = read_fortunes(&vec![lines_file("f", &["a", "%", "left", "over"])]);
    let fortunes = res.unwrap();
    assert_eq!(fortunes.len(), 1);
    assert_eq!(fortunes[0].text, "a");
}

#[test]
fn consecutive_or_leading_terminators_emit_nothing() {
    let res = read_fortunes(&vec![lines_file("f", &["%", "%", "a", "%", "%", "b", "%"])]);
    let fortunes = res.unwrap();
    let texts: Vec<&str> = fortunes.iter().map(|f| f.text.as_str()).collect();
    assert_eq!(texts, vec!["a", "b"]);
}

#[test]
fn internal_blank_lines_are_preserved() {
    let res = read_fortunes(&vec![lines_file("f", &["first", "", "third", "%"])]);
    let fortunes = res.unwrap();
    assert_eq!(fortunes.len(), 1);
    assert_eq!(fortunes[0].text, "first\n\nthird");
}

#[test]
fn empty_file_gives_no_records() {
    let res = read_fortunes(&vec![lines_file("f", &[])]);
    assert_eq!(res.unwrap().len(), 0);
}

#[test]
fn unreadable_file_fails_the_whole_parse() {
    let res = read_fortunes(&vec![
        lines_file("ok", &["a", "%"]),
        FileRead::Unreadable {
            path: "./gone".to_string(),
            cause: "Permission denied (os error 13)".to_string(),
        },
    ]);
    match res {
        Err(FortuneError::FileOpenError { path, cause }) => {
            assert_eq!(path, "./gone");
            assert!(cause.contains("Permission denied"));
        }
        _ => panic!("expected FileOpenError"),
    }
}
