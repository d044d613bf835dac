use fortuner::filter_fortunes;
use fortuner::find_files;
use fortuner::pick_fortune;
use fortuner::read_fortunes;
use fortuner::FileRead;
use fortuner::Pattern;
use fortuner::SourceWalk;
use fortuner::WalkEntry;

fn entry(path: &str, is_file: bool) -> WalkEntry {
    WalkEntry {
        path: path.to_string(),
        is_file,
    }
}

fn jokes_lines() -> Vec<String> {
    [
        "Q. What do you call a head of lettuce in a shirt and tie?",
        "A. Collared greens.",
        "%",
        "Q: Why did the gardener quit?",
        "A: His celery wasn't high enough.",
        "%",
        "Q: Why did the scarecrow win an award?",
        "A: He was outstanding in his field.",
        "%",
        "Q: What do you call a fake noodle?",
        "A: An impasta.",
        "%",
        "Q: Why don't eggs tell jokes?",
        "A: They'd crack each other up.",
        "%",
        "Q: What do you call a deer wearing an eye patch?",
        "A: A bad idea (bad-eye deer).",
        "%",
    ]
    .iter()
    .map(|l| l.to_string())
    .collect()
}

fn quotes_lines() -> Vec<String> {
    [
        "The only way to do great work is to love what you do.",
        "%",
        "Well done is better than well said.",
        "%",
        "Simplicity is the ultimate sophistication.",
        "%",
        "What we think, we become.",
        "%",
        "No wind favors one who has no destined port.",
        "%",
    ]
    .iter()
    .map(|l| l.to_string())
    .collect()
}

#[test]
fn end_to_end_two_files_eleven_records() {
    // Discovery over one directory holding the two fortune files.
    let walks = vec![SourceWalk {
        source: "./tests/inputs".to_string(),
        error: None,
        entries: vec![
            entry("./tests/inputs", false),
            entry("./tests/inputs/quotes", true),
            entry("./tests/inputs/jokes", true),
        ],
    }];
    let files = find_files(&walks).unwrap();
    assert_eq!(files.len(), 2);
    assert_eq!(files[0], "./tests/inputs/jokes");
    assert_eq!(files[1], "./tests/inputs/quotes");

    // Parsing, in discovery order: 6 + 5 records.
    let reads: Vec<FileRead> = files
        .iter()
        .map(|f| FileRead::Lines {
            path: f.clone(),
            lines: if f.ends_with("jokes") {
                jokes_lines()
            } else {
                quotes_lines()
            },
        })
        .collect();
    let fortunes = read_fortunes(&reads).unwrap();
    assert_eq!(fortunes.len(), 11);
    assert_eq!(fortunes[0].source, "jokes");
    assert_eq!(fortunes[10].source, "quotes");

    // A pattern matching none of them: empty filter output.
    let pat = Pattern::new("no such text anywhere", false).unwrap();
    assert_eq!(filter_fortunes(&fortunes, &pat).len(), 0);

    // No pattern: exactly one of the eleven texts.
    let picked = pick_fortune(&fortunes, None).unwrap();
    assert!(fortunes.iter().any(|f| f.text == picked));
}
