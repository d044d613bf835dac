use fortuner::filter_fortunes;
use fortuner::make_config;
use fortuner::pick_fortune;
use fortuner::pick_message;
use fortuner::Args;
use fortuner::FilterItem;
use fortuner::Fortune;
use fortuner::FortuneError;
use fortuner::Pattern;

fn fortune(source: &str, text: &str) -> Fortune {
    Fortune {
        source: source.to_string(),
        text: text.to_string(),
    }
}

fn sample() -> Vec<Fortune> {
    vec![
        fortune(
            "fortunes",
            "You cannot achieve the impossible without attempting the absurd.",
        ),
        fortune("fortunes", "Assumption is the mother of all screw-ups."),
        fortune("fortunes", "Neckties strangle clear thinking."),
    ]
}

#[test]
fn test_pick_fortune() {
    let fortunes = sample();

    // A seed makes the pick reproducible.
    assert_eq!(
        pick_fortune(&fortunes, Some(1)).unwrap(),
        "Neckties strangle clear thinking.".to_string()
    );
}

#[test]
fn seeded_pick_is_deterministic() {
    let fortunes = sample();
    let a = pick_fortune(&fortunes, Some(42)).unwrap();
    let b = pick_fortune(&fortunes, Some(42)).unwrap();
    assert_eq!(a, b);
    assert!(fortunes.iter().any(|f| f.text == a));
}

#[test]
fn unseeded_pick_returns_one_of_the_texts() {
    let fortunes = sample();
    let t = pick_fortune(&fortunes, None).unwrap();
    assert!(fortunes.iter().any(|f| f.text == t));
}

#[test]
fn no_fortunes_gives_fallback_not_error() {
    let none: Vec<Fortune> = Vec::new();
    assert!(pick_fortune(&none, None).is_none());
    assert!(pick_fortune(&none, Some(7)).is_none());
    assert_eq!(pick_message(&none, None), "No fortunes found");
}

#[test]
fn filter_with_no_match_is_empty() {
    let fortunes = sample();
    let pat = Pattern::new("absolutely no such words", false).unwrap();
    assert_eq!(filter_fortunes(&fortunes, &pat).len(), 0);
}

#[test]
fn filter_headers_once_per_source_run() {
    let fortunes = vec![
        fortune("jokes", "match one"),
        fortune("jokes", "match two"),
        fortune("quotes", "match three"),
        fortune("jokes", "nothing here"),
        fortune("quotes", "match four"),
    ];
    let pat = Pattern::new("match", false).unwrap();
    let items = filter_fortunes(&fortunes, &pat);
    assert_eq!(
        items,
        vec![
            FilterItem::Header("jokes".to_string()),
            FilterItem::Body("match one".to_string()),
            FilterItem::Body("match two".to_string()),
            FilterItem::Header("quotes".to_string()),
            FilterItem::Body("match three".to_string()),
            FilterItem::Body("match four".to_string()),
        ]
    );
}

#[test]
fn case_insensitive_flag_controls_matching() {
    let fortunes = sample();
    let sensitive = Pattern::new("neckties", false).unwrap();
    assert_eq!(filter_fortunes(&fortunes, &sensitive).len(), 0);
    let insensitive = Pattern::new("neckties", true).unwrap();
    let items = filter_fortunes(&fortunes, &insensitive);
    assert_eq!(
        items,
        vec![
            FilterItem::Header("fortunes".to_string()),
            FilterItem::Body("Neckties strangle clear thinking.".to_string()),
        ]
    );
}

#[test]
fn invalid_pattern_is_rejected() {
    assert!(Pattern::new("*", false).is_none());
    let args = Args {
        sources: vec!["x".to_string()],
        pattern: Some("*".to_string()),
        insensitive: false,
        seed: None,
    };
    match make_config(args) {
        Err(FortuneError::InvalidPattern { pattern }) => assert_eq!(pattern, "*"),
        _ => panic!("expected InvalidPattern"),
    }
}

#[test]
fn valid_config_keeps_sources_and_seed() {
    let args = Args {
        sources: vec!["a".to_string(), "b".to_string()],
        pattern: Some("Neck.*".to_string()),
        insensitive: false,
        seed: Some(99),
    };
    let cfg = match make_config(args) {
        Ok(c) => c,
        Err(_) => panic!("expected a valid configuration"),
    };
    assert_eq!(cfg.sources, vec!["a".to_string(), "b".to_string()]);
    assert_eq!(cfg.seed, Some(99));
    assert!(cfg.pattern.is_some());
}
