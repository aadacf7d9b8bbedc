use badge_stats::aggregate::aggregate;
use badge_stats::aggregate::ranking_language;
use badge_stats::aggregate::select_languages;
use badge_stats::aggregate::selects;
use badge_stats::stats::FileReport;
use badge_stats::stats::LanguageEntry;
use badge_stats::stats::LanguageStat;
use badge_stats::stats::Snapshot;

fn entry(language: &str, code: u64, comments: u64, blanks: u64, files: &[&str]) -> LanguageEntry {
    let reports = files.iter().map(|f| FileReport::new(f, 1, 0, 0).unwrap()).collect();
    LanguageEntry {
        language: language.to_owned(),
        stats: LanguageStat::new(code, comments, blanks, false, reports).unwrap(),
    }
}

fn sample() -> Snapshot {
    Snapshot::new(
        vec![
            entry("Rust", 100, 20, 10, &["a.rs", "b.rs"]),
            entry("Python", 50, 5, 5, &["c.py"]),
            entry("TOML", 7, 1, 2, &["Cargo.toml"]),
        ],
        17,
    )
    .unwrap()
}

fn names(list: &[&str]) -> Vec<String> {
    list.iter().map(|s| s.to_string()).collect()
}

#[test]
fn empty_filter_sums_all_languages() {
    let total = aggregate(&sample(), &Vec::new());
    assert_eq!(total.code(), 157);
    assert_eq!(total.comments(), 26);
    assert_eq!(total.blanks(), 17);
    assert_eq!(total.lines(), 200);
    assert_eq!(total.files(), 4);
    assert!(!total.inaccurate());
}

#[test]
fn filter_sums_only_named_languages() {
    let total = aggregate(&sample(), &names(&["Rust", "TOML"]));
    assert_eq!(total.code(), 107);
    assert_eq!(total.comments(), 21);
    assert_eq!(total.blanks(), 12);
    assert_eq!(total.lines(), 140);
    assert_eq!(total.files(), 3);
}

#[test]
fn unknown_filter_names_are_ignored() {
    let total = aggregate(&sample(), &names(&["Rust", "Klingon"]));
    assert_eq!(total.code(), 100);
    let none = aggregate(&sample(), &names(&["Klingon"]));
    assert_eq!(none.lines(), 0);
    assert_eq!(none.files(), 0);
}

#[test]
fn file_reports_are_concatenated_in_snapshot_order() {
    let total = aggregate(&sample(), &names(&["TOML", "Rust"]));
    let paths: Vec<&str> = total.reports().iter().map(|r| r.path()).collect();
    assert_eq!(paths, vec!["a.rs", "b.rs", "Cargo.toml"]);
}

#[test]
fn aggregate_equals_sum_of_single_language_aggregates() {
    let snapshot = sample();
    let all = aggregate(&snapshot, &Vec::new());
    let mut code = 0;
    let mut comments = 0;
    let mut blanks = 0;
    let mut lines = 0;
    for name in ["Rust", "Python", "TOML"] {
        let one = aggregate(&snapshot, &names(&[name]));
        code += one.code();
        comments += one.comments();
        blanks += one.blanks();
        lines += one.lines();
    }
    assert_eq!(all.code(), code);
    assert_eq!(all.comments(), comments);
    assert_eq!(all.blanks(), blanks);
    assert_eq!(all.lines(), lines);
}

#[test]
fn aggregate_marks_inaccuracy_of_any_language() {
    let snapshot = Snapshot::new(
        vec![
            entry("Rust", 1, 0, 0, &[]),
            LanguageEntry {
                language: "C".to_owned(),
                stats: LanguageStat::new(2, 0, 0, true, Vec::new()).unwrap(),
            },
        ],
        0,
    )
    .unwrap();
    assert!(aggregate(&snapshot, &Vec::new()).inaccurate());
    assert!(!aggregate(&snapshot, &names(&["Rust"])).inaccurate());
}

#[test]
fn aggregate_does_not_change_the_snapshot() {
    let snapshot = sample();
    let _ = aggregate(&snapshot, &Vec::new());
    assert_eq!(snapshot.languages().len(), 3);
    assert_eq!(snapshot.languages()[0].stats.files(), 2);
    assert_eq!(snapshot.computed_at(), 17);
}

#[test]
fn selects_follows_the_filter() {
    assert!(selects(&Vec::new(), "Rust"));
    assert!(selects(&names(&["Rust"]), "Rust"));
    assert!(!selects(&names(&["Rust"]), "rust"));
    assert!(!selects(&names(&["Python"]), "Rust"));
}

#[test]
fn select_languages_keeps_order() {
    let chosen = select_languages(&sample(), &names(&["TOML", "Rust"]));
    let got: Vec<&str> = chosen.iter().map(|e| e.language.as_str()).collect();
    assert_eq!(got, vec!["Rust", "TOML"]);
    assert_eq!(select_languages(&sample(), &Vec::new()).len(), 3);
}

#[test]
fn ranking_language_cases() {
    let chosen = select_languages(&sample(), &Vec::new());
    assert_eq!(ranking_language(false, 1, &chosen), "");
    assert_eq!(ranking_language(true, 1, &chosen), "Rust");
    assert_eq!(ranking_language(true, 3, &chosen), "TOML");
    assert_eq!(ranking_language(true, 0, &chosen), "N/A");
    assert_eq!(ranking_language(true, 4, &chosen), "N/A");
    assert_eq!(ranking_language(true, 1, &Vec::new()), "No Languages");
    assert_eq!(ranking_language(true, 0, &Vec::new()), "No Languages");
}

#[test]
fn counts_that_overflow_are_refused() {
    assert!(FileReport::new("x", u64::MAX, 1, 0).is_none());
    assert!(FileReport::new("x", u64::MAX - 1, 1, 0).is_some());
    assert!(LanguageStat::new(u64::MAX, 0, 1, false, Vec::new()).is_none());
    let big = || LanguageEntry {
        language: "Big".to_owned(),
        stats: LanguageStat::new(u64::MAX, 0, 0, false, Vec::new()).unwrap(),
    };
    assert!(Snapshot::new(vec![big()], 0).is_some());
    assert!(Snapshot::new(vec![big(), entry("Rust", 1, 0, 0, &[])], 0).is_none());
}

#[test]
fn statistics_report_their_parts() {
    let report = FileReport::new("src/lib.rs", 3, 2, 1).unwrap();
    assert_eq!(report.path(), "src/lib.rs");
    assert_eq!((report.code(), report.comments(), report.blanks(), report.lines()), (3, 2, 1, 6));
    let empty = LanguageStat::empty();
    assert_eq!((empty.code(), empty.comments(), empty.blanks(), empty.lines()), (0, 0, 0, 0));
    assert_eq!(empty.files(), 0);
    let copy = report.clone();
    assert_eq!(copy.path(), "src/lib.rs");
    assert_eq!(copy.lines(), 6);
}
