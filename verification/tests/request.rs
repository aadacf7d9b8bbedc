use badge_stats::badge::BadgeBody;
use badge_stats::key::ContentKey;
use badge_stats::request::badge_options;
use badge_stats::request::badge_reply;
use badge_stats::cache::Admission;
use badge_stats::cache::StatsCache;
use badge_stats::request::create_badge;
use badge_stats::request::proceed;
use badge_stats::request::Proceeding;
use badge_stats::request::Admitted;
use badge_stats::request::holds_char;
use badge_stats::request::is_entity_tag;
use badge_stats::request::known_names;
use badge_stats::request::language_filter;
use badge_stats::request::not_modified;
use badge_stats::request::rank_of;
use badge_stats::request::repository_url;
use badge_stats::request::repository_url_from;
use badge_stats::request::BadgeQuery;
use badge_stats::request::IfNoneMatch;
use badge_stats::request::RequestError;
use badge_stats::resolver::ReferenceListing;
use badge_stats::resolver::ResolutionError;
use badge_stats::stats::FileReport;
use badge_stats::stats::LanguageEntry;
use badge_stats::stats::LanguageStat;
use badge_stats::stats::Snapshot;

const SHA: &str = "0123456789abcdef0123456789abcdef01234567";

fn empty_query() -> BadgeQuery {
    BadgeQuery {
        category: None,
        label: None,
        style: None,
        color: None,
        logo: None,
        language_types: None,
        show_language: None,
        language_rank: None,
        branch: None,
    }
}

fn some(text: &str) -> Option<String> {
    Some(text.to_owned())
}

fn entry(language: &str, code: u64, files: usize) -> LanguageEntry {
    let reports = (0..files).map(|i| FileReport::new(&format!("f{}", i), 1, 0, 0).unwrap()).collect();
    LanguageEntry {
        language: language.to_owned(),
        stats: LanguageStat::new(code, 10, 5, false, reports).unwrap(),
    }
}

fn snapshot() -> Snapshot {
    Snapshot::new(vec![entry("Rust", 2000, 2), entry("Python", 500, 1), entry("C++", 100, 1)], 0)
        .unwrap()
}

#[test]
fn options_have_defaults() {
    let o = badge_options(empty_query());
    assert_eq!(o.category, "lines");
    assert_eq!(o.label, "");
    assert!(o.no_label);
    assert_eq!(o.style, "plastic");
    assert_eq!(o.color, "#007ec6");
    assert_eq!(o.logo, "");
    assert_eq!(o.language_types, "");
    assert!(!o.show_language);
    assert_eq!(o.language_rank, 1);
    assert_eq!(o.branch, "");
}

#[test]
fn options_keep_what_is_given() {
    let o = badge_options(BadgeQuery {
        category: some("code"),
        label: some(""),
        style: some("flat"),
        color: some("red"),
        logo: some("l.svg"),
        language_types: some("rust,python"),
        show_language: some("true"),
        language_rank: some("3"),
        branch: some("dev"),
    });
    assert_eq!(o.category, "code");
    assert_eq!(o.label, "");
    assert!(!o.no_label);
    assert_eq!(o.style, "flat");
    assert_eq!(o.color, "red");
    assert_eq!(o.logo, "l.svg");
    assert_eq!(o.language_types, "rust,python");
    assert!(o.show_language);
    assert_eq!(o.language_rank, 3);
    assert_eq!(o.branch, "dev");
}

#[test]
fn show_language_is_on_only_for_true() {
    for (text, on) in [("true", true), ("false", false), ("True", false), ("1", false), ("", false)] {
        let mut q = empty_query();
        q.show_language = some(text);
        assert_eq!(badge_options(q).show_language, on);
    }
}

#[test]
fn rank_reads_decimal_numbers() {
    assert_eq!(rank_of("1"), 1);
    assert_eq!(rank_of("42"), 42);
    assert_eq!(rank_of("+7"), 7);
    assert_eq!(rank_of("007"), 7);
    assert_eq!(rank_of("0"), 0);
    assert_eq!(rank_of(&usize::MAX.to_string()), usize::MAX);
}

#[test]
fn rank_is_zero_for_anything_else() {
    for text in ["", "+", "-1", "1.5", " 1", "1 ", "one", "++1", "1+", "٣", "99999999999999999999999"] {
        assert_eq!(rank_of(text), 0);
        assert_eq!(rank_of(text), text.parse::<usize>().unwrap_or(0));
    }
    let mut q = empty_query();
    q.language_rank = some("x");
    assert_eq!(badge_options(q).language_rank, 0);
}

#[test]
fn domain_without_dot_gets_com() {
    assert_eq!(repository_url("github", "u", "r"), Ok("https://github.com/u/r".to_owned()));
    assert_eq!(repository_url("gitlab.com", "u", "r"), Ok("https://gitlab.com/u/r".to_owned()));
    assert_eq!(repository_url("", "u", "r"), Ok("https://.com/u/r".to_owned()));
}

#[test]
fn domain_escapes_are_resolved() {
    assert_eq!(
        repository_url("git%2Eexample%2eorg", "u", "r"),
        Ok("https://git.example.org/u/r".to_owned())
    );
    assert_eq!(repository_url("a%20b", "u", "r"), Ok("https://a b.com/u/r".to_owned()));
    assert_eq!(repository_url("100%", "u", "r"), Ok("https://100%.com/u/r".to_owned()));
    assert_eq!(repository_url("%C3%A9", "u", "r"), Ok("https://é.com/u/r".to_owned()));
}

#[test]
fn percent_signs_without_two_digits_stay() {
    assert_eq!(repository_url("a%2", "u", "r"), Ok("https://a%2.com/u/r".to_owned()));
    assert_eq!(repository_url("a%zz", "u", "r"), Ok("https://a%zz.com/u/r".to_owned()));
    assert_eq!(repository_url("a%4g", "u", "r"), Ok("https://a%4g.com/u/r".to_owned()));
    assert_eq!(repository_url("%%41", "u", "r"), Ok("https://%A.com/u/r".to_owned()));
    assert_eq!(repository_url("%41%4a%4A", "u", "r"), Ok("https://AJJ.com/u/r".to_owned()));
    assert_eq!(repository_url("%252E", "u", "r"), Ok("https://%2E.com/u/r".to_owned()));
}

#[test]
fn domain_that_is_not_text_is_refused() {
    assert_eq!(repository_url("%ff", "u", "r"), Err(RequestError::InvalidDomain));
    assert_eq!(repository_url_from(None, "u", "r"), Err(RequestError::InvalidDomain));
    assert_eq!(
        repository_url_from(some("host"), "u", "r"),
        Ok("https://host.com/u/r".to_owned())
    );
}

#[test]
fn holds_char_finds_characters() {
    assert!(holds_char("a.b", '.'));
    assert!(!holds_char("ab", '.'));
    assert!(!holds_char("", '.'));
}

#[test]
fn language_filter_reads_names_in_any_case() {
    assert_eq!(language_filter("rust"), vec!["Rust"]);
    assert_eq!(language_filter("RUST,python"), vec!["Rust", "Python"]);
    assert_eq!(language_filter("c++"), vec!["C++"]);
    assert_eq!(language_filter("bash"), vec!["BASH"]);
}

#[test]
fn language_filter_passes_over_unknown_tokens() {
    assert_eq!(language_filter(""), Vec::<String>::new());
    assert_eq!(language_filter("klingon"), Vec::<String>::new());
    assert_eq!(language_filter("klingon,rust,,"), vec!["Rust"]);
    assert_eq!(language_filter(" rust"), Vec::<String>::new());
    assert_eq!(language_filter("rust,rust"), vec!["Rust", "Rust"]);
}

#[test]
fn known_names_keeps_order() {
    assert_eq!(known_names(vec![some("a"), None, some("b"), None]), vec!["a", "b"]);
    assert_eq!(known_names(vec![None]), Vec::<String>::new());
    assert_eq!(known_names(Vec::new()), Vec::<String>::new());
}

#[test]
fn conditional_request_matches_the_current_tag() {
    let key = ContentKey::new("u", SHA, "main").unwrap();
    let current = format!("{}#main", SHA);
    assert!(not_modified(&IfNoneMatch::Tags(vec![current.clone()]), &key));
    assert!(not_modified(&IfNoneMatch::Tags(vec!["x".to_owned(), current.clone()]), &key));
    assert!(!not_modified(&IfNoneMatch::Tags(vec![format!("{}#dev", SHA)]), &key));
    assert!(!not_modified(&IfNoneMatch::Tags(Vec::new()), &key));
    assert!(!not_modified(&IfNoneMatch::Any, &key));
}

#[test]
fn entity_tags_hold_no_quotes_or_spaces() {
    assert!(is_entity_tag(&format!("{}#main", SHA)));
    assert!(is_entity_tag(""));
    assert!(is_entity_tag("é!~"));
    assert!(!is_entity_tag("a b"));
    assert!(!is_entity_tag("a\"b"));
    assert!(!is_entity_tag("a\tb"));
    assert!(!is_entity_tag("a\u{7f}"));
}

#[test]
fn badge_for_all_languages() {
    let reply = badge_reply(&badge_options(empty_query()), &snapshot(), false);
    assert_eq!(reply.stats.code(), 2600);
    assert_eq!(reply.stats.lines(), 2645);
    match reply.body {
        BadgeBody::Image(badge) => {
            assert_eq!(badge.label_text, "total lines");
            assert_eq!(badge.message_text, "2.6K");
            assert_eq!(badge.message_color, "#007ec6");
        }
        BadgeBody::Json => panic!("an image was expected"),
    }
}

#[test]
fn badge_for_chosen_languages() {
    let mut q = empty_query();
    q.language_types = some("python,c++,klingon");
    q.category = some("files");
    q.label = some("n");
    let reply = badge_reply(&badge_options(q), &snapshot(), false);
    assert_eq!(reply.stats.code(), 600);
    match reply.body {
        BadgeBody::Image(badge) => {
            assert_eq!(badge.label_text, "n");
            assert_eq!(badge.message_text, "2");
        }
        BadgeBody::Json => panic!("an image was expected"),
    }
}

#[test]
fn badge_that_shows_a_language() {
    let mut q = empty_query();
    q.show_language = some("true");
    q.language_rank = some("2");
    let reply = badge_reply(&badge_options(q), &snapshot(), false);
    match reply.body {
        BadgeBody::Image(badge) => assert_eq!(badge.message_text, "Python"),
        BadgeBody::Json => panic!("an image was expected"),
    }
    let mut q = empty_query();
    q.show_language = some("true");
    q.language_rank = some("9");
    match badge_reply(&badge_options(q), &snapshot(), false).body {
        BadgeBody::Image(badge) => assert_eq!(badge.message_text, "N/A"),
        BadgeBody::Json => panic!("an image was expected"),
    }
    let mut q = empty_query();
    q.show_language = some("true");
    let none = Snapshot::new(Vec::new(), 0).unwrap();
    match badge_reply(&badge_options(q), &none, false).body {
        BadgeBody::Image(badge) => assert_eq!(badge.message_text, "No Languages"),
        BadgeBody::Json => panic!("an image was expected"),
    }
}

#[test]
fn statistics_as_json_carry_the_aggregate() {
    let mut q = empty_query();
    q.language_types = some("rust");
    let reply = badge_reply(&badge_options(q), &snapshot(), true);
    assert!(matches!(reply.body, BadgeBody::Json));
    assert_eq!(reply.stats.code(), 2000);
    assert_eq!(reply.stats.files(), 2);
}

fn listing_of(commit: &str) -> ReferenceListing {
    ReferenceListing::Received(
        format!("ref: refs/heads/main\tHEAD\n{c}\tHEAD\n{c}\trefs/heads/main\n", c = commit)
            .into_bytes(),
    )
}

fn tags(list: &[String]) -> IfNoneMatch {
    IfNoneMatch::Tags(list.to_vec())
}

fn wanted(step: Admitted) -> ContentKey {
    match step {
        Admitted::Wanted(key) => key,
        _ => panic!("the statistics are wanted"),
    }
}

fn held(step: Admitted) -> ContentKey {
    match step {
        Admitted::NotModified(key) => key,
        _ => panic!("the client holds the content"),
    }
}

fn refused(step: Admitted) -> ResolutionError {
    match step {
        Admitted::Refused(e) => e,
        _ => panic!("the request is refused"),
    }
}

#[test]
fn request_with_commit_id_of_39_characters_is_refused() {
    let step = create_badge("u", "", listing_of(&"a".repeat(39)), None);
    assert_eq!(refused(step), ResolutionError::InvalidReference);
}

#[test]
fn request_with_commit_id_of_41_characters_is_refused() {
    let step = create_badge("u", "", listing_of(&"a".repeat(41)), None);
    assert_eq!(refused(step), ResolutionError::InvalidReference);
    let matching = tags(&[format!("{}#main", "a".repeat(40))]);
    let step = create_badge("u", "", listing_of(&"a".repeat(41)), Some(&matching));
    assert_eq!(refused(step), ResolutionError::InvalidReference);
}

#[test]
fn request_with_commit_id_that_is_not_hexadecimal_is_refused() {
    let step = create_badge("u", "", listing_of(&"z".repeat(40)), None);
    assert_eq!(refused(step), ResolutionError::InvalidReference);
}

#[test]
fn request_with_full_commit_id_is_admitted() {
    let commit = "a".repeat(40);
    let key = wanted(create_badge("https://h/u/r", "", listing_of(&commit), None));
    assert_eq!(key.repository_url(), "https://h/u/r");
    assert_eq!(key.commit_id(), commit);
    assert_eq!(key.branch_name(), "main");
}

#[test]
fn matching_tag_is_answered_not_modified() {
    let commit = "a".repeat(40);
    let matching = tags(&[format!("{}#main", commit)]);
    let key = held(create_badge("u", "", listing_of(&commit), Some(&matching)));
    assert_eq!(key.commit_id(), commit);
    assert_eq!(key.branch_name(), "main");
}

#[test]
fn not_modified_exactly_when_a_tag_matches() {
    let commit = "a".repeat(40);
    let other = tags(&[format!("{}#dev", commit), format!("{}#main", "b".repeat(40))]);
    wanted(create_badge("u", "", listing_of(&commit), Some(&other)));
    wanted(create_badge("u", "", listing_of(&commit), Some(&tags(&[]))));
    wanted(create_badge("u", "", listing_of(&commit), Some(&IfNoneMatch::Any)));
    wanted(create_badge("u", "", listing_of(&commit), None));
    let among = tags(&["x".to_owned(), format!("{}#main", commit), "y".to_owned()]);
    held(create_badge("u", "", listing_of(&commit), Some(&among)));
}

#[test]
fn entry_with_exactly_the_branch_decides() {
    let a = "a".repeat(40);
    let b = "b".repeat(40);
    let text = format!(
        "ref: refs/heads/main\tHEAD\n{a}\tHEAD\n{b}\trefs/heads/main-old\n{a}\trefs/heads/main\n",
        a = a,
        b = b
    );
    let matching = tags(&[format!("{}#main", a)]);
    let key = held(create_badge(
        "u",
        "",
        ReferenceListing::Received(text.clone().into_bytes()),
        Some(&matching),
    ));
    assert_eq!(key.commit_id(), a);
    let wrong = tags(&[format!("{}#main", b)]);
    wanted(create_badge("u", "", ReferenceListing::Received(text.into_bytes()), Some(&wrong)));
}

#[test]
fn requested_branch_overrides_the_default() {
    let a = "a".repeat(40);
    let b = "b".repeat(40);
    let text = format!(
        "ref: refs/heads/main\tHEAD\n{a}\tHEAD\n{a}\trefs/heads/main\n{b}\trefs/heads/dev\n",
        a = a,
        b = b
    );
    let matching = tags(&[format!("{}#dev", b)]);
    let key = held(create_badge(
        "u",
        "dev",
        ReferenceListing::Received(text.into_bytes()),
        Some(&matching),
    ));
    assert_eq!((key.commit_id(), key.branch_name()), (b.as_str(), "dev"));
}

#[test]
fn answers_that_do_not_resolve_are_refused() {
    let commit = "a".repeat(40);
    let matching = tags(&[format!("{}#main", commit)]);
    let mut not_text = format!("ref: refs/heads/main\tHEAD\nx\tHEAD\n{}\trefs/heads/main\n", commit)
        .into_bytes();
    not_text.push(0xff);
    let one_line = format!("{}\trefs/heads/main", commit).into_bytes();
    let no_entry = format!("ref: refs/heads/main\tHEAD\n{c}\tHEAD\n{c}\trefs/heads/dev\n", c = commit)
        .into_bytes();
    for bytes in [not_text, Vec::new(), one_line, no_entry] {
        let step = create_badge("u", "", ReferenceListing::Received(bytes), Some(&matching));
        assert_eq!(refused(step), ResolutionError::InvalidReference);
    }
}

#[test]
fn remote_that_does_not_answer_is_a_transport_failure() {
    let step = create_badge("u", "", ReferenceListing::Failed, None);
    assert_eq!(refused(step), ResolutionError::TransportFailure);
}

#[test]
fn refused_request_leaves_the_cache_alone() {
    let mut cache = StatsCache::new(10, 100).unwrap();
    let step = create_badge("u", "", listing_of(&"a".repeat(39)), None);
    assert!(matches!(
        proceed(&mut cache, step, 0),
        Proceeding::Refuse(ResolutionError::InvalidReference)
    ));
    let step = create_badge("u", "", ReferenceListing::Failed, None);
    assert!(matches!(
        proceed(&mut cache, step, 0),
        Proceeding::Refuse(ResolutionError::TransportFailure)
    ));
    assert_eq!(cache.len(), 0);
    let key = ContentKey::new("u", &"a".repeat(40), "main").unwrap();
    assert!(!cache.is_pending(&key));
}

#[test]
fn not_modified_request_computes_and_adds_nothing() {
    let mut cache = StatsCache::new(10, 100).unwrap();
    let commit = "a".repeat(40);
    let matching = tags(&[format!("{}#main", commit)]);
    let step = create_badge("u", "", listing_of(&commit), Some(&matching));
    match proceed(&mut cache, step, 0) {
        Proceeding::NotModified(key) => {
            assert_eq!(key.commit_id(), commit);
            assert!(!cache.is_pending(&key));
        }
        _ => panic!("the client holds the content"),
    }
    assert_eq!(cache.len(), 0);
}

#[test]
fn not_modified_request_marks_the_entry_as_used() {
    let mut cache = StatsCache::new(2, 100).unwrap();
    let commit = "a".repeat(40);
    let first = ContentKey::new("u", &commit, "main").unwrap();
    let second = ContentKey::new("v", &commit, "main").unwrap();
    let third = ContentKey::new("w", &commit, "main").unwrap();
    cache.get_or_compute(&first, 0, || Ok(snapshot())).unwrap();
    cache.get_or_compute(&second, 0, || Ok(snapshot())).unwrap();
    let matching = tags(&[format!("{}#main", commit)]);
    let step = create_badge("u", "", listing_of(&commit), Some(&matching));
    assert!(matches!(proceed(&mut cache, step, 1), Proceeding::NotModified(_)));
    assert_eq!(cache.len(), 2);
    cache.get_or_compute(&third, 2, || Ok(snapshot())).unwrap();
    assert!(cache.lookup(&first, 3).is_some());
    assert!(cache.lookup(&second, 3).is_none());
}

#[test]
fn wanted_request_asks_the_cache() {
    let mut cache = StatsCache::new(10, 100).unwrap();
    let commit = "a".repeat(40);
    let step = create_badge("u", "", listing_of(&commit), None);
    let ticket = match proceed(&mut cache, step, 0) {
        Proceeding::Answer(key, Admission::Lead(ticket)) => {
            assert!(cache.is_pending(&key));
            ticket
        }
        _ => panic!("the caller is told to compute"),
    };
    let step = create_badge("u", "", listing_of(&commit), None);
    assert!(matches!(
        proceed(&mut cache, step, 0),
        Proceeding::Answer(_, Admission::Wait(t)) if t == ticket
    ));
    cache.finish(ticket, Ok(snapshot()), 1).unwrap();
    let step = create_badge("u", "", listing_of(&commit), None);
    assert!(matches!(proceed(&mut cache, step, 2), Proceeding::Answer(_, Admission::Hit(_))));
}
