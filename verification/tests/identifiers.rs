use badge_stats::key::etag_identifier;
use badge_stats::key::repo_identifier;
use badge_stats::key::ContentKey;

const SHA: &str = "0123456789abcdef0123456789abcdef01234567";

#[test]
fn repo_identifier_joins_with_hashes() {
    assert_eq!(
        repo_identifier("https://github.com/a/b", SHA, "main"),
        format!("https://github.com/a/b#{}#main", SHA)
    );
}

#[test]
fn hashes_and_backslashes_inside_parts_are_escaped() {
    assert_eq!(repo_identifier("a#b", "c", "d"), "a\\hb#c#d");
    assert_eq!(repo_identifier("a", "b#c", "d"), "a#b\\hc#d");
    assert_eq!(repo_identifier("a", "b", "c#d"), "a#b#c\\hd");
    assert_eq!(repo_identifier("a\\b", "c", "d"), "a\\\\b#c#d");
    assert_eq!(repo_identifier("a\\h", "c", "d"), "a\\\\h#c#d");
    assert_eq!(repo_identifier("", "", ""), "##");
    assert_eq!(repo_identifier("#", "\\", "#\\#"), "\\h#\\\\#\\h\\\\\\h");
}

#[test]
fn different_parts_never_share_an_identifier() {
    assert_ne!(
        repo_identifier("u", SHA, &format!("x#{}#y", SHA)),
        repo_identifier(&format!("u#{}#x", SHA), SHA, "y")
    );
    assert_ne!(repo_identifier("a#b", "c", "d"), repo_identifier("a", "b#c", "d"));
    assert_ne!(repo_identifier("a", "b#c", "d"), repo_identifier("a", "b", "c#d"));
    assert_ne!(repo_identifier("a\\hb", "c", "d"), repo_identifier("a#b", "c", "d"));
    let parts = ["", "#", "\\", "h", "\\h", "#h", "a#", "#a", "\\\\", "a"];
    let mut seen = std::collections::HashMap::new();
    for u in parts {
        for c in parts {
            for b in parts {
                let id = repo_identifier(u, c, b);
                assert_eq!(seen.insert(id, (u, c, b)), None);
            }
        }
    }
}

#[test]
fn keys_with_hashes_in_url_and_branch_are_distinct() {
    let a = ContentKey::new("u", SHA, &format!("x#{}#y", SHA)).unwrap();
    let b = ContentKey::new(&format!("u#{}#x", SHA), SHA, "y").unwrap();
    assert!(!a.same_as(&b));
    assert_ne!(a.identifier(), b.identifier());
}

#[test]
fn etag_identifier_joins_commit_and_branch() {
    assert_eq!(etag_identifier(SHA, "main"), format!("{}#main", SHA));
    assert_eq!(etag_identifier("", ""), "#");
}

#[test]
fn content_key_requires_full_commit_id() {
    assert!(ContentKey::new("u", SHA, "main").is_some());
    assert!(ContentKey::new("u", &SHA[..39], "main").is_none());
    assert!(ContentKey::new("u", &format!("{}0", SHA), "main").is_none());
    assert!(ContentKey::new("u", &SHA.replace('f', "g"), "main").is_none());
    assert!(ContentKey::new("u", &SHA.to_uppercase(), "main").is_some());
}

#[test]
fn content_key_identifier_and_etag() {
    let key = ContentKey::new("https://example.org/x/y", SHA, "dev").unwrap();
    assert_eq!(key.identifier(), format!("https://example.org/x/y#{}#dev", SHA));
    assert_eq!(key.etag(), format!("{}#dev", SHA));
    assert_eq!(key.repository_url(), "https://example.org/x/y");
    assert_eq!(key.commit_id(), SHA);
    assert_eq!(key.branch_name(), "dev");
}

#[test]
fn keys_differing_only_in_branch_are_distinct() {
    let a = ContentKey::new("u", SHA, "main").unwrap();
    let b = ContentKey::new("u", SHA, "dev").unwrap();
    assert!(!a.same_as(&b));
    assert!(a.same_as(&a.clone()));
    assert_ne!(a.identifier(), b.identifier());
    assert_ne!(a.etag(), b.etag());
}
