use badge_stats::resolver::resolve;
use badge_stats::resolver::select_reference;
use badge_stats::resolver::ReferenceListing;
use badge_stats::resolver::ResolutionError;

const MAIN: &str = "1111111111111111111111111111111111111111";
const DEV: &str = "abcdefABCDEF0123456789abcdefABCDEF012345";

fn listing() -> String {
    format!(
        "ref: refs/heads/main\tHEAD\n{m}\tHEAD\n{d}\trefs/heads/dev\n{m}\trefs/heads/main\n",
        m = MAIN,
        d = DEV
    )
}

#[test]
fn default_branch_is_the_symbolic_head() {
    let (commit, branch) = select_reference(&listing(), "").unwrap();
    assert_eq!(commit, MAIN);
    assert_eq!(branch, "main");
}

#[test]
fn requested_branch_is_looked_up() {
    let (commit, branch) = select_reference(&listing(), "dev").unwrap();
    assert_eq!(commit, DEV);
    assert_eq!(branch, "dev");
}

#[test]
fn unknown_branch_is_invalid() {
    assert_eq!(select_reference(&listing(), "nope"), Err(ResolutionError::InvalidReference));
}

#[test]
fn empty_listing_is_invalid() {
    assert_eq!(select_reference("", ""), Err(ResolutionError::InvalidReference));
    assert_eq!(select_reference("", "main"), Err(ResolutionError::InvalidReference));
}

#[test]
fn single_line_listing_is_invalid() {
    let one = format!("{}\trefs/heads/main", MAIN);
    assert_eq!(select_reference(&one, "main"), Err(ResolutionError::InvalidReference));
}

#[test]
fn first_two_lines_are_never_entries() {
    let text = format!("{m}\trefs/heads/main\n{m}\trefs/heads/main\n", m = MAIN);
    assert_eq!(select_reference(&text, "main"), Err(ResolutionError::InvalidReference));
    let text = format!("x\ny\n{m}\trefs/heads/main", m = MAIN);
    assert_eq!(select_reference(&text, "main"), Ok((MAIN.to_owned(), "main".to_owned())));
}

#[test]
fn commit_id_of_39_characters_is_rejected() {
    let text = format!("ref: refs/heads/main\tHEAD\nx\tHEAD\n{}\trefs/heads/main\n", &MAIN[..39]);
    assert_eq!(select_reference(&text, ""), Err(ResolutionError::InvalidReference));
}

#[test]
fn commit_id_of_41_characters_is_rejected() {
    let text = format!("ref: refs/heads/main\tHEAD\nx\tHEAD\n{}1\trefs/heads/main\n", MAIN);
    assert_eq!(select_reference(&text, ""), Err(ResolutionError::InvalidReference));
}

#[test]
fn commit_id_of_40_hex_characters_is_accepted() {
    let text = format!("ref: refs/heads/main\tHEAD\nx\tHEAD\n{}\trefs/heads/main\n", DEV);
    assert_eq!(select_reference(&text, ""), Ok((DEV.to_owned(), "main".to_owned())));
}

#[test]
fn commit_id_that_is_not_hexadecimal_is_rejected() {
    let bad = "g111111111111111111111111111111111111111";
    assert_eq!(bad.len(), 40);
    let text = format!("ref: refs/heads/main\tHEAD\nx\tHEAD\n{}\trefs/heads/main\n", bad);
    assert_eq!(select_reference(&text, ""), Err(ResolutionError::InvalidReference));
}

#[test]
fn first_entry_for_the_branch_decides() {
    let text = format!(
        "ref: refs/heads/main\tHEAD\nx\tHEAD\nshort\trefs/heads/main\n{}\trefs/heads/main\n",
        MAIN
    );
    assert_eq!(select_reference(&text, "main"), Err(ResolutionError::InvalidReference));
}

#[test]
fn branch_names_with_slashes_are_kept_whole() {
    let text = format!("ref: refs/heads/a/b\tHEAD\nx\tHEAD\n{}\trefs/heads/a/b\n", MAIN);
    assert_eq!(select_reference(&text, ""), Ok((MAIN.to_owned(), "a/b".to_owned())));
    assert_eq!(select_reference(&text, "a"), Err(ResolutionError::InvalidReference));
}

#[test]
fn missing_symbolic_head_gives_no_default_branch() {
    let text = format!("{m}\tHEAD\n{m}\tHEAD\n{m}\trefs/heads/main\n", m = MAIN);
    assert_eq!(select_reference(&text, ""), Err(ResolutionError::InvalidReference));
    assert_eq!(select_reference(&text, "main"), Ok((MAIN.to_owned(), "main".to_owned())));
}

#[test]
fn resolve_builds_the_content_key() {
    let key = resolve(
        "https://github.com/a/b",
        "",
        ReferenceListing::Received(listing().into_bytes()),
    )
    .unwrap();
    assert_eq!(key.repository_url(), "https://github.com/a/b");
    assert_eq!(key.commit_id(), MAIN);
    assert_eq!(key.branch_name(), "main");
    assert_eq!(key.etag(), format!("{}#main", MAIN));
}

#[test]
fn resolve_reports_transport_failure() {
    let r = resolve("https://github.com/a/b", "", ReferenceListing::Failed);
    assert_eq!(r.err(), Some(ResolutionError::TransportFailure));
}

#[test]
fn resolve_rejects_bytes_that_are_not_text() {
    let mut bytes = listing().into_bytes();
    bytes.push(0xff);
    let r = resolve("https://github.com/a/b", "", ReferenceListing::Received(bytes));
    assert_eq!(r.err(), Some(ResolutionError::InvalidReference));
}

#[test]
fn resolve_decodes_text_beyond_ascii() {
    let text = format!("ref: refs/heads/é\tHEAD\nx\tHEAD\n{}\trefs/heads/é\n", MAIN);
    let key = resolve("u", "", ReferenceListing::Received(text.into_bytes())).unwrap();
    assert_eq!(key.branch_name(), "é");
}
