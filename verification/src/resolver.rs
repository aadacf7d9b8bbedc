//! Reference resolution: from the reference listing of a remote
//! repository to the content key of a branch.
//!
//! A listing is the text that the remote answers when asked for its
//! symbolic `HEAD` and its branches. Its first line announces the default
//! branch, its second line the commit of `HEAD`, and each further line
//! holds a commit id, a tab, and the full name of a branch.

use vstd::prelude::*;
use vstd::utf8::decode_utf8;
use vstd::utf8::valid_utf8;
use crate::key::{is_commit_id, is_full_commit_id_chars, ContentKey, ContentKeyModel};
use crate::text::{
    chars_of, find, find_in, lemma_find_from_is_least, occurs_at, same_chars, split, split_chars,
    string_of, strip_prefix, strip_suffix, subvec, views_of, without_prefix, without_suffix,
};

verus! {

/// Why a reference could not be resolved.
#[derive(Clone, Copy, Debug, PartialEq, Eq, Structural)]
pub enum ResolutionError {
    /// The listing is malformed, names no commit for the branch, or names
    /// one that is not a full commit id.
    InvalidReference,
    /// The listing could not be obtained from the remote.
    TransportFailure,
}

/// What came back when the remote was asked for its references.
pub enum ReferenceListing {
    /// The bytes that the remote answered.
    Received(Vec<u8>),
    /// The remote could not be asked, or did not answer.
    Failed,
}

/// What stands before the default branch on the first line of a listing.
pub open spec fn symref_prefix() -> Seq<char> {
    "ref: refs/heads/"@
}

/// What stands after the default branch on the first line of a listing.
pub open spec fn head_suffix() -> Seq<char> {
    "\tHEAD"@
}

/// What stands between the commit id and the branch on an entry line.
pub open spec fn branch_marker() -> Seq<char> {
    "\trefs/heads/"@
}

/// The default branch that the first line of a listing announces; empty
/// when the line is not of that form.
pub open spec fn announced_branch(line: Seq<char>) -> Seq<char> {
    match strip_prefix(line, symref_prefix()) {
        Some(rest) => match strip_suffix(rest, head_suffix()) {
            Some(branch) => branch,
            None => Seq::empty(),
        },
        None => Seq::empty(),
    }
}

/// The commit id of an entry line: what stands before the first branch
/// marker; empty when the line holds no marker.
pub open spec fn entry_commit(line: Seq<char>) -> Seq<char> {
    match find(line, branch_marker()) {
        Some(i) => line.take(i),
        None => Seq::empty(),
    }
}

/// The branch of an entry line: what stands after the first branch marker;
/// empty when the line holds no marker.
pub open spec fn entry_branch(line: Seq<char>) -> Seq<char> {
    match find(line, branch_marker()) {
        Some(i) => line.skip(i + branch_marker().len()),
        None => Seq::empty(),
    }
}

/// The first line at or after `from` whose entry is for `branch`.
pub open spec fn first_entry_for(lines: Seq<Seq<char>>, branch: Seq<char>, from: int) -> Option<
    int,
>
    decreases lines.len() - from,
{
    if from < 0 || from >= lines.len() {
        None
    } else if entry_branch(lines[from]) == branch {
        Some(from)
    } else {
        first_entry_for(lines, branch, from + 1)
    }
}

/// The branch to look up: the requested one, or the announced default
/// branch when none was requested.
pub open spec fn selected_branch(lines: Seq<Seq<char>>, requested: Seq<char>) -> Seq<char> {
    if requested.len() == 0 {
        announced_branch(lines[0])
    } else {
        requested
    }
}

/// The commit id and branch that a listing gives for a requested branch.
///
/// The listing must have at least two lines. The first entry for the
/// selected branch after those two decides; its commit id must be a full
/// commit id.
pub open spec fn resolved(listing: Seq<char>, requested: Seq<char>) -> Option<
    (Seq<char>, Seq<char>),
> {
    let lines = split(listing, '\n');
    if lines.len() < 2 {
        None
    } else {
        let branch = selected_branch(lines, requested);
        match first_entry_for(lines, branch, 2) {
            Some(i) => if is_commit_id(entry_commit(lines[i])) {
                Some((entry_commit(lines[i]), branch))
            } else {
                None
            },
            None => None,
        }
    }
}

/// The content key that resolving `url` with the outcome `listing` of the
/// remote call gives, or the error.
pub open spec fn resolution(url: Seq<char>, requested: Seq<char>, listing: ReferenceListing) -> Result<
    ContentKeyModel,
    ResolutionError,
> {
    match listing {
        ReferenceListing::Failed => Err(ResolutionError::TransportFailure),
        ReferenceListing::Received(bytes) => if !valid_utf8(bytes@) {
            Err(ResolutionError::InvalidReference)
        } else {
            match resolved(decode_utf8(bytes@), requested) {
                Some((commit, branch)) => Ok(
                    ContentKeyModel { repository_url: url, commit_id: commit, branch_name: branch },
                ),
                None => Err(ResolutionError::InvalidReference),
            }
        },
    }
}

/// `first_entry_for` gives the least line at or after `from` whose entry
/// is for the branch.
pub proof fn lemma_first_entry_is_least(lines: Seq<Seq<char>>, branch: Seq<char>, from: int)
    requires
        0 <= from,
    ensures
        match first_entry_for(lines, branch, from) {
            Some(i) => from <= i < lines.len() && entry_branch(lines[i]) == branch && forall|
                j: int,
            |
                from <= j < i ==> entry_branch(#[trigger] lines[j]) != branch,
            None => forall|j: int|
                from <= j < lines.len() ==> entry_branch(#[trigger] lines[j]) != branch,
        },
    decreases lines.len() - from,
{
    if from < lines.len() && entry_branch(lines[from]) != branch {
        lemma_first_entry_is_least(lines, branch, from + 1);
    }
}

/// Whatever a listing resolves to carries a full commit id: forty
/// hexadecimal digits.
pub proof fn lemma_resolved_commit_is_full(listing: Seq<char>, requested: Seq<char>)
    ensures
        resolved(listing, requested) matches Some((commit, branch)) ==> is_commit_id(commit)
            && commit.len() == 40,
{
}

/// A listing whose deciding entry carries a commit id of any length but
/// forty resolves to nothing.
pub proof fn lemma_wrong_length_is_rejected(listing: Seq<char>, requested: Seq<char>, i: int)
    requires
        split(listing, '\n').len() >= 2,
        first_entry_for(
            split(listing, '\n'),
            selected_branch(split(listing, '\n'), requested),
            2,
        ) == Some(i),
        entry_commit(split(listing, '\n')[i]).len() != 40,
    ensures
        resolved(listing, requested) is None,
{
}

/// A listing whose deciding entry carries forty hexadecimal digits
/// resolves to that commit id and the selected branch.
pub proof fn lemma_full_commit_is_accepted(listing: Seq<char>, requested: Seq<char>, i: int)
    requires
        split(listing, '\n').len() >= 2,
        first_entry_for(
            split(listing, '\n'),
            selected_branch(split(listing, '\n'), requested),
            2,
        ) == Some(i),
        is_commit_id(entry_commit(split(listing, '\n')[i])),
    ensures
        resolved(listing, requested) == Some(
            (
                entry_commit(split(listing, '\n')[i]),
                selected_branch(split(listing, '\n'), requested),
            ),
        ),
{
}

/// Decodes bytes as UTF-8 text.
///
/// Wraps `String::from_utf8`, which the standard library documents as
/// succeeding exactly on well-formed UTF-8 and then holding the text that
/// the bytes encode.
#[verifier::external_body]
fn text_of_bytes(bytes: Vec<u8>) -> (r: Option<String>)
    ensures
        r is Some <==> valid_utf8(bytes@),
        r matches Some(text) ==> text@ == decode_utf8(bytes@),
{
    String::from_utf8(bytes).ok()
}

/// The default branch that the first line of a listing announces.
fn announced_branch_of(line: &Vec<char>) -> (r: Vec<char>)
    ensures
        r@ == announced_branch(line@),
{
    let prefix = chars_of("ref: refs/heads/");
    let suffix = chars_of("\tHEAD");
    match without_prefix(line, &prefix) {
        Some(rest) => match without_suffix(&rest, &suffix) {
            Some(branch) => branch,
            None => Vec::new(),
        },
        None => Vec::new(),
    }
}

/// The commit id and the branch of an entry line.
fn entry_of(line: &Vec<char>, marker: &Vec<char>) -> (r: (Vec<char>, Vec<char>))
    requires
        marker@ == branch_marker(),
    ensures
        r.0@ == entry_commit(line@),
        r.1@ == entry_branch(line@),
{
    match find_in(line, marker, 0) {
        Some(i) => {
            proof {
                lemma_find_from_is_least(line@, marker@, 0);
                assert(occurs_at(line@, marker@, i as int));
            }
            let commit = subvec(line, 0, i);
            let branch = subvec(line, i + marker.len(), line.len());
            assert(commit@ =~= line@.take(i as int));
            assert(branch@ =~= line@.skip(i + marker@.len()));
            (commit, branch)
        },
        None => (Vec::new(), Vec::new()),
    }
}

/// Picks, from the text of a reference listing, the commit id of the
/// requested branch, or of the default branch when `requested_branch` is
/// empty. Returns the commit id and the branch.
pub fn select_reference(listing: &str, requested_branch: &str) -> (r: Result<
    (String, String),
    ResolutionError,
>)
    ensures
        match r {
            Ok((commit, branch)) => resolved(listing@, requested_branch@) == Some(
                (commit@, branch@),
            ),
            Err(e) => e == ResolutionError::InvalidReference && resolved(
                listing@,
                requested_branch@,
            ) is None,
        },
{
    let text = chars_of(listing);
    let lines = split_chars(&text, '\n');
    if lines.len() < 2 {
        return Err(ResolutionError::InvalidReference);
    }
    let ghost all = split(listing@, '\n');
    assert(all[0] == lines@[0]@);
    let branch = if requested_branch.is_empty() {
        announced_branch_of(&lines[0])
    } else {
        chars_of(requested_branch)
    };
    assert(branch@ == selected_branch(all, requested_branch@));
    let marker = chars_of("\trefs/heads/");
    let mut i: usize = 2;
    while i < lines.len()
        invariant
            2 <= i <= lines.len(),
            views_of(lines@) == all,
            all == split(listing@, '\n'),
            branch@ == selected_branch(all, requested_branch@),
            marker@ == branch_marker(),
            first_entry_for(all, branch@, 2) == first_entry_for(all, branch@, i as int),
        decreases lines.len() - i,
    {
        assert(all[i as int] == lines@[i as int]@);
        let (commit, entry_branch) = entry_of(&lines[i], &marker);
        if same_chars(&entry_branch, &branch) {
            if is_full_commit_id_chars(&commit) {
                return Ok((string_of(&commit), string_of(&branch)));
            } else {
                return Err(ResolutionError::InvalidReference);
            }
        }
        i += 1;
    }
    Err(ResolutionError::InvalidReference)
}

/// Resolves a repository URL and a requested branch to a content key,
/// given what the remote answered when asked for its references.
///
/// An empty `requested_branch` selects the default branch of the remote.
pub fn resolve(url: &str, requested_branch: &str, listing: ReferenceListing) -> (r: Result<
    ContentKey,
    ResolutionError,
>)
    ensures
        match r {
            Ok(key) => resolution(url@, requested_branch@, listing) == Ok::<
                ContentKeyModel,
                ResolutionError,
            >(key@),
            Err(e) => resolution(url@, requested_branch@, listing) == Err::<
                ContentKeyModel,
                ResolutionError,
            >(e),
        },
{
    match listing {
        ReferenceListing::Failed => Err(ResolutionError::TransportFailure),
        ReferenceListing::Received(bytes) => match text_of_bytes(bytes) {
            None => Err(ResolutionError::InvalidReference),
            Some(text) => match select_reference(text.as_str(), requested_branch) {
                Err(e) => Err(e),
                Ok((commit, branch)) => match ContentKey::new(
                    url,
                    commit.as_str(),
                    branch.as_str(),
                ) {
                    Some(key) => Ok(key),
                    None => Err(ResolutionError::InvalidReference),
                },
            },
        },
    }
}

} // verus!
