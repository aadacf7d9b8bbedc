//! Content keys: the immutable identity of one snapshot of a repository,
//! and the identifier strings derived from it.
//!
//! The identifier of a key is its three parts joined by `#`. So that the
//! parts can always be told apart again, a `#` inside a part is written
//! `\h` and a `\` is written `\\`: different keys have different
//! identifiers, whatever their parts hold.

use vstd::prelude::*;
use vstd::string::StringExecFns;
use crate::text::{chars_of, push_char};

verus! {

/// Number of characters in a full commit id.
pub const HASH_LENGTH: usize = 40;

/// Whether `c` is a hexadecimal digit, in either case.
pub open spec fn is_hex_digit(c: char) -> bool {
    ('0' <= c && c <= '9') || ('a' <= c && c <= 'f') || ('A' <= c && c <= 'F')
}

/// Whether `s` is a full commit id: exactly forty hexadecimal digits.
pub open spec fn is_commit_id(s: Seq<char>) -> bool {
    s.len() == HASH_LENGTH && forall|i: int| 0 <= i < s.len() ==> is_hex_digit(#[trigger] s[i])
}

/// How a character is written inside a part of an identifier: `#` as
/// `\h`, `\` as `\\`, any other as itself.
pub open spec fn escaped_char(c: char) -> Seq<char> {
    if c == '#' {
        seq!['\\', 'h']
    } else if c == '\\' {
        seq!['\\', '\\']
    } else {
        seq![c]
    }
}

/// How a text is written as a part of an identifier: character by
/// character. What is written holds no `#`.
pub open spec fn escaped(s: Seq<char>) -> Seq<char>
    decreases s.len(),
{
    if s.len() == 0 {
        Seq::empty()
    } else {
        escaped_char(s[0]) + escaped(s.drop_first())
    }
}

/// The cache identifier of a repository at a commit on a branch: the three
/// parts, each written as `escaped` writes it, joined by `#`.
pub open spec fn identifier_of(url: Seq<char>, commit: Seq<char>, branch: Seq<char>) -> Seq<char> {
    escaped(url) + seq!['#'] + escaped(commit) + seq!['#'] + escaped(branch)
}

/// The entity tag of a commit on a branch: the two parts joined by `#`.
pub open spec fn etag_of(commit: Seq<char>, branch: Seq<char>) -> Seq<char> {
    commit + seq!['#'] + branch
}

/// Whether `c` is a hexadecimal digit, in either case.
pub fn hex_digit(c: char) -> (r: bool)
    ensures
        r == is_hex_digit(c),
{
    ('0' <= c && c <= '9') || ('a' <= c && c <= 'f') || ('A' <= c && c <= 'F')
}

/// Whether the characters of `v` form a full commit id.
pub fn is_full_commit_id_chars(v: &Vec<char>) -> (r: bool)
    ensures
        r == is_commit_id(v@),
{
    if v.len() != HASH_LENGTH {
        return false;
    }
    let mut i: usize = 0;
    while i < v.len()
        invariant
            i <= v.len(),
            v.len() == HASH_LENGTH,
            forall|j: int| 0 <= j < i ==> is_hex_digit(#[trigger] v@[j]),
        decreases v.len() - i,
    {
        if !hex_digit(v[i]) {
            return false;
        }
        i += 1;
    }
    true
}

/// Whether `s` is a full commit id.
pub fn is_full_commit_id(s: &str) -> (r: bool)
    ensures
        r == is_commit_id(s@),
{
    let v = chars_of(s);
    is_full_commit_id_chars(&v)
}

/// Appends `part` to `text` as a part of an identifier.
pub fn push_escaped(text: &mut String, part: &str)
    ensures
        final(text)@ == old(text)@ + escaped(part@),
{
    let chars = chars_of(part);
    let mut i: usize = 0;
    assert(chars@.take(0) =~= Seq::<char>::empty());
    assert(text@ =~= old(text)@ + escaped(chars@.take(0)));
    while i < chars.len()
        invariant
            i <= chars.len(),
            chars@ == part@,
            text@ == old(text)@ + escaped(chars@.take(i as int)),
        decreases chars.len() - i,
    {
        let c = chars[i];
        let ghost before = text@;
        proof {
            assert(chars@.take(i + 1) =~= chars@.take(i as int) + seq![c]);
            lemma_escaped_concat(chars@.take(i as int), seq![c]);
            assert(seq![c].drop_first().len() == 0);
            assert(escaped(seq![c].drop_first()) =~= Seq::<char>::empty());
            assert(escaped(seq![c]) =~= escaped_char(c));
        }
        if c == '#' {
            push_char(text, '\\');
            push_char(text, 'h');
        } else if c == '\\' {
            push_char(text, '\\');
            push_char(text, '\\');
        } else {
            push_char(text, c);
        }
        assert(text@ =~= before + escaped_char(c));
        assert(text@ =~= old(text)@ + escaped(chars@.take(i + 1)));
        i += 1;
    }
    assert(chars@.take(chars@.len() as int) =~= chars@);
}

/// The identifier under which the statistics of `url` at commit `sha` on
/// branch `branch_name` are cached. No other three parts have the same
/// identifier.
pub fn repo_identifier(url: &str, sha: &str, branch_name: &str) -> (id: String)
    ensures
        id@ == identifier_of(url@, sha@, branch_name@),
        forall|u: Seq<char>, s: Seq<char>, b: Seq<char>|
            id@ == #[trigger] identifier_of(u, s, b) ==> u == url@ && s == sha@ && b
                == branch_name@,
{
    let mut id = String::new();
    push_escaped(&mut id, url);
    push_char(&mut id, '#');
    push_escaped(&mut id, sha);
    push_char(&mut id, '#');
    push_escaped(&mut id, branch_name);
    proof {
        assert(id@ =~= identifier_of(url@, sha@, branch_name@));
        assert forall|u: Seq<char>, s: Seq<char>, b: Seq<char>|
            id@ == #[trigger] identifier_of(u, s, b) implies u == url@ && s == sha@ && b
            == branch_name@ by {
            lemma_identifier_injective(url@, sha@, branch_name@, u, s, b);
        }
    }
    id
}

/// The entity tag that names commit `sha` on branch `branch_name`.
pub fn etag_identifier(sha: &str, branch_name: &str) -> (tag: String)
    ensures
        tag@ == etag_of(sha@, branch_name@),
{
    let mut tag = sha.to_owned();
    push_char(&mut tag, '#');
    tag.append(branch_name);
    tag
}

/// What a content key holds.
pub struct ContentKeyModel {
    pub repository_url: Seq<char>,
    pub commit_id: Seq<char>,
    pub branch_name: Seq<char>,
}

impl ContentKeyModel {
    /// The cache identifier of the key.
    pub open spec fn identifier(self) -> Seq<char> {
        identifier_of(self.repository_url, self.commit_id, self.branch_name)
    }

    /// The entity tag of the key.
    pub open spec fn etag(self) -> Seq<char> {
        etag_of(self.commit_id, self.branch_name)
    }
}

/// The identity of one snapshot of a repository: its URL, the commit id
/// that fixes its content, and the branch the commit was found on.
///
/// A key cannot be changed once made, and its commit id is always a full
/// commit id.
#[derive(Debug)]
pub struct ContentKey {
    repository_url: String,
    commit_id: String,
    branch_name: String,
}

impl View for ContentKey {
    type V = ContentKeyModel;

    closed spec fn view(&self) -> ContentKeyModel {
        ContentKeyModel {
            repository_url: self.repository_url@,
            commit_id: self.commit_id@,
            branch_name: self.branch_name@,
        }
    }
}

impl Clone for ContentKey {
    fn clone(&self) -> (r: Self)
        ensures
            r@ == self@,
    {
        proof {
            use_type_invariant(self);
        }
        ContentKey {
            repository_url: self.repository_url.clone(),
            commit_id: self.commit_id.clone(),
            branch_name: self.branch_name.clone(),
        }
    }
}

impl ContentKey {
    #[verifier::type_invariant]
    spec fn well_formed(self) -> bool {
        is_commit_id(self.commit_id@)
    }

    /// Makes a key, or `None` when `commit_id` is not a full commit id.
    pub fn new(repository_url: &str, commit_id: &str, branch_name: &str) -> (r: Option<ContentKey>)
        ensures
            r is Some <==> is_commit_id(commit_id@),
            r matches Some(key) ==> key@ == (ContentKeyModel {
                repository_url: repository_url@,
                commit_id: commit_id@,
                branch_name: branch_name@,
            }),
    {
        if is_full_commit_id(commit_id) {
            Some(
                ContentKey {
                    repository_url: repository_url.to_owned(),
                    commit_id: commit_id.to_owned(),
                    branch_name: branch_name.to_owned(),
                },
            )
        } else {
            None
        }
    }

    /// The URL of the repository.
    pub fn repository_url(&self) -> (r: &str)
        ensures
            r@ == self@.repository_url,
    {
        self.repository_url.as_str()
    }

    /// The commit id that fixes the content.
    pub fn commit_id(&self) -> (r: &str)
        ensures
            r@ == self@.commit_id,
            is_commit_id(r@),
    {
        proof {
            use_type_invariant(self);
        }
        self.commit_id.as_str()
    }

    /// The branch the commit was found on.
    pub fn branch_name(&self) -> (r: &str)
        ensures
            r@ == self@.branch_name,
    {
        self.branch_name.as_str()
    }

    /// The identifier under which the statistics of this key are cached.
    pub fn identifier(&self) -> (id: String)
        ensures
            id@ == self@.identifier(),
    {
        repo_identifier(
            self.repository_url.as_str(),
            self.commit_id.as_str(),
            self.branch_name.as_str(),
        )
    }

    /// The entity tag of this key.
    pub fn etag(&self) -> (tag: String)
        ensures
            tag@ == self@.etag(),
    {
        etag_identifier(self.commit_id.as_str(), self.branch_name.as_str())
    }

    /// Whether two keys hold the same URL, commit id and branch.
    pub fn same_as(&self, other: &ContentKey) -> (r: bool)
        ensures
            r == (self@ == other@),
    {
        self.repository_url == other.repository_url && self.commit_id == other.commit_id
            && self.branch_name == other.branch_name
    }
}

/// Writing two texts one after the other writes the one and then the
/// other.
pub proof fn lemma_escaped_concat(a: Seq<char>, b: Seq<char>)
    ensures
        escaped(a + b) == escaped(a) + escaped(b),
    decreases a.len(),
{
    if a.len() == 0 {
        assert(a + b =~= b);
        assert(escaped(a) + escaped(b) =~= escaped(b));
    } else {
        lemma_escaped_concat(a.drop_first(), b);
        assert((a + b).drop_first() =~= a.drop_first() + b);
        assert((a + b)[0] == a[0]);
        assert(escaped(a + b) =~= escaped(a) + escaped(b));
    }
}

/// What `escaped` writes holds no `#`.
pub proof fn lemma_escaped_has_no_hash(s: Seq<char>)
    ensures
        !escaped(s).contains('#'),
    decreases s.len(),
{
    if s.len() > 0 {
        lemma_escaped_has_no_hash(s.drop_first());
        let head = escaped_char(s[0]);
        let tail = escaped(s.drop_first());
        if escaped(s).contains('#') {
            let i = choose|i: int| 0 <= i < escaped(s).len() && escaped(s)[i] == '#';
            if i < head.len() {
                assert(head[i] == '#');
            } else {
                assert(tail[i - head.len()] == '#');
                assert(tail.contains('#'));
            }
        }
    }
}

/// Different texts are written differently.
pub proof fn lemma_escaped_injective(a: Seq<char>, b: Seq<char>)
    requires
        escaped(a) == escaped(b),
    ensures
        a == b,
    decreases a.len(),
{
    if a.len() == 0 {
        if b.len() > 0 {
            assert(escaped(b).len() >= escaped_char(b[0]).len());
        }
        assert(a =~= b);
    } else if b.len() == 0 {
        assert(escaped(a).len() >= escaped_char(a[0]).len());
    } else {
        let ha = escaped_char(a[0]);
        let hb = escaped_char(b[0]);
        let ta = escaped(a.drop_first());
        let tb = escaped(b.drop_first());
        assert(escaped(a)[0] == ha[0]);
        assert(escaped(b)[0] == hb[0]);
        if ha.len() == 2 {
            assert(hb.len() == 2);
            assert(escaped(a)[1] == ha[1]);
            assert(escaped(b)[1] == hb[1]);
        } else {
            assert(hb.len() == 1);
        }
        assert(a[0] == b[0]);
        assert(ta =~= escaped(a).skip(ha.len() as int));
        assert(tb =~= escaped(b).skip(hb.len() as int));
        lemma_escaped_injective(a.drop_first(), b.drop_first());
        assert(a =~= seq![a[0]] + a.drop_first());
        assert(b =~= seq![b[0]] + b.drop_first());
    }
}

/// Two texts that hold no `#`, each followed by `#` and something more,
/// make the same text only when they are the same and what follows them
/// is the same.
pub proof fn lemma_parts_at_hash(
    head_a: Seq<char>,
    rest_a: Seq<char>,
    head_b: Seq<char>,
    rest_b: Seq<char>,
)
    requires
        !head_a.contains('#'),
        !head_b.contains('#'),
        head_a + seq!['#'] + rest_a == head_b + seq!['#'] + rest_b,
    ensures
        head_a == head_b,
        rest_a == rest_b,
{
    let whole_a = head_a + seq!['#'] + rest_a;
    let whole_b = head_b + seq!['#'] + rest_b;
    let la = head_a.len() as int;
    let lb = head_b.len() as int;
    assert(whole_a[la] == '#');
    assert(whole_b[lb] == '#');
    assert(la == lb) by {
        if la < lb {
            assert(whole_b[la] == head_b[la]);
            assert(head_b.contains(head_b[la]));
        } else if lb < la {
            assert(whole_a[lb] == head_a[lb]);
            assert(head_a.contains(head_a[lb]));
        }
    }
    assert(head_a =~= whole_a.take(la));
    assert(head_b =~= whole_b.take(lb));
    assert(rest_a =~= whole_a.skip(la + 1));
    assert(rest_b =~= whole_b.skip(lb + 1));
}

/// Key identity: the identifiers of two triples are the same only when
/// the triples are the same, part by part, whatever the parts hold.
pub proof fn lemma_identifier_injective(
    url_a: Seq<char>,
    commit_a: Seq<char>,
    branch_a: Seq<char>,
    url_b: Seq<char>,
    commit_b: Seq<char>,
    branch_b: Seq<char>,
)
    requires
        identifier_of(url_a, commit_a, branch_a) == identifier_of(url_b, commit_b, branch_b),
    ensures
        url_a == url_b,
        commit_a == commit_b,
        branch_a == branch_b,
{
    lemma_escaped_has_no_hash(url_a);
    lemma_escaped_has_no_hash(url_b);
    lemma_escaped_has_no_hash(commit_a);
    lemma_escaped_has_no_hash(commit_b);
    let rest_a = escaped(commit_a) + seq!['#'] + escaped(branch_a);
    let rest_b = escaped(commit_b) + seq!['#'] + escaped(branch_b);
    assert(identifier_of(url_a, commit_a, branch_a) =~= escaped(url_a) + seq!['#'] + rest_a);
    assert(identifier_of(url_b, commit_b, branch_b) =~= escaped(url_b) + seq!['#'] + rest_b);
    lemma_parts_at_hash(escaped(url_a), rest_a, escaped(url_b), rest_b);
    lemma_parts_at_hash(escaped(commit_a), escaped(branch_a), escaped(commit_b), escaped(branch_b));
    lemma_escaped_injective(url_a, url_b);
    lemma_escaped_injective(commit_a, commit_b);
    lemma_escaped_injective(branch_a, branch_b);
}

/// Different keys have different identifiers.
pub proof fn lemma_keys_have_their_own_identifier(a: ContentKeyModel, b: ContentKeyModel)
    requires
        a.identifier() == b.identifier(),
    ensures
        a == b,
{
    lemma_identifier_injective(
        a.repository_url,
        a.commit_id,
        a.branch_name,
        b.repository_url,
        b.commit_id,
        b.branch_name,
    );
}

/// Two identifiers that differ only in the branch are different, and so
/// are two entity tags.
pub proof fn lemma_branch_distinguishes(
    url: Seq<char>,
    commit: Seq<char>,
    branch_a: Seq<char>,
    branch_b: Seq<char>,
)
    requires
        branch_a != branch_b,
    ensures
        identifier_of(url, commit, branch_a) != identifier_of(url, commit, branch_b),
        etag_of(commit, branch_a) != etag_of(commit, branch_b),
{
    if identifier_of(url, commit, branch_a) == identifier_of(url, commit, branch_b) {
        lemma_identifier_injective(url, commit, branch_a, url, commit, branch_b);
    }
    let tag_head = commit + seq!['#'];
    assert(etag_of(commit, branch_a).skip(tag_head.len() as int) =~= branch_a);
    assert(etag_of(commit, branch_b).skip(tag_head.len() as int) =~= branch_b);
}

/// Content keys with different commits or branches have different entity
/// tags.
pub proof fn lemma_etag_names_commit_and_branch(a: ContentKeyModel, b: ContentKeyModel)
    requires
        is_commit_id(a.commit_id),
        is_commit_id(b.commit_id),
        a.etag() == b.etag(),
    ensures
        a.commit_id == b.commit_id,
        a.branch_name == b.branch_name,
{
    assert(a.commit_id =~= a.etag().take(40));
    assert(b.commit_id =~= b.etag().take(40));
    assert(a.branch_name =~= a.etag().skip(41));
    assert(b.branch_name =~= b.etag().skip(41));
}

} // verus!
