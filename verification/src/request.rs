//! Badge requests: the options of a request with their defaults, the URL
//! of the repository that it names, the first step once the remote has
//! answered for its references, the language filter, and the answer to
//! the request once the statistics are known.

use vstd::prelude::*;
use vstd::string::StringExecFns;
use vstd::utf8::{decode_utf8, encode_utf8, valid_utf8};
use crate::aggregate::{
    aggregate, aggregate_of, ranking_language, ranking_text, select_languages, selection,
};
use crate::badge::{
    badge_content, badge_for, css_hex, make_badge, message_color_for, style_named, BadgeBody, BLUE,
};
use crate::cache::{Admission, StatsCache};
use crate::key::{is_commit_id, ContentKey, ContentKeyModel};
use crate::resolver::{resolution, resolve, resolved, ReferenceListing, ResolutionError};
use crate::stats::{LanguageStat, Snapshot};
use crate::text::{
    chars_of, is_listed, names_of, push_char, same_text, split, split_chars, string_of, views_of,
};

verus! {

/// Why a request cannot be answered.
#[derive(Clone, Copy, Debug, PartialEq, Eq, Structural)]
pub enum RequestError {
    /// The domain of the repository is not text once its escapes are
    /// resolved.
    InvalidDomain,
}

/// The options of a badge request as they arrive: each is there or is
/// not.
pub struct BadgeQuery {
    pub category: Option<String>,
    pub label: Option<String>,
    pub style: Option<String>,
    pub color: Option<String>,
    pub logo: Option<String>,
    pub language_types: Option<String>,
    pub show_language: Option<String>,
    pub language_rank: Option<String>,
    pub branch: Option<String>,
}

/// The options of a badge request with the defaults filled in.
pub struct BadgeOptions {
    pub category: String,
    pub label: String,
    pub no_label: bool,
    pub style: String,
    pub color: String,
    pub logo: String,
    pub language_types: String,
    pub show_language: bool,
    pub language_rank: usize,
    pub branch: String,
}

/// The text of an option, or `default` when the option is not there.
pub open spec fn text_or(value: Option<String>, default: Seq<char>) -> Seq<char> {
    match value {
        Some(text) => text@,
        None => default,
    }
}

/// The value of a decimal digit.
pub open spec fn digit_value(c: char) -> Option<nat> {
    if '0' <= c && c <= '9' {
        Some((c as nat - '0' as nat) as nat)
    } else {
        None
    }
}

/// The number that a run of decimal digits writes; `None` when the run is
/// empty or holds anything but digits.
pub open spec fn digits_value(s: Seq<char>) -> Option<nat>
    decreases s.len(),
{
    if s.len() == 0 {
        None
    } else if s.len() == 1 {
        digit_value(s[0])
    } else {
        match (digits_value(s.drop_last()), digit_value(s.last())) {
            (Some(before), Some(digit)) => Some(before * 10 + digit),
            _ => None,
        }
    }
}

/// The number that a text writes: decimal digits, with or without a `+`
/// before them.
pub open spec fn unsigned_value(s: Seq<char>) -> Option<nat> {
    if s.len() > 0 && s[0] == '+' {
        digits_value(s.skip(1))
    } else {
        digits_value(s)
    }
}

/// The place that a rank option asks for: the number it writes, and 0
/// when it writes none or one that does not fit.
pub open spec fn rank_named(s: Seq<char>) -> nat {
    match unsigned_value(s) {
        Some(value) => if value <= usize::MAX {
            value
        } else {
            0
        },
        None => 0,
    }
}

/// The place among the languages that a request asks for: the first when
/// it does not say, and else what `rank_named` reads.
pub open spec fn rank_or_first(value: Option<String>) -> nat {
    match value {
        Some(text) => rank_named(text@),
        None => 1,
    }
}

/// A run of digits writes no less than any run it begins with, and writes
/// nothing when a run it begins with writes nothing.
pub proof fn lemma_digits_grow(s: Seq<char>, i: int)
    requires
        1 <= i <= s.len(),
    ensures
        digits_value(s.take(i)) is None ==> digits_value(s) is None,
        digits_value(s) matches Some(whole) ==> digits_value(s.take(i)) matches Some(part) && part
            <= whole,
    decreases s.len() - i,
{
    if i == s.len() {
        assert(s.take(i) =~= s);
    } else {
        lemma_digits_grow(s, i + 1);
        assert(s.take(i + 1).drop_last() =~= s.take(i));
    }
}

/// The place that the text of a rank option asks for.
pub fn rank_of(text: &str) -> (r: usize)
    ensures
        r == rank_named(text@),
{
    let chars = chars_of(text);
    let start: usize = if chars.len() > 0 && chars[0] == '+' {
        1
    } else {
        0
    };
    let ghost digits = chars@.skip(start as int);
    proof {
        if start == 0 {
            assert(digits =~= text@);
        }
    }
    if start == chars.len() {
        return 0;
    }
    let mut value: usize = 0;
    let mut i: usize = start;
    while i < chars.len()
        invariant
            start <= i <= chars.len(),
            start < chars.len(),
            chars@ == text@,
            digits == chars@.skip(start as int),
            unsigned_value(text@) == digits_value(digits),
            i == start ==> value == 0,
            i > start ==> digits_value(digits.take(i - start)) == Some(value as nat),
        decreases chars.len() - i,
    {
        let c = chars[i];
        proof {
            assert(digits.take(i - start + 1).drop_last() =~= digits.take(i - start));
            assert(digits.take(i - start + 1).last() == c);
            assert(digits.take(i - start + 1)[0] == digits[0]);
            lemma_digits_grow(digits, i - start + 1);
        }
        if !('0' <= c && c <= '9') {
            return 0;
        }
        let digit: usize = (c as u32 - '0' as u32) as usize;
        let next = match value.checked_mul(10) {
            Some(tens) => tens.checked_add(digit),
            None => None,
        };
        match next {
            Some(n) => {
                value = n;
            },
            None => {
                return 0;
            },
        }
        i += 1;
    }
    assert(digits.take(chars@.len() - start) =~= digits);
    value
}

/// The options of a request with the defaults filled in: all lines, no
/// label, the plastic style in blue, no logo, every language, no language
/// shown, the first place, the default branch.
pub fn badge_options(query: BadgeQuery) -> (r: BadgeOptions)
    ensures
        r.category@ == text_or(query.category, "lines"@),
        r.label@ == text_or(query.label, Seq::empty()),
        r.no_label == (query.label is None),
        r.style@ == text_or(query.style, "plastic"@),
        r.color@ == text_or(query.color, BLUE@),
        r.logo@ == text_or(query.logo, Seq::empty()),
        r.language_types@ == text_or(query.language_types, Seq::empty()),
        r.show_language == (query.show_language matches Some(text) && text@ == "true"@),
        r.language_rank == rank_or_first(query.language_rank),
        r.branch@ == text_or(query.branch, Seq::empty()),
{
    let no_label = query.label.is_none();
    BadgeOptions {
        category: match query.category {
            Some(text) => text,
            None => "lines".to_owned(),
        },
        label: match query.label {
            Some(text) => text,
            None => String::new(),
        },
        no_label,
        style: match query.style {
            Some(text) => text,
            None => "plastic".to_owned(),
        },
        color: match query.color {
            Some(text) => text,
            None => BLUE.to_owned(),
        },
        logo: match query.logo {
            Some(text) => text,
            None => String::new(),
        },
        language_types: match query.language_types {
            Some(text) => text,
            None => String::new(),
        },
        show_language: match query.show_language {
            Some(text) => same_text(text.as_str(), "true"),
            None => false,
        },
        language_rank: match query.language_rank {
            Some(text) => rank_of(text.as_str()),
            None => 1,
        },
        branch: match query.branch {
            Some(text) => text,
            None => String::new(),
        },
    }
}

/// The value of the hexadecimal digit that a byte writes, in either case.
pub open spec fn hex_value(b: u8) -> Option<int> {
    if 0x30 <= b && b <= 0x39 {
        Some(b - 0x30)
    } else if 0x61 <= b && b <= 0x66 {
        Some(b - 0x61 + 10)
    } else if 0x41 <= b && b <= 0x46 {
        Some(b - 0x41 + 10)
    } else {
        None
    }
}

/// The bytes that percent-decoding gives: every `%` with two hexadecimal
/// digits behind it is replaced by the byte that the digits write; every
/// other byte, a `%` without two such digits among them, stays.
pub open spec fn percent_decoded_bytes(bytes: Seq<u8>) -> Seq<u8>
    decreases bytes.len(),
{
    if bytes.len() == 0 {
        Seq::empty()
    } else if bytes[0] == 0x25 && bytes.len() >= 3 && hex_value(bytes[1]) is Some && hex_value(
        bytes[2],
    ) is Some {
        seq![(hex_value(bytes[1])->0 * 16 + hex_value(bytes[2])->0) as u8] + percent_decoded_bytes(
            bytes.skip(3),
        )
    } else {
        seq![bytes[0]] + percent_decoded_bytes(bytes.skip(1))
    }
}

/// The text that percent-decoding gives: the bytes of the text in UTF-8
/// are decoded, and what comes of it is read as UTF-8 again; `None` when
/// it is not UTF-8.
pub open spec fn percent_decoded(text: Seq<char>) -> Option<Seq<char>> {
    let bytes = percent_decoded_bytes(encode_utf8(text));
    if valid_utf8(bytes) {
        Some(decode_utf8(bytes))
    } else {
        None
    }
}

/// Resolves the percent escapes of a text.
///
/// Wraps `percent_encoding::percent_decode_str`, which replaces every `%`
/// followed by two hexadecimal digits by the byte they write and leaves
/// every other byte, and `decode_utf8` on what it gives, which succeeds
/// exactly when the bytes are UTF-8.
#[verifier::external_body]
fn percent_decode(text: &str) -> (r: Option<String>)
    ensures
        match r {
            Some(decoded) => percent_decoded(text@) == Some(decoded@),
            None => percent_decoded(text@) is None,
        },
{
    match percent_encoding::percent_decode_str(text).decode_utf8() {
        Ok(decoded) => Some(decoded.into_owned()),
        Err(_) => None,
    }
}

/// The domain as it is used: a domain without a dot is taken to end in
/// `.com`.
pub open spec fn normal_domain(domain: Seq<char>) -> Seq<char> {
    if domain.contains('.') {
        domain
    } else {
        domain + ".com"@
    }
}

/// The URL of the repository of `user` named `repo` at `domain`.
pub open spec fn url_of(domain: Seq<char>, user: Seq<char>, repo: Seq<char>) -> Seq<char> {
    "https://"@ + domain + seq!['/'] + user + seq!['/'] + repo
}

/// The URL of a repository, given what percent-decoding made of its
/// domain.
pub open spec fn repository_url_for(decoded: Option<Seq<char>>, user: Seq<char>, repo: Seq<char>) -> Result<
    Seq<char>,
    RequestError,
> {
    match decoded {
        Some(domain) => Ok(url_of(normal_domain(domain), user, repo)),
        None => Err(RequestError::InvalidDomain),
    }
}

/// Whether `c` occurs in `text`.
pub fn holds_char(text: &str, c: char) -> (r: bool)
    ensures
        r == text@.contains(c),
{
    let chars = chars_of(text);
    let mut i: usize = 0;
    while i < chars.len()
        invariant
            i <= chars.len(),
            chars@ == text@,
            forall|j: int| 0 <= j < i ==> chars@[j] != c,
        decreases chars.len() - i,
    {
        if chars[i] == c {
            return true;
        }
        i += 1;
    }
    false
}

/// The URL of the repository of `user` named `repo`, given what
/// percent-decoding made of its domain.
pub fn repository_url_from(decoded: Option<String>, user: &str, repo: &str) -> (r: Result<
    String,
    RequestError,
>)
    ensures
        match r {
            Ok(url) => repository_url_for(
                match decoded {
                    Some(domain) => Some(domain@),
                    None => None,
                },
                user@,
                repo@,
            ) == Ok::<Seq<char>, RequestError>(url@),
            Err(e) => decoded is None && e == RequestError::InvalidDomain,
        },
{
    match decoded {
        None => Err(RequestError::InvalidDomain),
        Some(domain) => {
            let mut url = "https://".to_owned();
            url.append(domain.as_str());
            if !holds_char(domain.as_str(), '.') {
                url.append(".com");
            }
            push_char(&mut url, '/');
            url.append(user);
            push_char(&mut url, '/');
            url.append(repo);
            assert(url@ =~= url_of(normal_domain(domain@), user@, repo@));
            Ok(url)
        },
    }
}

/// The URL of the repository that a request names by `domain`, `user` and
/// `repo`. The percent escapes of the domain are resolved, and a domain
/// without a dot is taken to end in `.com`.
pub fn repository_url(domain: &str, user: &str, repo: &str) -> (r: Result<String, RequestError>)
    ensures
        match r {
            Ok(url) => repository_url_for(percent_decoded(domain@), user@, repo@) == Ok::<
                Seq<char>,
                RequestError,
            >(url@),
            Err(e) => repository_url_for(percent_decoded(domain@), user@, repo@) == Err::<
                Seq<char>,
                RequestError,
            >(e),
        },
{
    repository_url_from(percent_decode(domain), user, repo)
}

/// The display name of the language that a token names, whatever its
/// case; `None` when it names none.
pub uninterp spec fn language_named(token: Seq<char>) -> Option<Seq<char>>;

/// Reads the name of a language.
///
/// Wraps `LanguageType::from_str` of tokei, which knows a language by its
/// display name in any case, and `LanguageType::name` on what it found.
/// The result depends on the token alone.
#[verifier::external_body]
fn parse_language(token: &str) -> (r: Option<String>)
    ensures
        match r {
            Some(name) => language_named(token@) == Some(name@),
            None => language_named(token@) is None,
        },
{
    match token.parse::<tokei::LanguageType>() {
        Ok(language) => Some(language.name().to_owned()),
        Err(_) => None,
    }
}

/// What the entries of `parsed` hold.
pub open spec fn parsed_of(parsed: Seq<Option<String>>) -> Seq<Option<Seq<char>>> {
    parsed.map_values(
        |p: Option<String>|
            match p {
                Some(name) => Some(name@),
                None => None,
            },
    )
}

/// The names among `parsed`, in order.
pub open spec fn known(parsed: Seq<Option<Seq<char>>>) -> Seq<Seq<char>>
    decreases parsed.len(),
{
    if parsed.len() == 0 {
        Seq::empty()
    } else {
        match parsed.last() {
            Some(name) => known(parsed.drop_last()).push(name),
            None => known(parsed.drop_last()),
        }
    }
}

/// The languages that the tokens of a list name, in order; tokens that
/// name no language are passed over.
pub open spec fn filter_of(types: Seq<char>) -> Seq<Seq<char>> {
    known(split(types, ',').map_values(|token: Seq<char>| language_named(token)))
}

/// The names among `parsed`, in order.
pub fn known_names(parsed: Vec<Option<String>>) -> (r: Vec<String>)
    ensures
        names_of(r@) == known(parsed_of(parsed@)),
{
    let mut names: Vec<String> = Vec::new();
    let mut i: usize = 0;
    let ghost all = parsed_of(parsed@);
    assert(all.take(0) =~= Seq::empty());
    assert(names_of(names@) =~= Seq::empty());
    while i < parsed.len()
        invariant
            i <= parsed.len(),
            all == parsed_of(parsed@),
            names_of(names@) == known(all.take(i as int)),
        decreases parsed.len() - i,
    {
        proof {
            assert(all.take(i + 1).drop_last() =~= all.take(i as int));
            assert(all.take(i + 1).last() == all[i as int]);
        }
        match &parsed[i] {
            Some(name) => {
                let ghost before = names_of(names@);
                names.push(name.clone());
                assert(names_of(names@) =~= before.push(name@));
            },
            None => {},
        }
        i += 1;
    }
    assert(all.take(parsed@.len() as int) =~= all);
    names
}

/// The languages that a comma-separated list names.
pub fn language_filter(types: &str) -> (r: Vec<String>)
    ensures
        names_of(r@) == filter_of(types@),
{
    let chars = chars_of(types);
    let tokens = split_chars(&chars, ',');
    let mut parsed: Vec<Option<String>> = Vec::new();
    let mut i: usize = 0;
    let ghost named = split(types@, ',').map_values(|token: Seq<char>| language_named(token));
    assert(parsed_of(parsed@) =~= named.take(0));
    while i < tokens.len()
        invariant
            i <= tokens.len(),
            views_of(tokens@) == split(types@, ','),
            named == split(types@, ',').map_values(|token: Seq<char>| language_named(token)),
            parsed_of(parsed@) == named.take(i as int),
        decreases tokens.len() - i,
    {
        let token = string_of(&tokens[i]);
        let ghost before = parsed_of(parsed@);
        let found = parse_language(token.as_str());
        proof {
            assert(views_of(tokens@)[i as int] == tokens@[i as int]@);
            assert(named[i as int] == language_named(token@));
        }
        parsed.push(found);
        assert(parsed_of(parsed@) =~= before.push(named[i as int]));
        assert(named.take(i + 1) =~= named.take(i as int).push(named[i as int]));
        i += 1;
    }
    assert(named.take(tokens@.len() as int) =~= named);
    known_names(parsed)
}

/// The entity tags that a conditional request carries.
pub enum IfNoneMatch {
    /// Any tag: `*`.
    Any,
    /// These tags, each without its quotes and its weakness mark.
    Tags(Vec<String>),
}

/// Whether a conditional request is met by the content of `etag`: one of
/// its tags is the same text. The request for any tag is never met.
pub open spec fn is_not_modified(header: IfNoneMatch, etag: Seq<char>) -> bool {
    match header {
        IfNoneMatch::Any => false,
        IfNoneMatch::Tags(tags) => names_of(tags@).contains(etag),
    }
}

/// Whether the client that sent `header` holds the content of `key`
/// already.
pub fn not_modified(header: &IfNoneMatch, key: &ContentKey) -> (r: bool)
    ensures
        r == is_not_modified(*header, key@.etag()),
{
    match header {
        IfNoneMatch::Any => false,
        IfNoneMatch::Tags(tags) => {
            let etag = key.etag();
            is_listed(tags, etag.as_str())
        },
    }
}

/// The first step of a badge request: what is to be done once the remote
/// has answered for its references.
pub enum Admitted {
    /// The reference cannot be resolved: the request is refused with this
    /// error. Nothing is to be fetched or computed, and the cache is not
    /// to be asked.
    Refused(ResolutionError),
    /// The client holds the content of this key already: it is told so,
    /// with no body. Nothing is to be computed; the entry of the key is
    /// only to be marked as used.
    NotModified(ContentKey),
    /// The statistics of this key are wanted: the cache is to be asked.
    Wanted(ContentKey),
}

/// The first step of a badge request.
pub enum AdmittedModel {
    Refused(ResolutionError),
    NotModified(ContentKeyModel),
    Wanted(ContentKeyModel),
}

impl View for Admitted {
    type V = AdmittedModel;

    open spec fn view(&self) -> AdmittedModel {
        match self {
            Admitted::Refused(e) => AdmittedModel::Refused(*e),
            Admitted::NotModified(key) => AdmittedModel::NotModified(key@),
            Admitted::Wanted(key) => AdmittedModel::Wanted(key@),
        }
    }
}

/// The tags of a conditional request, when there is one.
pub open spec fn tags_of(header: Option<&IfNoneMatch>) -> Option<IfNoneMatch> {
    match header {
        Some(tags) => Some(*tags),
        None => None,
    }
}

/// The first step of a request for the repository at `url` on the branch
/// `requested`, given what the remote answered and the tags of the
/// request.
///
/// A reference that does not resolve refuses the request with the error
/// of the resolution. One that resolves gives the key; the client holds
/// its content already exactly when the request is conditional and one of
/// its tags is the entity tag of the key.
pub open spec fn admitted(
    url: Seq<char>,
    requested: Seq<char>,
    listing: ReferenceListing,
    header: Option<IfNoneMatch>,
) -> AdmittedModel {
    match resolution(url, requested, listing) {
        Err(e) => AdmittedModel::Refused(e),
        Ok(key) => if header matches Some(tags) && is_not_modified(tags, key.etag()) {
            AdmittedModel::NotModified(key)
        } else {
            AdmittedModel::Wanted(key)
        },
    }
}

/// Takes the first step of a badge request for the repository at `url`:
/// resolves the branch from what the remote answered, and compares the
/// tags of a conditional request with the entity tag of the key.
///
/// An empty `requested_branch` asks for the default branch of the remote.
/// Only `Admitted::Wanted` lets statistics be asked for.
pub fn create_badge(
    url: &str,
    requested_branch: &str,
    listing: ReferenceListing,
    header: Option<&IfNoneMatch>,
) -> (r: Admitted)
    ensures
        r@ == admitted(url@, requested_branch@, listing, tags_of(header)),
{
    match resolve(url, requested_branch, listing) {
        Err(e) => Admitted::Refused(e),
        Ok(key) => {
            let held = match header {
                Some(tags) => not_modified(tags, &key),
                None => false,
            };
            if held {
                Admitted::NotModified(key)
            } else {
                Admitted::Wanted(key)
            }
        },
    }
}

/// The second step of a badge request: what is to be done once the cache
/// was asked.
pub enum Proceeding {
    /// The request is refused with this error.
    Refuse(ResolutionError),
    /// The client holds the content of this key already.
    NotModified(ContentKey),
    /// The statistics of this key are wanted, and this is what the cache
    /// told: they are served, or the caller is to compute them, or to
    /// wait for them.
    Answer(ContentKey, Admission),
}

/// Takes the second step of a badge request, at time `now`: asks the
/// cache as far as the first step allows.
///
/// A request that was refused leaves the cache as it is. One whose client
/// holds the content already only has the key looked up, which marks a
/// fresh entry as used and adds nothing. Only when the statistics are
/// wanted does the caller take its place among the computations.
pub fn proceed(cache: &mut StatsCache, step: Admitted, now: u64) -> (r: Proceeding)
    ensures
        match step@ {
            AdmittedModel::Refused(e) => r matches Proceeding::Refuse(x) && x == e && final(cache)@
                == old(cache)@,
            AdmittedModel::NotModified(key) => r matches Proceeding::NotModified(k) && k@ == key
                && final(cache)@ == old(cache)@.after_lookup(key.identifier(), now as nat),
            AdmittedModel::Wanted(key) => r matches Proceeding::Answer(k, admission) && k@ == key
                && admission@ == old(cache)@.admission(key.identifier(), now as nat)
                && final(cache)@ == old(cache)@.after_begin(key.identifier(), now as nat),
        },
{
    match step {
        Admitted::Refused(e) => Proceeding::Refuse(e),
        Admitted::NotModified(key) => {
            cache.touch(&key, now);
            Proceeding::NotModified(key)
        },
        Admitted::Wanted(key) => {
            let admission = cache.begin(&key, now);
            Proceeding::Answer(key, admission)
        },
    }
}

/// What is admitted carries the URL as given and a full commit id: forty
/// hexadecimal digits, no more and no fewer.
pub proof fn lemma_admitted_key_is_full(
    url: Seq<char>,
    requested: Seq<char>,
    listing: ReferenceListing,
    header: Option<IfNoneMatch>,
)
    ensures
        match admitted(url, requested, listing, header) {
            AdmittedModel::Refused(_) => true,
            AdmittedModel::NotModified(key) => key.repository_url == url && is_commit_id(
                key.commit_id,
            ) && key.commit_id.len() == 40,
            AdmittedModel::Wanted(key) => key.repository_url == url && is_commit_id(key.commit_id)
                && key.commit_id.len() == 40,
        },
{
}

/// A request is refused exactly when the reference does not resolve, and
/// then whatever tags it carries: as a transport failure when the remote
/// did not answer, and as an invalid reference when the answer is not
/// text or gives no full commit id for the branch.
pub proof fn lemma_refused_when_unresolved(
    url: Seq<char>,
    requested: Seq<char>,
    listing: ReferenceListing,
    header: Option<IfNoneMatch>,
)
    ensures
        listing is Failed ==> admitted(url, requested, listing, header) == AdmittedModel::Refused(
            ResolutionError::TransportFailure,
        ),
        listing matches ReferenceListing::Received(bytes) ==> (!valid_utf8(bytes@) || resolved(
            decode_utf8(bytes@),
            requested,
        ) is None) ==> admitted(url, requested, listing, header) == AdmittedModel::Refused(
            ResolutionError::InvalidReference,
        ),
        admitted(url, requested, listing, header) is Refused <==> resolution(
            url,
            requested,
            listing,
        ) is Err,
{
}

/// The client is told that nothing has changed exactly when the reference
/// resolves and one of the tags that the request lists is the entity tag
/// of the key; a request for any tag, or without tags, never is.
pub proof fn lemma_not_modified_when_a_tag_matches(
    url: Seq<char>,
    requested: Seq<char>,
    listing: ReferenceListing,
    header: Option<IfNoneMatch>,
)
    ensures
        admitted(url, requested, listing, header) is NotModified <==> (resolution(
            url,
            requested,
            listing,
        ) matches Ok(key) && (header matches Some(IfNoneMatch::Tags(listed)) && names_of(
            listed@,
        ).contains(key.etag()))),
        admitted(url, requested, listing, header) matches AdmittedModel::NotModified(key)
            ==> resolution(url, requested, listing) == Ok::<ContentKeyModel, ResolutionError>(key),
        admitted(url, requested, listing, header) matches AdmittedModel::Wanted(key)
            ==> resolution(url, requested, listing) == Ok::<ContentKeyModel, ResolutionError>(key),
{
}

/// Whether `c` may stand in an entity tag: any visible character but the
/// double quote, and anything beyond ASCII.
pub open spec fn is_tag_char(c: char) -> bool {
    c == '!' || ('#' <= c && c <= '~') || c as u32 >= 0x80
}

/// Whether `text` can be sent as an entity tag.
pub fn is_entity_tag(text: &str) -> (r: bool)
    ensures
        r == forall|i: int| 0 <= i < text@.len() ==> is_tag_char(#[trigger] text@[i]),
{
    let chars = chars_of(text);
    let mut i: usize = 0;
    while i < chars.len()
        invariant
            i <= chars.len(),
            chars@ == text@,
            forall|j: int| 0 <= j < i ==> is_tag_char(#[trigger] chars@[j]),
        decreases chars.len() - i,
    {
        let c = chars[i];
        if !(c == '!' || ('#' <= c && c <= '~') || c as u32 >= 0x80) {
            return false;
        }
        i += 1;
    }
    true
}

/// The answer to a badge request: the statistics that it is about, and
/// what is sent.
pub struct BadgeReply {
    pub stats: LanguageStat,
    pub body: BadgeBody,
}

/// Answers a badge request from the statistics of the repository, once
/// they are at hand.
///
/// The languages that the request names are chosen, or all when it names
/// none that is known; their statistics are taken together; and the
/// badge shows the language at the place asked for, when one is to be
/// shown, or else the count of the category.
pub fn badge_reply(options: &BadgeOptions, snapshot: &Snapshot, wants_json: bool) -> (r:
    BadgeReply)
    ensures
        r.stats@ == aggregate_of(snapshot@.languages, filter_of(options.language_types@)),
        ({
            let chosen = selection(snapshot@.languages, filter_of(options.language_types@));
            let shown = ranking_text(options.show_language, options.language_rank as nat, chosen);
            let content = badge_content(
                wants_json,
                r.stats@,
                options.category@,
                options.label@,
                shown,
                options.no_label,
            );
            match r.body {
                BadgeBody::Json => content is None,
                BadgeBody::Image(badge) => content matches Some((label, message)) && badge@
                    == badge_for(
                    label,
                    message,
                    message_color_for(css_hex(options.color@)),
                    style_named(options.style@),
                    options.logo@,
                ),
            }
        }),
{
    let filter = language_filter(options.language_types.as_str());
    let chosen = select_languages(snapshot, &filter);
    let shown = ranking_language(options.show_language, options.language_rank, &chosen);
    let stats = aggregate(snapshot, &filter);
    let body = make_badge(
        wants_json,
        &stats,
        options.category.as_str(),
        options.label.as_str(),
        options.style.as_str(),
        options.color.as_str(),
        options.logo.as_str(),
        shown.as_str(),
        options.no_label,
    );
    BadgeReply { stats, body }
}

} // verus!
