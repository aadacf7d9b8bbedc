//! Line statistics: per file, per language, and per repository snapshot.
//!
//! Every count of total lines is the sum of code, comment and blank lines,
//! and the totals of a snapshot fit in sixty-four bits, so that no sum over
//! a snapshot can overflow.

use vstd::prelude::*;

verus! {

/// Why statistics could not be computed.
#[derive(Clone, Copy, Debug, PartialEq, Eq, Structural)]
pub enum ComputeError {
    /// No workspace could be set up for the content.
    Workspace,
    /// The content could not be fetched.
    Fetch,
    /// The content could not be analysed.
    Analysis,
    /// The statistics are being computed for another caller.
    InFlight,
}

/// What a file report holds.
pub struct FileReportModel {
    pub path: Seq<char>,
    pub code: nat,
    pub comments: nat,
    pub blanks: nat,
}

impl FileReportModel {
    /// The total number of lines of the file.
    pub open spec fn lines(self) -> nat {
        self.code + self.comments + self.blanks
    }
}

/// The line counts of one file.
#[derive(Debug)]
pub struct FileReport {
    path: String,
    code: u64,
    comments: u64,
    blanks: u64,
    lines: u64,
}

impl View for FileReport {
    type V = FileReportModel;

    closed spec fn view(&self) -> FileReportModel {
        FileReportModel {
            path: self.path@,
            code: self.code as nat,
            comments: self.comments as nat,
            blanks: self.blanks as nat,
        }
    }
}

impl Clone for FileReport {
    fn clone(&self) -> (r: Self)
        ensures
            r@ == self@,
    {
        proof {
            use_type_invariant(self);
        }
        FileReport {
            path: self.path.clone(),
            code: self.code,
            comments: self.comments,
            blanks: self.blanks,
            lines: self.lines,
        }
    }
}

impl FileReport {
    #[verifier::type_invariant]
    spec fn well_formed(self) -> bool {
        self.lines == self.code + self.comments + self.blanks
    }

    /// Makes a report, or `None` when the total number of lines does not
    /// fit in sixty-four bits.
    pub fn new(path: &str, code: u64, comments: u64, blanks: u64) -> (r: Option<FileReport>)
        ensures
            r is Some <==> code + comments + blanks <= u64::MAX,
            r matches Some(report) ==> report@ == (FileReportModel {
                path: path@,
                code: code as nat,
                comments: comments as nat,
                blanks: blanks as nat,
            }),
    {
        match code.checked_add(comments) {
            None => None,
            Some(partial) => match partial.checked_add(blanks) {
                None => None,
                Some(lines) => Some(
                    FileReport { path: path.to_owned(), code, comments, blanks, lines },
                ),
            },
        }
    }

    /// The path of the file.
    pub fn path(&self) -> (r: &str)
        ensures
            r@ == self@.path,
    {
        self.path.as_str()
    }

    /// Lines of code.
    pub fn code(&self) -> (r: u64)
        ensures
            r == self@.code,
    {
        self.code
    }

    /// Comment lines.
    pub fn comments(&self) -> (r: u64)
        ensures
            r == self@.comments,
    {
        self.comments
    }

    /// Blank lines.
    pub fn blanks(&self) -> (r: u64)
        ensures
            r == self@.blanks,
    {
        self.blanks
    }

    /// All lines: code, comments and blanks together.
    pub fn lines(&self) -> (r: u64)
        ensures
            r == self@.lines(),
    {
        proof {
            use_type_invariant(self);
        }
        self.lines
    }
}

/// The file reports that the vector entries hold.
pub open spec fn reports_of(reports: Seq<FileReport>) -> Seq<FileReportModel> {
    reports.map_values(|r: FileReport| r@)
}

/// What the statistics of a language hold.
pub struct LanguageStatModel {
    pub code: nat,
    pub comments: nat,
    pub blanks: nat,
    pub inaccurate: bool,
    pub reports: Seq<FileReportModel>,
}

impl LanguageStatModel {
    /// The total number of lines.
    pub open spec fn lines(self) -> nat {
        self.code + self.comments + self.blanks
    }

    /// The statistics of nothing: no lines and no files.
    pub open spec fn nothing() -> LanguageStatModel {
        LanguageStatModel {
            code: 0,
            comments: 0,
            blanks: 0,
            inaccurate: false,
            reports: Seq::empty(),
        }
    }

    /// The statistics of `self` and `other` together: the counts added,
    /// the reports of `other` after those of `self`.
    pub open spec fn merged(self, other: LanguageStatModel) -> LanguageStatModel {
        LanguageStatModel {
            code: self.code + other.code,
            comments: self.comments + other.comments,
            blanks: self.blanks + other.blanks,
            inaccurate: self.inaccurate || other.inaccurate,
            reports: self.reports + other.reports,
        }
    }
}

/// The line counts of one language, or of several taken together, with
/// the reports of the files counted.
#[derive(Debug)]
pub struct LanguageStat {
    code: u64,
    comments: u64,
    blanks: u64,
    lines: u64,
    inaccurate: bool,
    reports: Vec<FileReport>,
}

impl View for LanguageStat {
    type V = LanguageStatModel;

    closed spec fn view(&self) -> LanguageStatModel {
        LanguageStatModel {
            code: self.code as nat,
            comments: self.comments as nat,
            blanks: self.blanks as nat,
            inaccurate: self.inaccurate,
            reports: reports_of(self.reports@),
        }
    }
}

/// A copy of `reports`.
pub fn clone_reports(reports: &Vec<FileReport>) -> (r: Vec<FileReport>)
    ensures
        reports_of(r@) == reports_of(reports@),
{
    let mut r: Vec<FileReport> = Vec::new();
    let mut i: usize = 0;
    while i < reports.len()
        invariant
            i <= reports.len(),
            r.len() == i,
            reports_of(r@) == reports_of(reports@).take(i as int),
        decreases reports.len() - i,
    {
        let copy = reports[i].clone();
        assert(copy@ == reports@[i as int]@);
        r.push(copy);
        assert(reports_of(r@) =~= reports_of(reports@).take(i + 1));
        i += 1;
    }
    assert(reports_of(reports@).take(reports@.len() as int) =~= reports_of(reports@));
    r
}

impl Clone for LanguageStat {
    fn clone(&self) -> (r: Self)
        ensures
            r@ == self@,
    {
        proof {
            use_type_invariant(self);
        }
        LanguageStat {
            code: self.code,
            comments: self.comments,
            blanks: self.blanks,
            lines: self.lines,
            inaccurate: self.inaccurate,
            reports: clone_reports(&self.reports),
        }
    }
}

impl LanguageStat {
    #[verifier::type_invariant]
    spec fn well_formed(self) -> bool {
        self.lines == self.code + self.comments + self.blanks
    }

    /// Makes statistics, or `None` when the total number of lines does not
    /// fit in sixty-four bits.
    pub fn new(
        code: u64,
        comments: u64,
        blanks: u64,
        inaccurate: bool,
        reports: Vec<FileReport>,
    ) -> (r: Option<LanguageStat>)
        ensures
            r is Some <==> code + comments + blanks <= u64::MAX,
            r matches Some(stat) ==> stat@ == (LanguageStatModel {
                code: code as nat,
                comments: comments as nat,
                blanks: blanks as nat,
                inaccurate,
                reports: reports_of(reports@),
            }),
    {
        match code.checked_add(comments) {
            None => None,
            Some(partial) => match partial.checked_add(blanks) {
                None => None,
                Some(lines) => Some(
                    LanguageStat { code, comments, blanks, lines, inaccurate, reports },
                ),
            },
        }
    }

    /// Makes statistics of counts that are known to fit.
    pub(crate) fn of_counts(
        code: u64,
        comments: u64,
        blanks: u64,
        inaccurate: bool,
        reports: Vec<FileReport>,
    ) -> (r: LanguageStat)
        requires
            code + comments + blanks <= u64::MAX,
        ensures
            r@ == (LanguageStatModel {
                code: code as nat,
                comments: comments as nat,
                blanks: blanks as nat,
                inaccurate,
                reports: reports_of(reports@),
            }),
    {
        LanguageStat { code, comments, blanks, lines: code + comments + blanks, inaccurate, reports }
    }

    /// The statistics of nothing: no lines and no files.
    pub fn empty() -> (r: LanguageStat)
        ensures
            r@ == LanguageStatModel::nothing(),
    {
        let r = LanguageStat {
            code: 0,
            comments: 0,
            blanks: 0,
            lines: 0,
            inaccurate: false,
            reports: Vec::new(),
        };
        assert(reports_of(r.reports@) =~= Seq::<FileReportModel>::empty());
        r
    }

    /// Lines of code.
    pub fn code(&self) -> (r: u64)
        ensures
            r == self@.code,
    {
        self.code
    }

    /// Comment lines.
    pub fn comments(&self) -> (r: u64)
        ensures
            r == self@.comments,
    {
        self.comments
    }

    /// Blank lines.
    pub fn blanks(&self) -> (r: u64)
        ensures
            r == self@.blanks,
    {
        self.blanks
    }

    /// All lines: code, comments and blanks together.
    pub fn lines(&self) -> (r: u64)
        ensures
            r == self@.lines(),
    {
        proof {
            use_type_invariant(self);
        }
        self.lines
    }

    /// Whether some file of the language could not be counted exactly.
    pub fn inaccurate(&self) -> (r: bool)
        ensures
            r == self@.inaccurate,
    {
        self.inaccurate
    }

    /// The number of files counted.
    pub fn files(&self) -> (r: usize)
        ensures
            r == self@.reports.len(),
    {
        self.reports.len()
    }

    /// The reports of the files counted, in order.
    pub fn reports(&self) -> (r: &Vec<FileReport>)
        ensures
            reports_of(r@) == self@.reports,
    {
        &self.reports
    }
}

/// What a snapshot holds for one language.
pub struct LanguageEntryModel {
    pub language: Seq<char>,
    pub stats: LanguageStatModel,
}

/// The statistics of one language of a repository, under the display name
/// of the language.
#[derive(Debug)]
pub struct LanguageEntry {
    pub language: String,
    pub stats: LanguageStat,
}

impl View for LanguageEntry {
    type V = LanguageEntryModel;

    open spec fn view(&self) -> LanguageEntryModel {
        LanguageEntryModel { language: self.language@, stats: self.stats@ }
    }
}

impl Clone for LanguageEntry {
    fn clone(&self) -> (r: Self)
        ensures
            r@ == self@,
    {
        LanguageEntry { language: self.language.clone(), stats: self.stats.clone() }
    }
}

/// The language entries that the vector entries hold.
pub open spec fn entries_of(entries: Seq<LanguageEntry>) -> Seq<LanguageEntryModel> {
    entries.map_values(|e: LanguageEntry| e@)
}

/// The total number of lines of all `languages` together.
pub open spec fn total_lines(languages: Seq<LanguageEntryModel>) -> nat
    decreases languages.len(),
{
    if languages.len() == 0 {
        0
    } else {
        total_lines(languages.drop_last()) + languages.last().stats.lines()
    }
}

/// The lines of the first `i` languages are among the lines of all.
pub proof fn lemma_total_lines_grows(languages: Seq<LanguageEntryModel>, i: int)
    requires
        0 <= i <= languages.len(),
    ensures
        total_lines(languages.take(i)) <= total_lines(languages),
    decreases languages.len() - i,
{
    if i == languages.len() {
        assert(languages.take(i) =~= languages);
    } else {
        lemma_total_lines_grows(languages, i + 1);
        assert(languages.take(i + 1).drop_last() =~= languages.take(i));
    }
}

/// A copy of `entries`.
pub fn clone_entries(entries: &Vec<LanguageEntry>) -> (r: Vec<LanguageEntry>)
    ensures
        entries_of(r@) == entries_of(entries@),
{
    let mut r: Vec<LanguageEntry> = Vec::new();
    let mut i: usize = 0;
    while i < entries.len()
        invariant
            i <= entries.len(),
            r.len() == i,
            entries_of(r@) == entries_of(entries@).take(i as int),
        decreases entries.len() - i,
    {
        let copy = entries[i].clone();
        assert(copy@ == entries@[i as int]@);
        r.push(copy);
        assert(entries_of(r@) =~= entries_of(entries@).take(i + 1));
        i += 1;
    }
    assert(entries_of(entries@).take(entries@.len() as int) =~= entries_of(entries@));
    r
}

/// What a snapshot holds.
pub struct SnapshotModel {
    pub languages: Seq<LanguageEntryModel>,
    pub computed_at: nat,
}

/// The statistics of a repository at one commit: its languages in the
/// order they were given, and the time at which they were computed, in
/// seconds.
#[derive(Debug)]
pub struct Snapshot {
    languages: Vec<LanguageEntry>,
    computed_at: u64,
}

impl View for Snapshot {
    type V = SnapshotModel;

    closed spec fn view(&self) -> SnapshotModel {
        SnapshotModel {
            languages: entries_of(self.languages@),
            computed_at: self.computed_at as nat,
        }
    }
}

impl Clone for Snapshot {
    fn clone(&self) -> (r: Self)
        ensures
            r@ == self@,
    {
        proof {
            use_type_invariant(self);
        }
        Snapshot { languages: clone_entries(&self.languages), computed_at: self.computed_at }
    }
}

impl Snapshot {
    #[verifier::type_invariant]
    spec fn well_formed(self) -> bool {
        total_lines(entries_of(self.languages@)) <= u64::MAX
    }

    /// Makes a snapshot, or `None` when the lines of all languages
    /// together do not fit in sixty-four bits.
    pub fn new(languages: Vec<LanguageEntry>, computed_at: u64) -> (r: Option<Snapshot>)
        ensures
            r is Some <==> total_lines(entries_of(languages@)) <= u64::MAX,
            r matches Some(snapshot) ==> snapshot@ == (SnapshotModel {
                languages: entries_of(languages@),
                computed_at: computed_at as nat,
            }),
    {
        let ghost all = entries_of(languages@);
        let mut total: u64 = 0;
        let mut i: usize = 0;
        assert(all.take(0) =~= Seq::<LanguageEntryModel>::empty());
        while i < languages.len()
            invariant
                i <= languages.len(),
                all == entries_of(languages@),
                total == total_lines(all.take(i as int)),
            decreases languages.len() - i,
        {
            let lines = languages[i].stats.lines();
            proof {
                assert(all.take(i + 1).drop_last() =~= all.take(i as int));
                assert(all.take(i + 1).last() == languages@[i as int]@);
                lemma_total_lines_grows(all, i + 1);
            }
            match total.checked_add(lines) {
                None => {
                    return None;
                },
                Some(sum) => {
                    total = sum;
                },
            }
            i += 1;
        }
        assert(all.take(languages@.len() as int) =~= all);
        Some(Snapshot { languages, computed_at })
    }

    /// The languages of the snapshot, in order.
    pub fn languages(&self) -> (r: &Vec<LanguageEntry>)
        ensures
            entries_of(r@) == self@.languages,
            total_lines(self@.languages) <= u64::MAX,
    {
        proof {
            use_type_invariant(self);
        }
        &self.languages
    }

    /// The time at which the snapshot was computed, in seconds.
    pub fn computed_at(&self) -> (r: u64)
        ensures
            r == self@.computed_at,
    {
        self.computed_at
    }
}

/// The place at which an entry with `code` lines of code goes among
/// `ranked`: behind the leading entries that have at least as many.
pub open spec fn place_for(ranked: Seq<LanguageEntryModel>, code: nat) -> int
    decreases ranked.len(),
{
    if ranked.len() == 0 {
        0
    } else if ranked[0].stats.code >= code {
        1 + place_for(ranked.drop_first(), code)
    } else {
        0
    }
}

/// The languages in the order of their lines of code, the most first;
/// languages with equally many keep the order in which they were given.
pub open spec fn ranked(languages: Seq<LanguageEntryModel>) -> Seq<LanguageEntryModel>
    decreases languages.len(),
{
    if languages.len() == 0 {
        Seq::empty()
    } else {
        let before = ranked(languages.drop_last());
        before.insert(place_for(before, languages.last().stats.code), languages.last())
    }
}

/// Whether no language stands before one with more lines of code.
pub open spec fn is_ranked(languages: Seq<LanguageEntryModel>) -> bool {
    forall|i: int, j: int|
        0 <= i < j < languages.len() ==> (#[trigger] languages[i]).stats.code
            >= (#[trigger] languages[j]).stats.code
}

/// The place for an entry lies within the sequence; all before it have at
/// least as many lines of code, and the entry at it, if any, has fewer.
pub proof fn lemma_place_for(ranked: Seq<LanguageEntryModel>, code: nat)
    ensures
        0 <= place_for(ranked, code) <= ranked.len(),
        forall|i: int|
            0 <= i < place_for(ranked, code) ==> (#[trigger] ranked[i]).stats.code >= code,
        place_for(ranked, code) < ranked.len() ==> ranked[place_for(ranked, code)].stats.code
            < code,
    decreases ranked.len(),
{
    if ranked.len() > 0 && ranked[0].stats.code >= code {
        let rest = ranked.drop_first();
        lemma_place_for(rest, code);
        assert forall|i: int| 0 <= i < place_for(ranked, code) implies (#[trigger] ranked[i]).stats.code
            >= code by {
            if i > 0 {
                assert(ranked[i] == rest[i - 1]);
            }
        }
        if place_for(ranked, code) < ranked.len() {
            assert(ranked[place_for(ranked, code)] == rest[place_for(rest, code)]);
        }
    }
}

/// Ranking puts the languages in order and neither adds nor drops one.
pub proof fn lemma_ranked(languages: Seq<LanguageEntryModel>)
    ensures
        is_ranked(ranked(languages)),
        ranked(languages).len() == languages.len(),
        ranked(languages).to_multiset() == languages.to_multiset(),
    decreases languages.len(),
{
    if languages.len() == 0 {
        assert(languages =~= Seq::empty());
    } else {
        let rest = languages.drop_last();
        let last = languages.last();
        lemma_ranked(rest);
        let before = ranked(rest);
        let place = place_for(before, last.stats.code);
        lemma_place_for(before, last.stats.code);
        let after = before.insert(place, last);
        assert forall|i: int, j: int| 0 <= i < j < after.len() implies (#[trigger] after[i]).stats.code
            >= (#[trigger] after[j]).stats.code by {
            if j < place {
                assert(after[i] == before[i] && after[j] == before[j]);
            } else if j == place {
                assert(after[i] == before[i]);
            } else if i < place {
                assert(after[i] == before[i] && after[j] == before[j - 1]);
                if place < before.len() {
                    assert(before[place].stats.code >= before[j - 1].stats.code || j - 1 == place);
                }
            } else if i == place {
                assert(after[j] == before[j - 1]);
                assert(before[place].stats.code >= before[j - 1].stats.code || j - 1 == place);
            } else {
                assert(after[i] == before[i - 1] && after[j] == before[j - 1]);
            }
        }
        vstd::seq_lib::to_multiset_insert(before, place, last);
        assert(languages =~= rest.push(last));
        vstd::seq_lib::to_multiset_build(rest, last);
    }
}

/// The languages in the order of their lines of code, the most first;
/// languages with equally many keep the order in which they were given.
pub fn ranked_by_code(languages: Vec<LanguageEntry>) -> (r: Vec<LanguageEntry>)
    ensures
        entries_of(r@) == ranked(entries_of(languages@)),
{
    let ghost given = entries_of(languages@);
    let mut sorted = languages;
    let mut i: usize = 0;
    assert(given.take(0) =~= Seq::empty());
    assert(entries_of(sorted@).take(0) =~= Seq::empty());
    while i < sorted.len()
        invariant
            i <= sorted.len(),
            sorted.len() == given.len(),
            entries_of(sorted@).take(i as int) == ranked(given.take(i as int)),
            entries_of(sorted@).skip(i as int) == given.skip(i as int),
        decreases sorted.len() - i,
    {
        let ghost before_all = entries_of(sorted@);
        let ghost before = ranked(given.take(i as int));
        let entry = sorted.remove(i);
        let ghost rest = entries_of(sorted@);
        proof {
            assert(before_all[i as int] == given.skip(i as int)[0]);
            assert(entry@ == given[i as int]);
            assert(rest =~= before_all.remove(i as int));
            assert(rest.take(i as int) =~= before);
            assert forall|k: int| 0 <= k < rest.len() - i implies rest.skip(i as int)[k]
                == given.skip(i + 1)[k] by {
                assert(rest[i + k] == before_all[i + k + 1]);
                assert(before_all[i + k + 1] == before_all.skip(i as int)[k + 1]);
            }
            assert(rest.skip(i as int) =~= given.skip(i + 1));
            assert(given.take(i + 1).drop_last() =~= given.take(i as int));
            assert(given.take(i + 1).last() == given[i as int]);
        }
        let code = entry.stats.code();
        let mut place: usize = 0;
        assert(before.skip(0) =~= before);
        while place < i && sorted[place].stats.code() >= code
            invariant
                place <= i <= sorted.len(),
                rest == entries_of(sorted@),
                rest.take(i as int) == before,
                place_for(before, code as nat) == place + place_for(
                    before.skip(place as int),
                    code as nat,
                ),
            decreases i - place,
        {
            proof {
                assert(before.skip(place as int)[0] == rest[place as int]);
                assert(rest[place as int] == sorted@[place as int]@);
                assert(before.skip(place as int).drop_first() =~= before.skip(place + 1));
            }
            place += 1;
        }
        proof {
            if place < i {
                assert(before.skip(place as int)[0] == rest[place as int]);
                assert(rest[place as int] == sorted@[place as int]@);
            } else {
                assert(before.skip(place as int).len() == 0);
            }
            assert(place_for(before, code as nat) == place);
        }
        sorted.insert(place, entry);
        proof {
            let after = entries_of(sorted@);
            assert(after =~= rest.insert(place as int, entry@));
            assert(after.take(i + 1) =~= before.insert(place as int, entry@));
            assert(after.skip(i + 1) =~= given.skip(i + 1));
        }
        i += 1;
    }
    assert(given.take(given.len() as int) =~= given);
    assert(entries_of(sorted@).take(sorted@.len() as int) =~= entries_of(sorted@));
    sorted
}

/// The snapshot that comes of an analysis which ended at `computed_at`:
/// its languages ranked by their lines of code.
///
/// A failure of the analysis is handed on. Counts that do not fit in a
/// snapshot are a failure of the analysis.
pub fn get_statistics(analysed: Result<Vec<LanguageEntry>, ComputeError>, computed_at: u64) -> (r:
    Result<Snapshot, ComputeError>)
    ensures
        match analysed {
            Err(e) => r == Err::<Snapshot, ComputeError>(e),
            Ok(languages) => if total_lines(entries_of(languages@)) <= u64::MAX {
                r matches Ok(snapshot) && snapshot@ == (SnapshotModel {
                    languages: ranked(entries_of(languages@)),
                    computed_at: computed_at as nat,
                })
            } else {
                r == Err::<Snapshot, ComputeError>(ComputeError::Analysis)
            },
        },
{
    match analysed {
        Err(e) => Err(e),
        Ok(languages) => {
            proof {
                lemma_ranked(entries_of(languages@));
                lemma_total_lines_of_multiset(
                    ranked(entries_of(languages@)),
                    entries_of(languages@),
                );
            }
            match Snapshot::new(ranked_by_code(languages), computed_at) {
                Some(snapshot) => Ok(snapshot),
                None => Err(ComputeError::Analysis),
            }
        },
    }
}

/// Languages that are the same but for their order have the same total
/// number of lines.
pub proof fn lemma_total_lines_of_multiset(a: Seq<LanguageEntryModel>, b: Seq<LanguageEntryModel>)
    requires
        a.to_multiset() == b.to_multiset(),
    ensures
        total_lines(a) == total_lines(b),
    decreases a.len(),
{
    assert(a.len() == b.len()) by {
        vstd::seq_lib::to_multiset_len(a);
        vstd::seq_lib::to_multiset_len(b);
    }
    if a.len() == 0 {
    } else {
        let last = a.last();
        assert(a =~= a.drop_last().push(last));
        vstd::seq_lib::to_multiset_build(a.drop_last(), last);
        assert(a.to_multiset().count(last) > 0);
        assert(b.to_multiset().count(last) > 0);
        vstd::seq_lib::to_multiset_contains(b, last);
        assert(b.contains(last));
        let k = choose|k: int| 0 <= k < b.len() && b[k] == last;
        vstd::seq_lib::to_multiset_remove(b, k);
        assert(a.drop_last().to_multiset() =~= a.to_multiset().remove(last));
        lemma_total_lines_of_multiset(a.drop_last(), b.remove(k));
        lemma_total_lines_remove(b, k);
    }
}

/// Taking one language out takes its lines out of the total.
pub proof fn lemma_total_lines_remove(languages: Seq<LanguageEntryModel>, k: int)
    requires
        0 <= k < languages.len(),
    ensures
        total_lines(languages) == total_lines(languages.remove(k)) + languages[k].stats.lines(),
    decreases languages.len(),
{
    if k == languages.len() - 1 {
        assert(languages.remove(k) =~= languages.drop_last());
    } else {
        lemma_total_lines_remove(languages.drop_last(), k);
        assert(languages.remove(k).drop_last() =~= languages.drop_last().remove(k));
        assert(languages.remove(k).last() == languages.last());
    }
}

} // verus!
