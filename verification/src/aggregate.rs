//! Aggregation: the statistics of a snapshot, or of chosen languages of
//! it, taken together.

use vstd::prelude::*;
use crate::stats::{
    entries_of, reports_of, total_lines, FileReport, LanguageEntry, LanguageEntryModel,
    LanguageStat, LanguageStatModel, Snapshot,
};
use crate::text::{is_listed, names_of};

verus! {

/// Whether a filter lets `language` through: an empty filter lets every
/// language through, any other only the languages it names.
pub open spec fn is_selected(filter: Seq<Seq<char>>, language: Seq<char>) -> bool {
    filter.len() == 0 || filter.contains(language)
}

/// The entries of `languages` that `filter` lets through, in order.
pub open spec fn selection(languages: Seq<LanguageEntryModel>, filter: Seq<Seq<char>>) -> Seq<
    LanguageEntryModel,
>
    decreases languages.len(),
{
    if languages.len() == 0 {
        Seq::empty()
    } else {
        let before = selection(languages.drop_last(), filter);
        if is_selected(filter, languages.last().language) {
            before.push(languages.last())
        } else {
            before
        }
    }
}

/// The statistics of all `languages` together: the counts added, the file
/// reports one language after the other in the order given.
pub open spec fn total(languages: Seq<LanguageEntryModel>) -> LanguageStatModel
    decreases languages.len(),
{
    if languages.len() == 0 {
        LanguageStatModel::nothing()
    } else {
        total(languages.drop_last()).merged(languages.last().stats)
    }
}

/// The statistics of the languages of a snapshot that `filter` lets
/// through, taken together.
pub open spec fn aggregate_of(languages: Seq<LanguageEntryModel>, filter: Seq<Seq<char>>) -> LanguageStatModel {
    total(selection(languages, filter))
}

/// The text that names the language at place `rank` among `chosen`, the
/// first place being 1: nothing when no language is to be shown, and a
/// notice when there is no language or no such place.
pub open spec fn ranking_text(show: bool, rank: nat, chosen: Seq<LanguageEntryModel>) -> Seq<
    char,
> {
    if !show {
        Seq::empty()
    } else if chosen.len() == 0 {
        "No Languages"@
    } else if rank == 0 || rank > chosen.len() {
        "N/A"@
    } else {
        chosen[rank - 1].language
    }
}

/// The sum, over the names of `languages`, of the statistics that each
/// name alone selects.
pub open spec fn sum_of_singles(languages: Seq<LanguageEntryModel>, names: Seq<Seq<char>>) -> LanguageStatModel
    decreases names.len(),
{
    if names.len() == 0 {
        LanguageStatModel::nothing()
    } else {
        sum_of_singles(languages, names.drop_last()).merged(
            aggregate_of(languages, seq![names.last()]),
        )
    }
}

/// What `filter` lets through of one more language.
pub proof fn lemma_selection_step(languages: Seq<LanguageEntryModel>, filter: Seq<Seq<char>>, i: int)
    requires
        0 <= i < languages.len(),
    ensures
        selection(languages.take(i + 1), filter) == if is_selected(filter, languages[i].language) {
            selection(languages.take(i), filter).push(languages[i])
        } else {
            selection(languages.take(i), filter)
        },
        total(selection(languages.take(i), filter).push(languages[i])) == total(
            selection(languages.take(i), filter),
        ).merged(languages[i].stats),
{
    assert(languages.take(i + 1).drop_last() =~= languages.take(i));
    assert(selection(languages.take(i), filter).push(languages[i]).drop_last() =~= selection(
        languages.take(i),
        filter,
    ));
}

/// The lines of a selection are among the lines of all languages.
pub proof fn lemma_selection_within(languages: Seq<LanguageEntryModel>, filter: Seq<Seq<char>>)
    ensures
        aggregate_of(languages, filter).lines() <= total_lines(languages),
        selection(languages, filter).len() <= languages.len(),
    decreases languages.len(),
{
    if languages.len() > 0 {
        lemma_selection_within(languages.drop_last(), filter);
        let before = selection(languages.drop_last(), filter);
        assert(before.push(languages.last()).drop_last() =~= before);
    }
}

/// Adding one language to a snapshot adds its counts to the sum of the
/// single-name aggregates exactly when one of the names is its own.
proof fn lemma_singles_step(languages: Seq<LanguageEntryModel>, names: Seq<Seq<char>>)
    requires
        languages.len() > 0,
        names.no_duplicates(),
    ensures
        ({
            let last = languages.last();
            let before = sum_of_singles(languages.drop_last(), names);
            let after = sum_of_singles(languages, names);
            if names.contains(last.language) {
                after.code == before.code + last.stats.code && after.comments == before.comments
                    + last.stats.comments && after.blanks == before.blanks + last.stats.blanks
                    && after.reports.len() == before.reports.len() + last.stats.reports.len()
            } else {
                after.code == before.code && after.comments == before.comments && after.blanks
                    == before.blanks && after.reports.len() == before.reports.len()
            }
        }),
    decreases names.len(),
{
    if names.len() > 0 {
        let last = languages.last();
        let rest = names.drop_last();
        let name = names.last();
        assert(rest.no_duplicates());
        lemma_singles_step(languages, rest);
        let single = seq![name];
        let chosen_before = selection(languages.drop_last(), single);
        assert(chosen_before.push(last).drop_last() =~= chosen_before);
        assert(single.contains(last.language) <==> name == last.language) by {
            if name == last.language {
                assert(single[0] == last.language);
            }
        }
        assert(names.contains(last.language) <==> rest.contains(last.language) || name
            == last.language) by {
            if rest.contains(last.language) {
                let j = choose|j: int| 0 <= j < rest.len() && rest[j] == last.language;
                assert(names[j] == last.language);
            }
            if name == last.language {
                assert(names[names.len() - 1] == last.language);
            }
            if names.contains(last.language) {
                let j = choose|j: int| 0 <= j < names.len() && names[j] == last.language;
                if j < rest.len() {
                    assert(rest[j] == last.language);
                }
            }
        }
        assert(!(rest.contains(last.language) && name == last.language)) by {
            if rest.contains(last.language) && name == last.language {
                let j = choose|j: int| 0 <= j < rest.len() && rest[j] == last.language;
                assert(names[j] == names[names.len() - 1]);
            }
        }
    }
}

/// Aggregating a snapshot with the empty filter gives, in every count and
/// in the number of files, the sum of the aggregates of its languages
/// taken one name at a time, when the names are distinct and every
/// language of the snapshot is among them.
pub proof fn lemma_aggregate_is_sum_of_singles(languages: Seq<LanguageEntryModel>, names: Seq<Seq<char>>)
    requires
        names.no_duplicates(),
        forall|i: int| 0 <= i < languages.len() ==> names.contains(#[trigger] languages[i].language),
    ensures
        sum_of_singles(languages, names).code == aggregate_of(languages, Seq::empty()).code,
        sum_of_singles(languages, names).comments == aggregate_of(languages, Seq::empty()).comments,
        sum_of_singles(languages, names).blanks == aggregate_of(languages, Seq::empty()).blanks,
        sum_of_singles(languages, names).lines() == aggregate_of(languages, Seq::empty()).lines(),
        sum_of_singles(languages, names).reports.len() == aggregate_of(
            languages,
            Seq::empty(),
        ).reports.len(),
    decreases languages.len(),
{
    let none = Seq::<Seq<char>>::empty();
    if languages.len() == 0 {
        assert(languages =~= Seq::empty());
        lemma_singles_of_nothing(names);
    } else {
        let rest = languages.drop_last();
        assert forall|i: int| 0 <= i < rest.len() implies names.contains(
            #[trigger] rest[i].language,
        ) by {
            assert(rest[i] == languages[i]);
        }
        lemma_aggregate_is_sum_of_singles(rest, names);
        lemma_singles_step(languages, names);
        assert(names.contains(languages[languages.len() - 1].language));
        let before = selection(rest, none);
        assert(before.push(languages.last()).drop_last() =~= before);
    }
}

/// Of no languages, every single-name aggregate is nothing.
proof fn lemma_singles_of_nothing(names: Seq<Seq<char>>)
    ensures
        sum_of_singles(Seq::empty(), names).code == 0,
        sum_of_singles(Seq::empty(), names).comments == 0,
        sum_of_singles(Seq::empty(), names).blanks == 0,
        sum_of_singles(Seq::empty(), names).reports.len() == 0,
    decreases names.len(),
{
    if names.len() > 0 {
        lemma_singles_of_nothing(names.drop_last());
    }
}

/// Taking one language out takes its counts out of the total.
proof fn lemma_total_remove(languages: Seq<LanguageEntryModel>, k: int)
    requires
        0 <= k < languages.len(),
    ensures
        total(languages).code == total(languages.remove(k)).code + languages[k].stats.code,
        total(languages).comments == total(languages.remove(k)).comments
            + languages[k].stats.comments,
        total(languages).blanks == total(languages.remove(k)).blanks + languages[k].stats.blanks,
    decreases languages.len(),
{
    if k == languages.len() - 1 {
        assert(languages.remove(k) =~= languages.drop_last());
    } else {
        lemma_total_remove(languages.drop_last(), k);
        assert(languages.remove(k).drop_last() =~= languages.drop_last().remove(k));
        assert(languages.remove(k).last() == languages.last());
    }
}

/// The counts of languages taken together do not depend on the order of
/// the languages.
pub proof fn lemma_total_ignores_order(a: Seq<LanguageEntryModel>, b: Seq<LanguageEntryModel>)
    requires
        a.to_multiset() == b.to_multiset(),
    ensures
        total(a).code == total(b).code,
        total(a).comments == total(b).comments,
        total(a).blanks == total(b).blanks,
        total(a).lines() == total(b).lines(),
    decreases a.len(),
{
    assert(a.len() == b.len()) by {
        vstd::seq_lib::to_multiset_len(a);
        vstd::seq_lib::to_multiset_len(b);
    }
    if a.len() > 0 {
        let last = a.last();
        assert(a =~= a.drop_last().push(last));
        vstd::seq_lib::to_multiset_build(a.drop_last(), last);
        assert(b.to_multiset().count(last) > 0);
        vstd::seq_lib::to_multiset_contains(b, last);
        let k = choose|k: int| 0 <= k < b.len() && b[k] == last;
        vstd::seq_lib::to_multiset_remove(b, k);
        assert(a.drop_last().to_multiset() =~= a.to_multiset().remove(last));
        lemma_total_ignores_order(a.drop_last(), b.remove(k));
        lemma_total_remove(b, k);
    }
}

/// Whether `filter` lets `language` through.
pub fn selects(filter: &Vec<String>, language: &str) -> (r: bool)
    ensures
        r == is_selected(names_of(filter@), language@),
{
    filter.len() == 0 || is_listed(filter, language)
}

/// Appends copies of `more` to `reports`.
fn append_reports(reports: &mut Vec<FileReport>, more: &Vec<FileReport>)
    ensures
        reports_of(final(reports)@) == reports_of(old(reports)@) + reports_of(more@),
{
    let mut i: usize = 0;
    assert(reports_of(more@).take(0) =~= Seq::empty());
    assert(reports_of(reports@) =~= reports_of(old(reports)@) + reports_of(more@).take(0));
    while i < more.len()
        invariant
            i <= more.len(),
            reports_of(reports@) == reports_of(old(reports)@) + reports_of(more@).take(i as int),
        decreases more.len() - i,
    {
        let ghost before = reports@;
        let copy = more[i].clone();
        assert(copy@ == more@[i as int]@);
        reports.push(copy);
        assert(reports_of(reports@) =~= reports_of(before).push(copy@));
        assert(reports_of(more@).take(i + 1) =~= reports_of(more@).take(i as int).push(copy@));
        assert(reports_of(reports@) =~= reports_of(old(reports)@) + reports_of(more@).take(i + 1));
        i += 1;
    }
    assert(reports_of(more@).take(more@.len() as int) =~= reports_of(more@));
}

/// The statistics of the languages of `snapshot` that `language_filter`
/// names, taken together; of all its languages when the filter is empty.
/// Names in the filter that the snapshot does not hold select nothing.
pub fn aggregate(snapshot: &Snapshot, language_filter: &Vec<String>) -> (r: LanguageStat)
    ensures
        r@ == aggregate_of(snapshot@.languages, names_of(language_filter@)),
{
    let languages = snapshot.languages();
    let ghost all = entries_of(languages@);
    let ghost filter = names_of(language_filter@);
    let mut code: u64 = 0;
    let mut comments: u64 = 0;
    let mut blanks: u64 = 0;
    let mut inaccurate = false;
    let mut reports: Vec<FileReport> = Vec::new();
    let mut i: usize = 0;
    assert(all.take(0) =~= Seq::<LanguageEntryModel>::empty());
    assert(reports_of(reports@) =~= Seq::empty());
    while i < languages.len()
        invariant
            i <= languages.len(),
            all == entries_of(languages@),
            filter == names_of(language_filter@),
            total_lines(all) <= u64::MAX,
            aggregate_of(all.take(i as int), filter) == (LanguageStatModel {
                code: code as nat,
                comments: comments as nat,
                blanks: blanks as nat,
                inaccurate,
                reports: reports_of(reports@),
            }),
        decreases languages.len() - i,
    {
        let entry = &languages[i];
        proof {
            assert(all[i as int] == entry@);
            lemma_selection_step(all, filter, i as int);
            lemma_selection_within(all.take(i + 1), filter);
            crate::stats::lemma_total_lines_grows(all, i + 1);
        }
        if selects(language_filter, entry.language.as_str()) {
            code = code + entry.stats.code();
            comments = comments + entry.stats.comments();
            blanks = blanks + entry.stats.blanks();
            inaccurate = inaccurate || entry.stats.inaccurate();
            append_reports(&mut reports, entry.stats.reports());
        }
        i += 1;
    }
    proof {
        assert(all.take(languages@.len() as int) =~= all);
        lemma_selection_within(all, filter);
    }
    LanguageStat::of_counts(code, comments, blanks, inaccurate, reports)
}

/// The languages of `snapshot` that `language_filter` names, in order;
/// all its languages when the filter is empty.
pub fn select_languages(snapshot: &Snapshot, language_filter: &Vec<String>) -> (r: Vec<LanguageEntry>)
    ensures
        entries_of(r@) == selection(snapshot@.languages, names_of(language_filter@)),
{
    let languages = snapshot.languages();
    let ghost all = entries_of(languages@);
    let ghost filter = names_of(language_filter@);
    let mut chosen: Vec<LanguageEntry> = Vec::new();
    let mut i: usize = 0;
    assert(all.take(0) =~= Seq::<LanguageEntryModel>::empty());
    assert(entries_of(chosen@) =~= Seq::empty());
    while i < languages.len()
        invariant
            i <= languages.len(),
            all == entries_of(languages@),
            filter == names_of(language_filter@),
            entries_of(chosen@) == selection(all.take(i as int), filter),
        decreases languages.len() - i,
    {
        let entry = &languages[i];
        proof {
            assert(all[i as int] == entry@);
            lemma_selection_step(all, filter, i as int);
        }
        if selects(language_filter, entry.language.as_str()) {
            let ghost before = chosen@;
            let copy = entry.clone();
            chosen.push(copy);
            assert(entries_of(chosen@) =~= entries_of(before).push(entry@));
        }
        i += 1;
    }
    assert(all.take(languages@.len() as int) =~= all);
    chosen
}

/// The text that names the language at place `rank` among the chosen
/// languages, the first place being 1.
///
/// Gives the empty text when `show_language` is off, `No Languages` when
/// nothing was chosen, and `N/A` when `rank` is 0 or beyond the last
/// place.
pub fn ranking_language(show_language: bool, rank: usize, chosen: &Vec<LanguageEntry>) -> (r: String)
    ensures
        r@ == ranking_text(show_language, rank as nat, entries_of(chosen@)),
{
    if !show_language {
        String::new()
    } else if chosen.len() == 0 {
        "No Languages".to_owned()
    } else if rank == 0 || rank > chosen.len() {
        "N/A".to_owned()
    } else {
        chosen[rank - 1].language.clone()
    }
}

} // verus!
