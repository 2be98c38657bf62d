//! The query engine: from the entry collection and a query to the ranked
//! results that a front-end shows.
//!
//! A query that evaluates as arithmetic gives one calculator result. Any
//! other query that is not empty is matched fuzzily against the entry names,
//! and the best matches are returned, best first.

use crate::desktop::{entry_views, DesktopEntry, EntryView};
use crate::ranking::{is_ranking, lemma_ranking_ranks, rank_first, ranking, ranking_of_first};
use crate::text::{optional_text, same, to_chars};
use fuzzy_matcher::skim::SkimMatcherV2;
use fuzzy_matcher::FuzzyMatcher;
use vstd::math::min;
use vstd::prelude::*;

verus! {

/// The most results that one query gives.
pub const MAX_RESULTS: usize = 8;

/// The longest text, in characters, that is handed to the fuzzy matcher: a
/// longer query matches nothing, and nothing matches a longer name.
pub const MAX_TEXT_LEN: usize = 0x10_0000;

/// One result of a query.
#[derive(Debug)]
pub enum SearchResult {
    /// An entry whose name matches the query.
    App(DesktopEntry),
    /// The value of the query read as arithmetic.
    CalcResult {
        /// The value as shown.
        display: String,
        /// The value as copied to the clipboard.
        value_to_copy: String,
    },
}

/// The mathematical value of a [`SearchResult`].
#[verifier::ext_equal]
pub enum ResultView {
    App(EntryView),
    CalcResult { display: Seq<char>, value_to_copy: Seq<char> },
}

impl View for SearchResult {
    type V = ResultView;

    open spec fn view(&self) -> ResultView {
        match self {
            SearchResult::App(entry) => ResultView::App(entry@),
            SearchResult::CalcResult { display, value_to_copy } => ResultView::CalcResult {
                display: display@,
                value_to_copy: value_to_copy@,
            },
        }
    }
}

impl Clone for SearchResult {
    fn clone(&self) -> (copy: Self)
        ensures
            copy == *self,
    {
        match self {
            SearchResult::App(entry) => SearchResult::App(entry.clone()),
            SearchResult::CalcResult { display, value_to_copy } => SearchResult::CalcResult {
                display: display.clone(),
                value_to_copy: value_to_copy.clone(),
            },
        }
    }
}

/// The values of a sequence of results.
pub open spec fn result_views(results: Seq<SearchResult>) -> Seq<ResultView> {
    results.map_values(|r: SearchResult| r@)
}

/// Whether a text is short enough for the fuzzy matcher.
pub open spec fn fits(text: Seq<char>) -> bool {
    text.len() <= MAX_TEXT_LEN
}

/// A blank: one of the four characters that the expression evaluator skips
/// between tokens.
pub open spec fn is_blank(c: char) -> bool {
    c == ' ' || c == '\t' || c == '\r' || c == '\n'
}

/// Whether a query holds anything but blanks.
pub open spec fn has_token(query: Seq<char>) -> bool {
    exists|i: int| 0 <= i < query.len() && !is_blank(#[trigger] query[i])
}

/// What the fuzzy matcher returns for a candidate text and a pattern: a
/// score where the pattern matches the text, `None` where it does not.
pub uninterp spec fn fuzzy_score(choice: Seq<char>, pattern: Seq<char>) -> Option<i64>;

/// `fuzzy_match` of a `SkimMatcherV2` in its default configuration that is
/// made for this one call. Such a matcher starts from empty buffers, and its
/// score depends on the two texts alone; a matcher that is used again
/// computes on what earlier calls left behind. The matcher adds up scores in
/// 32 bits; with texts within [`MAX_TEXT_LEN`] no sum leaves that range.
#[verifier::external_body]
fn fuzzy_match(choice: &str, pattern: &str) -> (score: Option<i64>)
    requires
        fits(choice@),
        fits(pattern@),
    ensures
        score == fuzzy_score(choice@, pattern@),
{
    SkimMatcherV2::default().fuzzy_match(choice, pattern)
}

/// `meval::eval_str` with the built-in constants and functions. The number
/// that it computes is written as the standard library displays a 64-bit
/// float, so one that is not finite as `inf`, `-inf` or `NaN`; its error is
/// dropped. Nothing is claimed of what comes back: the mathematical
/// functions that an expression may call are as precise as the platform
/// makes them. On a query of nothing but blanks the tokenizer of the
/// evaluator panics, so such a query is not handed to it.
#[verifier::external_body]
fn evaluate(query: &str) -> (value: Option<String>)
    requires
        has_token(query@),
{
    meval::eval_str(query).ok().map(|number| number.to_string())
}

/// Whether a number written as decimal text is finite: the text is none of
/// those that stand for the infinities and for not-a-number.
pub open spec fn is_finite_text(value: Seq<char>) -> bool {
    !(value =~= "inf"@) && !(value =~= "-inf"@) && !(value =~= "NaN"@)
}

/// The calculator result for what the evaluator returned: one result that
/// shows and copies the value where the value is a finite number, none
/// otherwise.
pub open spec fn calculation(value: Option<Seq<char>>) -> Option<ResultView> {
    match value {
        Some(text) if is_finite_text(text) => Some(
            ResultView::CalcResult { display: text, value_to_copy: text },
        ),
        _ => None,
    }
}

/// Whether `results` is one calculator result, which shows and copies one
/// finite number.
pub open spec fn is_calculation(results: Seq<ResultView>) -> bool {
    &&& results.len() == 1
    &&& results[0] matches ResultView::CalcResult { display, value_to_copy }
    &&& display == value_to_copy
    &&& is_finite_text(display)
}

/// The score of a name for a query: what the fuzzy matcher returns for
/// them. A text beyond the limit is not handed to the matcher, and does not
/// match.
pub open spec fn match_score(name: Seq<char>, query: Seq<char>) -> Option<i64> {
    if fits(name) && fits(query) {
        fuzzy_score(name, query)
    } else {
        None
    }
}

/// The score of every entry's name for a query, in the order of the
/// collection.
pub open spec fn match_scores(entries: Seq<EntryView>, query: Seq<char>) -> Seq<Option<i64>> {
    entries.map_values(|entry: EntryView| match_score(entry.name, query))
}

/// The entries at the given places of the collection.
pub open spec fn entries_at(entries: Seq<EntryView>, order: Seq<int>) -> Seq<EntryView> {
    order.map_values(|i: int| entries[i])
}

/// The entries that the scores rank best, best first. The scores go with
/// the entries place by place; a score without an entry is left aside, and
/// an entry without a score has none.
pub open spec fn best(entries: Seq<EntryView>, scores: Seq<Option<i64>>) -> Seq<EntryView> {
    entries_at(
        entries,
        ranking_of_first(
            scores,
            MAX_RESULTS as nat,
            min(scores.len() as int, entries.len() as int),
        ),
    )
}

/// The entries that match a query best, best first; none for the empty
/// query.
pub open spec fn best_matching(entries: Seq<EntryView>, query: Seq<char>) -> Seq<EntryView> {
    if query.len() == 0 {
        Seq::empty()
    } else {
        best(entries, match_scores(entries, query))
    }
}

/// The results of a query for which the expression evaluator gave `value`:
/// the calculator result alone where that is a finite number, else the best
/// matching entries.
pub open spec fn search_results(
    entries: Seq<EntryView>,
    query: Seq<char>,
    value: Option<Seq<char>>,
) -> Seq<ResultView> {
    match calculation(value) {
        Some(result) => seq![result],
        None => best_matching(entries, query).map_values(|entry: EntryView| ResultView::App(entry)),
    }
}

/// Decides [`fits`]: whether a query or an entry name is short enough to
/// take part in a search.
pub fn within_limit(text: &str) -> (ok: bool)
    ensures
        ok == fits(text@),
{
    text.unicode_len() <= MAX_TEXT_LEN
}

/// Computes [`calculation`] for the text that the evaluator returned.
pub fn calculator_result(value: Option<String>) -> (result: Option<SearchResult>)
    ensures
        match result {
            Some(r) => calculation(optional_text(value)) == Some(r@),
            None => calculation(optional_text(value)) is None,
        },
{
    match value {
        Some(text) => {
            let chars = to_chars(text.as_str());
            if same(&chars, &to_chars("inf")) || same(&chars, &to_chars("-inf")) || same(
                &chars,
                &to_chars("NaN"),
            ) {
                None
            } else {
                let value_to_copy = text.clone();
                Some(SearchResult::CalcResult { display: text, value_to_copy })
            }
        },
        None => None,
    }
}

/// Picks the entries that the given scores rank best, best first, at most
/// [`MAX_RESULTS`]. The scores go with the entries place by place.
pub fn select_best(entries: &[DesktopEntry], scores: &[Option<i64>]) -> (chosen: Vec<DesktopEntry>)
    ensures
        entry_views(chosen@) == best(entry_views(entries@), scores@),
        chosen@.len() == best(entry_views(entries@), scores@).len(),
        forall|k: int|
            0 <= k < chosen@.len() ==> (#[trigger] chosen@[k])@ == best(
                entry_views(entries@),
                scores@,
            )[k],
        chosen@.len() <= MAX_RESULTS,
{
    let count = if scores.len() <= entries.len() {
        scores.len()
    } else {
        entries.len()
    };
    let order = rank_first(scores, count, MAX_RESULTS);
    let mut chosen: Vec<DesktopEntry> = Vec::new();
    for k in 0..order.len()
        invariant
            forall|j: int| 0 <= j < order@.len() ==> #[trigger] order@[j] < entries@.len(),
            chosen@.len() == k,
            forall|j: int| 0 <= j < k ==> (#[trigger] chosen@[j])@ == entries@[order@[j] as int]@,
    {
        chosen.push(entries[order[k]].clone());
    }
    assert(entry_views(chosen@) =~= best(entry_views(entries@), scores@));
    assert forall|k: int| 0 <= k < chosen@.len() implies (#[trigger] chosen@[k])@ == best(
        entry_views(entries@),
        scores@,
    )[k] by {
        assert(entry_views(chosen@)[k] == chosen@[k]@);
    }
    chosen
}

/// Decides [`has_token`].
fn holds_token(query: &str) -> (found: bool)
    ensures
        found == has_token(query@),
{
    let chars = query.chars();
    for c in iter: chars
        invariant
            iter.seq() == query@,
            forall|j: int| 0 <= j < iter.index() ==> is_blank(#[trigger] query@[j]),
    {
        if !(c == ' ' || c == '\t' || c == '\r' || c == '\n') {
            assert(!is_blank(query@[iter.index() as int]));
            return true;
        }
    }
    false
}

/// Scores every entry's name against the query.
fn score_entries(entries: &[DesktopEntry], query: &str) -> (scores: Vec<Option<i64>>)
    ensures
        scores@ == match_scores(entry_views(entries@), query@),
{
    let query_fits = within_limit(query);
    let mut scores: Vec<Option<i64>> = Vec::new();
    for i in 0..entries.len()
        invariant
            query_fits == fits(query@),
            scores@.len() == i,
            forall|j: int|
                0 <= j < i ==> #[trigger] scores@[j] == match_score(entries@[j].name@, query@),
    {
        let name = entries[i].name.as_str();
        let score = if query_fits && within_limit(name) {
            fuzzy_match(name, query)
        } else {
            None
        };
        scores.push(score);
    }
    assert(scores@ =~= match_scores(entry_views(entries@), query@));
    scores
}

/// The entries whose names match the query, best match first, at most
/// [`MAX_RESULTS`]: ordered by descending score, entries of equal score in
/// the order of the collection. The empty query matches nothing, and texts
/// beyond [`MAX_TEXT_LEN`] are not matched.
pub fn best_matches(entries: &[DesktopEntry], query: &str) -> (chosen: Vec<DesktopEntry>)
    ensures
        entry_views(chosen@) == best_matching(entry_views(entries@), query@),
        chosen@.len() == best_matching(entry_views(entries@), query@).len(),
        forall|k: int|
            0 <= k < chosen@.len() ==> (#[trigger] chosen@[k])@ == best_matching(
                entry_views(entries@),
                query@,
            )[k],
        chosen@.len() <= MAX_RESULTS,
        query@.len() == 0 ==> chosen@.len() == 0,
{
    if query.is_empty() {
        let chosen: Vec<DesktopEntry> = Vec::new();
        assert(entry_views(chosen@) =~= best_matching(entry_views(entries@), query@));
        return chosen;
    }
    let scores = score_entries(entries, query);
    select_best(entries, &scores)
}

/// Wraps entries as results, keeping their order.
fn as_results(chosen: Vec<DesktopEntry>) -> (results: Vec<SearchResult>)
    ensures
        result_views(results@) == entry_views(chosen@).map_values(
            |entry: EntryView| ResultView::App(entry),
        ),
{
    let mut results: Vec<SearchResult> = Vec::new();
    for entry in iter: chosen
        invariant
            iter.seq() == chosen@,
            results@.len() == iter.index(),
            forall|j: int|
                0 <= j < results@.len() ==> (#[trigger] results@[j])@ == ResultView::App(
                    chosen@[j]@,
                ),
    {
        results.push(SearchResult::App(entry));
    }
    assert(result_views(results@) =~= entry_views(chosen@).map_values(
        |entry: EntryView| ResultView::App(entry),
    ));
    results
}

/// Answers a query for which the expression evaluator gave `value`, its
/// number as decimal text or `None`: a finite number is the only result,
/// whatever the entries are called; without one, the results are the
/// entries that match the query best, as [`best_matches`] gives them.
pub fn search_with(entries: &[DesktopEntry], query: &str, value: Option<String>) -> (results: Vec<
    SearchResult,
>)
    ensures
        result_views(results@) == search_results(
            entry_views(entries@),
            query@,
            optional_text(value),
        ),
        results@.len() == search_results(
            entry_views(entries@),
            query@,
            optional_text(value),
        ).len(),
        forall|k: int|
            0 <= k < results@.len() ==> (#[trigger] results@[k])@ == search_results(
                entry_views(entries@),
                query@,
                optional_text(value),
            )[k],
        results@.len() <= MAX_RESULTS,
{
    let results = match calculator_result(value) {
        Some(result) => {
            let mut results: Vec<SearchResult> = Vec::new();
            results.push(result);
            results
        },
        None => as_results(best_matches(entries, query)),
    };
    assert(result_views(results@) =~= search_results(
        entry_views(entries@),
        query@,
        optional_text(value),
    ));
    assert forall|k: int| 0 <= k < results@.len() implies (#[trigger] results@[k])@
        == search_results(entry_views(entries@), query@, optional_text(value))[k] by {
        assert(result_views(results@)[k] == results@[k]@);
    }
    results
}

/// Answers a query against the entry collection.
///
/// A query that evaluates as an arithmetic expression to a finite number
/// gives that number as the only result. Any other query gives the entries
/// that match it best, as [`best_matches`] does. The empty query gives
/// nothing, and a query of nothing but blanks is matched, not evaluated.
pub fn search(entries: &[DesktopEntry], query: &str) -> (results: Vec<SearchResult>)
    ensures
        is_calculation(result_views(results@)) || result_views(results@) == search_results(
            entry_views(entries@),
            query@,
            None,
        ),
        !has_token(query@) ==> result_views(results@) == search_results(
            entry_views(entries@),
            query@,
            None,
        ),
        results@.len() <= MAX_RESULTS,
        query@.len() == 0 ==> results@.len() == 0,
{
    let value = if holds_token(query) {
        evaluate(query)
    } else {
        None
    };
    search_with(entries, query, value)
}

/// The entries that match a query come in the order of the ranking of
/// their scores: by descending score, entries of equal score in the order
/// of the collection, and no more than [`MAX_RESULTS`] of them, the best.
pub proof fn lemma_matches_are_ranked(entries: Seq<EntryView>, query: Seq<char>)
    requires
        query.len() > 0,
    ensures
        best_matching(entries, query) == entries_at(
            entries,
            ranking(match_scores(entries, query), MAX_RESULTS as nat),
        ),
        is_ranking(
            match_scores(entries, query),
            MAX_RESULTS as nat,
            ranking(match_scores(entries, query), MAX_RESULTS as nat),
        ),
{
    lemma_ranking_ranks(match_scores(entries, query), MAX_RESULTS as nat);
}

} // verus!
