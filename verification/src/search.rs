//! The lines of a text that hold a query.

use crate::fold::{lowercase, to_lowercase};
use crate::line::{lines, split_lines, texts_of};
use crate::pattern::{contains, lemma_occurs_everywhere_if_empty, occurs_in};
use crate::selection::{
    is_selection, kept_indices, lemma_filter_empty, lemma_filter_keeps_all,
    lemma_filter_narrower, lemma_filter_same, lemma_filter_selects,
};
use vstd::prelude::*;

verus! {

/// The test that a line passes when `query` occurs in it.
pub open spec fn holding(query: Seq<char>) -> spec_fn(Seq<char>) -> bool {
    |line: Seq<char>| occurs_in(query, line)
}

/// The test that a line passes when the lowercase form of `query` occurs in
/// the lowercase form of the line.
pub open spec fn holding_ignoring_case(query: Seq<char>) -> spec_fn(Seq<char>) -> bool {
    |line: Seq<char>| occurs_in(lowercase(query), lowercase(line))
}

/// The lines of `text` in which `query` occurs, in the order of the text.
pub open spec fn matching_lines(query: Seq<char>, text: Seq<char>) -> Seq<Seq<char>> {
    split_lines(text).filter(holding(query))
}

/// The lines of `text` in whose lowercase form the lowercase form of `query`
/// occurs, in the order of the text and as they stand in the text.
pub open spec fn matching_lines_ignoring_case(query: Seq<char>, text: Seq<char>) -> Seq<
    Seq<char>,
> {
    split_lines(text).filter(holding_ignoring_case(query))
}

/// No line of `text` passes `keep`.
pub open spec fn no_line_passes(text: Seq<char>, keep: spec_fn(Seq<char>) -> bool) -> bool {
    forall|i: int| 0 <= i < split_lines(text).len() ==> !keep(#[trigger] split_lines(text)[i])
}

/// The lines that a search returns are lines of the text in which the query
/// occurs; every such line of the text is among them, as often as it stands in
/// the text; and they come in the order of the text.
pub proof fn lemma_matching_lines_select(query: Seq<char>, text: Seq<char>)
    ensures
        is_selection(
            split_lines(text),
            holding(query),
            matching_lines(query, text),
            kept_indices(split_lines(text), holding(query)),
        ),
        matching_lines(query, text).len() <= split_lines(text).len(),
{
    lemma_filter_selects(split_lines(text), holding(query));
    split_lines(text).lemma_filter_len(holding(query));
}

/// The same holds of a search that ignores case, with its own test.
pub proof fn lemma_matching_lines_ignoring_case_select(query: Seq<char>, text: Seq<char>)
    ensures
        is_selection(
            split_lines(text),
            holding_ignoring_case(query),
            matching_lines_ignoring_case(query, text),
            kept_indices(split_lines(text), holding_ignoring_case(query)),
        ),
        matching_lines_ignoring_case(query, text).len() <= split_lines(text).len(),
{
    lemma_filter_selects(split_lines(text), holding_ignoring_case(query));
    split_lines(text).lemma_filter_len(holding_ignoring_case(query));
}

/// A search for the empty query returns every line of the text.
pub proof fn lemma_empty_query_matches_every_line(query: Seq<char>, text: Seq<char>)
    requires
        query.len() == 0,
    ensures
        matching_lines(query, text) == split_lines(text),
{
    let all = split_lines(text);
    assert forall|i: int| 0 <= i < all.len() implies holding(query)(#[trigger] all[i]) by {
        lemma_occurs_everywhere_if_empty(query, all[i]);
    }
    lemma_filter_keeps_all(all, holding(query));
}

/// A search returns nothing exactly when the query occurs in no line of the
/// text.
pub proof fn lemma_no_match_is_empty(query: Seq<char>, text: Seq<char>)
    ensures
        matching_lines(query, text).len() == 0 <==> no_line_passes(text, holding(query)),
        matching_lines_ignoring_case(query, text).len() == 0 <==> no_line_passes(
            text,
            holding_ignoring_case(query),
        ),
{
    lemma_filter_empty(split_lines(text), holding(query));
    lemma_filter_empty(split_lines(text), holding_ignoring_case(query));
}

/// Two searches for the same query in the same text return the same lines in
/// the same order: what a search returns is a function of the characters of
/// its two arguments.
pub proof fn lemma_search_repeats(
    query: Seq<char>,
    text: Seq<char>,
    first: Seq<Seq<char>>,
    second: Seq<Seq<char>>,
)
    requires
        first == matching_lines(query, text),
        second == matching_lines(query, text),
    ensures
        first == second,
{
}

/// Two searches that ignore case, for the same query in the same text, return
/// the same lines in the same order.
pub proof fn lemma_search_ignoring_case_repeats(
    query: Seq<char>,
    text: Seq<char>,
    first: Seq<Seq<char>>,
    second: Seq<Seq<char>>,
)
    requires
        first == matching_lines_ignoring_case(query, text),
        second == matching_lines_ignoring_case(query, text),
    ensures
        first == second,
{
}

/// Lowercasing keeps the occurrences of `query` in the lines of `text`: the
/// lowercase form of `query` occurs in the lowercase form of every line in
/// which `query` occurs.
///
/// This holds wherever each character is lowercased by itself. A capital
/// sigma is not: it is lowercased by its place in the word, so that the
/// lowercase form of "Σ" does not occur in the lowercase form of "ΑΣ".
pub open spec fn folding_keeps_matches(query: Seq<char>, text: Seq<char>) -> bool {
    forall|i: int|
        0 <= i < split_lines(text).len() && occurs_in(query, #[trigger] split_lines(text)[i])
            ==> occurs_in(lowercase(query), lowercase(split_lines(text)[i]))
}

/// `query` and every line of `text` are their own lowercase forms.
pub open spec fn is_all_lowercase(query: Seq<char>, text: Seq<char>) -> bool {
    &&& lowercase(query) == query
    &&& forall|i: int|
        0 <= i < split_lines(text).len() ==> lowercase(#[trigger] split_lines(text)[i])
            == split_lines(text)[i]
}

/// Where lowercasing keeps the occurrences of the query, a search that ignores
/// case finds every line that the plain search finds: the plain result is
/// made of lines of the other result, in the same order, and is no longer.
pub proof fn lemma_ignoring_case_finds_more(query: Seq<char>, text: Seq<char>)
    requires
        folding_keeps_matches(query, text),
    ensures
        matching_lines(query, text) == matching_lines_ignoring_case(query, text).filter(
            holding(query),
        ),
        matching_lines(query, text).len() <= matching_lines_ignoring_case(query, text).len(),
{
    lemma_filter_narrower(split_lines(text), holding(query), holding_ignoring_case(query));
}

/// Where the query and every line are lowercase already, the two searches
/// return the same lines.
pub proof fn lemma_ignoring_case_same_on_lowercase(query: Seq<char>, text: Seq<char>)
    requires
        is_all_lowercase(query, text),
    ensures
        matching_lines_ignoring_case(query, text) == matching_lines(query, text),
{
    lemma_filter_same(split_lines(text), holding_ignoring_case(query), holding(query));
}

/// Returns the lines of `contents` in which `query` occurs, in their order.
///
/// Every line is returned for the empty query, and nothing where the query
/// occurs in no line.
pub fn search<'a>(query: &str, contents: &'a str) -> (matches: Vec<&'a str>)
    ensures
        texts_of(matches@) == matching_lines(query@, contents@),
        is_selection(
            split_lines(contents@),
            holding(query@),
            texts_of(matches@),
            kept_indices(split_lines(contents@), holding(query@)),
        ),
        matches@.len() <= split_lines(contents@).len(),
        query@.len() == 0 ==> texts_of(matches@) == split_lines(contents@),
        matches@.len() == 0 <==> no_line_passes(contents@, holding(query@)),
{
    proof {
        lemma_matching_lines_select(query@, contents@);
        lemma_no_match_is_empty(query@, contents@);
        if query@.len() == 0 {
            lemma_empty_query_matches_every_line(query@, contents@);
        }
    }
    let all = lines(contents);
    let mut matches: Vec<&'a str> = Vec::new();
    let mut i: usize = 0;
    while i < all.len()
        invariant
            i <= all@.len(),
            texts_of(matches@) == texts_of(all@).take(i as int).filter(holding(query@)),
        decreases all@.len() - i,
    {
        let line = all[i];
        proof {
            let seen = texts_of(all@).take(i as int);
            assert(texts_of(all@).take(i + 1) =~= seen.push(line@));
            seen.lemma_filter_push(line@, holding(query@));
            assert(texts_of(matches@.push(line)) =~= texts_of(matches@).push(line@));
        }
        if contains(line, query) {
            matches.push(line);
        }
        i += 1;
    }
    assert(texts_of(all@).take(i as int) =~= texts_of(all@));
    matches
}

/// Returns the lines of `contents` in which `query` occurs when upper and
/// lower case are taken as one. The lines are returned as they stand in
/// `contents`.
pub fn search_case_insensitive<'a>(query: &str, contents: &'a str) -> (matches: Vec<&'a str>)
    ensures
        texts_of(matches@) == matching_lines_ignoring_case(query@, contents@),
        is_selection(
            split_lines(contents@),
            holding_ignoring_case(query@),
            texts_of(matches@),
            kept_indices(split_lines(contents@), holding_ignoring_case(query@)),
        ),
        matches@.len() <= split_lines(contents@).len(),
        matches@.len() == 0 <==> no_line_passes(contents@, holding_ignoring_case(query@)),
{
    proof {
        lemma_matching_lines_ignoring_case_select(query@, contents@);
        lemma_no_match_is_empty(query@, contents@);
    }
    let folded_query = to_lowercase(query);
    let all = lines(contents);
    let mut matches: Vec<&'a str> = Vec::new();
    let mut i: usize = 0;
    while i < all.len()
        invariant
            i <= all@.len(),
            folded_query@ == lowercase(query@),
            texts_of(matches@) == texts_of(all@).take(i as int).filter(
                holding_ignoring_case(query@),
            ),
        decreases all@.len() - i,
    {
        let line = all[i];
        proof {
            let seen = texts_of(all@).take(i as int);
            assert(texts_of(all@).take(i + 1) =~= seen.push(line@));
            seen.lemma_filter_push(line@, holding_ignoring_case(query@));
            assert(texts_of(matches@.push(line)) =~= texts_of(matches@).push(line@));
        }
        let folded_line = to_lowercase(line);
        if contains(folded_line.as_str(), folded_query.as_str()) {
            matches.push(line);
        }
        i += 1;
    }
    assert(texts_of(all@).take(i as int) =~= texts_of(all@));
    matches
}

} // verus!
