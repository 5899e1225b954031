//! The fuzzy filter of the file list.

use crate::diff::str_views;
use crate::rows::ints;
use crate::text::{trim, trimmed};
use fuzzy_matcher::skim::SkimMatcherV2;
use fuzzy_matcher::FuzzyMatcher;
use vstd::prelude::*;

verus! {

// --- The matcher -----------------------------------------------------------

/// The matcher of `fuzzy_matcher`, as an opaque value.
#[verifier::external_type_specification]
#[verifier::external_body]
pub struct ExSkimMatcherV2(SkimMatcherV2);

/// The calls that a matcher has answered: the text and the query of each. A
/// matcher keeps the cells of its score table from call to call and does not
/// clear all of them, so an answer may depend on what was asked before. It keeps
/// them for each thread apart: this holds of a matcher that is used by one thread,
/// as it is below, where each filter makes its own.
pub uninterp spec fn skim_calls(matcher: SkimMatcherV2) -> Seq<(Seq<char>, Seq<char>)>;

/// The score that a matcher gives a text for a query, after the calls `earlier`;
/// `None` if the text does not match.
pub uninterp spec fn skim_score(
    earlier: Seq<(Seq<char>, Seq<char>)>,
    path: Seq<char>,
    query: Seq<char>,
) -> Option<i64>;

/// The longest text that is matched, in characters. The matcher sums scores of up
/// to 32 a character, and penalties, in 32 bits, and keeps two cells of 16 bytes
/// for each character; up to this length no sum overflows, and the cells fit where
/// addresses have 32 bits.
pub const MAX_FUZZY_CHARS: usize = 0x0100_0000;

/// Whether a query has an upper case ASCII letter, which makes it case sensitive.
pub open spec fn case_sensitive(query: Seq<char>) -> bool {
    exists|i: int| 0 <= i < query.len() && 'A' <= #[trigger] query[i] <= 'Z'
}

/// The lower case of an ASCII letter; any other character unchanged.
pub open spec fn ascii_lower(c: char) -> char {
    if 'A' <= c <= 'Z' {
        ((c as u32) + 32) as char
    } else {
        c
    }
}

/// Whether a character of a text can stand for a character of the query.
pub open spec fn same_letter(c: char, q: char, sensitive: bool) -> bool {
    if sensitive {
        c == q
    } else {
        ascii_lower(c) == ascii_lower(q)
    }
}

/// Whether the characters of `path` at the ascending indices `at` are the query.
pub open spec fn picks(path: Seq<char>, query: Seq<char>, at: Seq<int>) -> bool {
    &&& at.len() == query.len()
    &&& forall|i: int|
        0 <= i < at.len() ==> 0 <= #[trigger] at[i] < path.len() && same_letter(
            path[at[i]],
            query[i],
            case_sensitive(query),
        )
    &&& forall|i: int, j: int| 0 <= i < j < at.len() ==> at[i] < at[j]
}

/// Whether the characters of the query occur in `path` in their order. Case
/// matters only if the query has upper case letters.
pub open spec fn contains_in_order(path: Seq<char>, query: Seq<char>) -> bool {
    exists|at: Seq<int>| #[trigger] picks(path, query, at)
}

/// `SkimMatcherV2::default`: a matcher that has answered no call yet.
#[verifier::external_body]
fn new_matcher() -> (matcher: SkimMatcherV2)
    ensures
        skim_calls(matcher) == Seq::<(Seq<char>, Seq<char>)>::empty(),
{
    SkimMatcherV2::default()
}

/// `fuzzy_match` of `SkimMatcherV2`: the score of `path` for `query`. The score is
/// a function of the two texts and of the calls before; there is one exactly if
/// the query's characters occur in the path in their order. The call is added to
/// those that the matcher has answered.
#[verifier::external_body]
fn skim_match(matcher: &mut SkimMatcherV2, path: &str, query: &str) -> (score: Option<i64>)
    requires
        path@.len() <= MAX_FUZZY_CHARS,
    ensures
        score == skim_score(skim_calls(*old(matcher)), path@, query@),
        skim_calls(*final(matcher)) == skim_calls(*old(matcher)).push((path@, query@)),
        score is Some <==> contains_in_order(path@, query@),
{
    matcher.fuzzy_match(path, query)
}

// --- Ranking ---------------------------------------------------------------

/// Whether item `i` is ranked before item `j`: its score is higher, or the scores
/// are equal and it comes first.
pub open spec fn ranked_before(scores: Seq<Option<i64>>, i: int, j: int) -> bool {
    scores[i]->0 > scores[j]->0 || (scores[i]->0 == scores[j]->0 && i < j)
}

/// Whether `ranked` lists the items that have a score, best first.
pub open spec fn is_ranking(scores: Seq<Option<i64>>, ranked: Seq<int>) -> bool {
    &&& forall|a: int|
        0 <= a < ranked.len() ==> 0 <= #[trigger] ranked[a] < scores.len()
            && scores[ranked[a]] is Some
    &&& forall|i: int|
        0 <= i < scores.len() && (#[trigger] scores[i]) is Some ==> ranked.contains(i)
    &&& forall|a: int, b: int|
        0 <= a < b < ranked.len() ==> ranked_before(scores, #[trigger] ranked[a], #[trigger] ranked[b])
}

fn is_below(other: Option<i64>, score: i64) -> (r: bool)
    ensures
        r == (other matches Some(o) && o < score),
{
    match other {
        Some(o) => o < score,
        None => false,
    }
}

/// The items that have a score, best first; equal scores keep their order.
pub fn rank_matches(scores: &[Option<i64>]) -> (ranked: Vec<usize>)
    ensures
        is_ranking(scores@, ints(ranked@)),
{
    let mut ranked: Vec<usize> = Vec::new();
    for ix in 0..scores.len()
        invariant
            is_ranking(scores@.take(ix as int), ints(ranked@)),
    {
        let ghost known = scores@.take(ix as int);
        let ghost more = scores@.take(ix + 1);
        let ghost before = ints(ranked@);
        assert(more =~= known.push(scores@[ix as int]));
        if let Some(score) = scores[ix] {
            let mut at: usize = ranked.len();
            while at > 0 && is_below(scores[ranked[at - 1]], score)
                invariant
                    at <= ranked.len(),
                    ix < scores.len(),
                    before == ints(ranked@),
                    known == scores@.take(ix as int),
                    is_ranking(known, before),
                    forall|a: int| 0 <= a < ranked.len() ==> #[trigger] ranked@[a] == before[a],
                    forall|a: int| at <= a < before.len() ==> known[#[trigger] before[a]]->0 < score,
                decreases at,
            {
                at -= 1;
                assert(known[before[at as int]] == scores@[ranked@[at as int] as int]);
            }
            proof {
                if at > 0 {
                    assert(before[at - 1] == ranked@[at - 1]);
                    assert(known[before[at - 1]] == scores@[ranked@[at - 1] as int]);
                }
            }
            ranked.insert(at, ix);
            proof {
                assert(ints(ranked@) =~= before.insert(at as int, ix as int));
                lemma_rank_insert(known, more, before, at as int, score);
            }
        } else {
            proof {
                lemma_rank_skip(known, more, before);
            }
        }
    }
    assert(scores@.take(scores.len() as int) =~= scores@);
    ranked
}

proof fn lemma_rank_skip(known: Seq<Option<i64>>, more: Seq<Option<i64>>, ranked: Seq<int>)
    requires
        is_ranking(known, ranked),
        more == known.push(None),
    ensures
        is_ranking(more, ranked),
{
    assert forall|i: int| 0 <= i < more.len() && (#[trigger] more[i]) is Some implies ranked.contains(
        i,
    ) by {
        assert(more[i] == known[i]);
    }
    assert forall|a: int, b: int| 0 <= a < b < ranked.len() implies ranked_before(
        more,
        #[trigger] ranked[a],
        #[trigger] ranked[b],
    ) by {
        assert(ranked_before(known, ranked[a], ranked[b]));
    }
}

proof fn lemma_rank_insert(
    known: Seq<Option<i64>>,
    more: Seq<Option<i64>>,
    before: Seq<int>,
    at: int,
    score: i64,
)
    requires
        is_ranking(known, before),
        more == known.push(Some(score)),
        0 <= at <= before.len(),
        forall|a: int| at <= a < before.len() ==> known[#[trigger] before[a]]->0 < score,
        at > 0 ==> known[before[at - 1]]->0 >= score,
    ensures
        is_ranking(more, before.insert(at, known.len() as int)),
{
    let ix = known.len() as int;
    let after = before.insert(at, ix);
    assert forall|a: int| 0 <= a < at implies known[#[trigger] before[a]]->0 >= score by {
        if a < at - 1 {
            assert(ranked_before(known, before[a], before[at - 1]));
        }
    }
    assert forall|a: int| 0 <= a < after.len() implies 0 <= #[trigger] after[a] < more.len()
        && more[after[a]] is Some by {
        if a < at {
            assert(after[a] == before[a]);
        } else if a > at {
            assert(after[a] == before[a - 1]);
        }
    }
    assert forall|i: int| 0 <= i < more.len() && (#[trigger] more[i]) is Some implies after.contains(
        i,
    ) by {
        if i == ix {
            assert(after[at] == i);
        } else {
            assert(known[i] == more[i]);
            let a = choose|a: int| 0 <= a < before.len() && before[a] == i;
            if a < at {
                assert(after[a] == i);
            } else {
                assert(after[a + 1] == i);
            }
        }
    }
    assert forall|a: int, b: int| 0 <= a < b < after.len() implies ranked_before(
        more,
        #[trigger] after[a],
        #[trigger] after[b],
    ) by {
        if b < at {
            assert(after[a] == before[a] && after[b] == before[b]);
            assert(ranked_before(known, before[a], before[b]));
        } else if b == at {
            assert(after[a] == before[a]);
        } else if a < at {
            assert(after[a] == before[a] && after[b] == before[b - 1]);
            assert(ranked_before(known, before[a], before[b - 1]));
        } else if a == at {
            assert(after[b] == before[b - 1]);
        } else {
            assert(after[a] == before[a - 1] && after[b] == before[b - 1]);
            assert(ranked_before(known, before[a - 1], before[b - 1]));
        }
    }
}

// --- The filter ------------------------------------------------------------

/// The calls that match each of `paths` against one query.
pub open spec fn calls_for(paths: Seq<Seq<char>>, query: Seq<char>) -> Seq<(Seq<char>, Seq<char>)> {
    paths.map_values(|path: Seq<char>| (path, query))
}

/// The scores of the paths, matched in their order by one new matcher.
pub open spec fn path_scores(paths: Seq<Seq<char>>, query: Seq<char>) -> Seq<Option<i64>> {
    Seq::new(paths.len(), |i: int| skim_score(calls_for(paths.take(i), query), paths[i], query))
}

/// Whether `listed` are the files that the filter `query` lists: all files if the
/// query is blank, else those that match it, best first.
pub open spec fn is_filtered(paths: Seq<Seq<char>>, query: Seq<char>, listed: Seq<int>) -> bool {
    if trimmed(query).len() == 0 {
        listed == Seq::new(paths.len(), |i: int| i)
    } else {
        is_ranking(path_scores(paths, trimmed(query)), listed)
    }
}

/// Whether no path is too long to be matched.
pub open spec fn matchable(paths: Seq<Seq<char>>) -> bool {
    forall|i: int| 0 <= i < paths.len() ==> (#[trigger] paths[i]).len() <= MAX_FUZZY_CHARS
}

/// Whether no path is too long to be matched.
pub fn are_matchable(paths: &[&str]) -> (r: bool)
    ensures
        r == matchable(str_views(paths@)),
{
    let ghost views = str_views(paths@);
    for i in 0..paths.len()
        invariant
            views == str_views(paths@),
            forall|j: int| 0 <= j < i ==> (#[trigger] views[j]).len() <= MAX_FUZZY_CHARS,
    {
        assert(views[i as int] == paths@[i as int]@);
        if paths[i].unicode_len() > MAX_FUZZY_CHARS {
            return false;
        }
    }
    true
}

/// The files that the filter `query` lists.
pub fn fuzzy_file_matches(paths: &[&str], query: &str) -> (listed: Vec<usize>)
    requires
        trimmed(query@).len() > 0 ==> matchable(str_views(paths@)),
    ensures
        is_filtered(str_views(paths@), query@, ints(listed@)),
        trimmed(query@).len() > 0 ==> forall|i: int|
            #![trigger ints(listed@).contains(i)]
            ints(listed@).contains(i) <==> 0 <= i < paths.len() && contains_in_order(
                str_views(paths@)[i],
                trimmed(query@),
            ),
{
    let ghost views = str_views(paths@);
    let query = trim(query);
    if query.is_empty() {
        let mut all: Vec<usize> = Vec::new();
        for i in 0..paths.len()
            invariant
                ints(all@) == Seq::new(i as nat, |j: int| j),
        {
            let ghost before = ints(all@);
            all.push(i);
            assert(ints(all@) =~= before.push(i as int));
            assert(ints(all@) =~= Seq::new((i + 1) as nat, |j: int| j));
        }
        return all;
    }
    let mut matcher = new_matcher();
    let mut scores: Vec<Option<i64>> = Vec::new();
    let ghost wanted = path_scores(views, query@);
    assert(calls_for(views.take(0), query@) =~= seq![]);
    for i in 0..paths.len()
        invariant
            views == str_views(paths@),
            matchable(views),
            wanted == path_scores(views, query@),
            skim_calls(matcher) == calls_for(views.take(i as int), query@),
            scores@ == wanted.take(i as int),
            forall|j: int|
                0 <= j < i ==> ((#[trigger] wanted[j]) is Some <==> contains_in_order(
                    views[j],
                    query@,
                )),
    {
        assert(views[i as int] == paths@[i as int]@);
        let score = skim_match(&mut matcher, paths[i], query);
        scores.push(score);
        proof {
            assert(wanted[i as int] == score);
            assert(scores@ =~= wanted.take(i + 1));
            assert(calls_for(views.take(i + 1), query@) =~= calls_for(
                views.take(i as int),
                query@,
            ).push((views[i as int], query@)));
        }
    }
    assert(wanted.take(paths.len() as int) =~= wanted);
    let listed = rank_matches(scores.as_slice());
    proof {
        let found = ints(listed@);
        assert forall|i: int| #![trigger found.contains(i)] found.contains(i) <==> 0 <= i
            < paths.len() && contains_in_order(views[i], query@) by {
            if found.contains(i) {
                let a = choose|a: int| 0 <= a < found.len() && found[a] == i;
                assert(wanted[found[a]] is Some);
            }
            if 0 <= i < paths.len() && contains_in_order(views[i], query@) {
                assert(wanted[i] is Some);
            }
        }
    }
    listed
}

/// The ranking is determined by the scores.
pub proof fn ranking_is_unique(scores: Seq<Option<i64>>, a: Seq<int>, b: Seq<int>)
    requires
        is_ranking(scores, a),
        is_ranking(scores, b),
    ensures
        a == b,
{
    lemma_ranking_prefix(scores, a, b, a.len() as int);
    lemma_ranking_prefix(scores, b, a, b.len() as int);
    assert(a =~= b);
}

proof fn lemma_ranking_prefix(scores: Seq<Option<i64>>, a: Seq<int>, b: Seq<int>, n: int)
    requires
        is_ranking(scores, a),
        is_ranking(scores, b),
        0 <= n <= a.len(),
    ensures
        n <= b.len(),
        forall|k: int| 0 <= k < n ==> #[trigger] a[k] == b[k],
    decreases n,
{
    if n > 0 {
        let last = n - 1;
        lemma_ranking_prefix(scores, a, b, last);
        assert(scores[a[last]] is Some);
        let j = choose|j: int| 0 <= j < b.len() && b[j] == a[last];
        if j < last {
            assert(a[j] == b[j]);
            assert(ranked_before(scores, a[j], a[last]));
        }
        if j > last {
            assert(scores[b[last]] is Some);
            let k = choose|k: int| 0 <= k < a.len() && a[k] == b[last];
            if k < last {
                assert(a[k] == b[k]);
                assert(ranked_before(scores, b[k], b[last]));
            } else if k > last {
                assert(ranked_before(scores, a[last], a[k]));
                assert(ranked_before(scores, b[last], b[j]));
            } else {
                assert(ranked_before(scores, b[last], b[j]));
            }
        }
    }
}

// --- What the filter lists -------------------------------------------------

/// The ranking lists each item that has a score once, and no other; an item with a
/// higher score comes before one with a lower score, and of two with equal scores
/// the one with the smaller index comes first.
pub proof fn ranking_is_by_score_and_index(
    scores: Seq<Option<i64>>,
    ranked: Seq<int>,
    a: int,
    b: int,
)
    requires
        is_ranking(scores, ranked),
    ensures
        forall|i: int| #[trigger]
            ranked.contains(i) <==> 0 <= i < scores.len() && scores[i] is Some,
        0 <= a < b < ranked.len() ==> {
            &&& scores[ranked[a]] matches Some(high)
            &&& scores[ranked[b]] matches Some(low)
            &&& high > low || (high == low && ranked[a] < ranked[b])
        },
{
    assert forall|i: int| #[trigger] ranked.contains(i) implies 0 <= i < scores.len()
        && scores[i] is Some by {
        let k = choose|k: int| 0 <= k < ranked.len() && ranked[k] == i;
        assert(0 <= ranked[k] < scores.len());
    }
    if 0 <= a < b < ranked.len() {
        assert(ranked_before(scores, ranked[a], ranked[b]));
        assert(scores[ranked[a]] is Some && scores[ranked[b]] is Some);
    }
}

/// A blank filter lists all files in their order. Any other lists the files that one
/// new matcher gives a score for the filter without white space at its ends, where
/// the matcher is asked about one path after the other; the best score comes first,
/// and of equal scores the file that comes first.
pub proof fn filter_lists_the_best_first(
    paths: Seq<Seq<char>>,
    query: Seq<char>,
    listed: Seq<int>,
    i: int,
    calls: Seq<(Seq<char>, Seq<char>)>,
)
    requires
        is_filtered(paths, query, listed),
        0 <= i < paths.len(),
        calls.len() == i,
        forall|j: int| 0 <= j < i ==> #[trigger] calls[j] == (paths[j], trimmed(query)),
    ensures
        trimmed(query).len() == 0 ==> listed.len() == paths.len() && listed[i] == i,
        trimmed(query).len() > 0 ==> {
            &&& path_scores(paths, trimmed(query)).len() == paths.len()
            &&& path_scores(paths, trimmed(query))[i] == skim_score(
                calls,
                paths[i],
                trimmed(query),
            )
            &&& listed.contains(i) <==> skim_score(calls, paths[i], trimmed(query)) is Some
            &&& forall|a: int, b: int|
                0 <= a < b < listed.len() ==> ({
                    let high = path_scores(paths, trimmed(query))[#[trigger] listed[a]]->0;
                    let low = path_scores(paths, trimmed(query))[#[trigger] listed[b]]->0;
                    high > low || (high == low && listed[a] < listed[b])
                })
        },
{
    let q = trimmed(query);
    if q.len() > 0 {
        let scores = path_scores(paths, q);
        assert(calls =~= calls_for(paths.take(i), q));
        ranking_is_by_score_and_index(scores, listed, 0, 0);
        assert(listed.contains(i) <==> scores[i] is Some);
        assert forall|a: int, b: int| 0 <= a < b < listed.len() implies ({
            let high = scores[#[trigger] listed[a]]->0;
            let low = scores[#[trigger] listed[b]]->0;
            high > low || (high == low && listed[a] < listed[b])
        }) by {
            ranking_is_by_score_and_index(scores, listed, a, b);
        }
    }
}

/// Paths can be matched if none has more than 16777216 characters.
pub proof fn long_paths_are_not_matchable(paths: Seq<Seq<char>>)
    ensures
        matchable(paths) <==> forall|i: int|
            0 <= i < paths.len() ==> (#[trigger] paths[i]).len() <= 16777216,
{
}

/// Whether a character of a path matches one of the query: they are equal, or they
/// are the two cases of an ASCII letter and the query has no upper case ASCII letter.
pub open spec fn letters_match(c: char, q: char, query: Seq<char>) -> bool {
    ||| c == q
    ||| {
        &&& forall|i: int| 0 <= i < query.len() ==> !('A' <= #[trigger] query[i] <= 'Z')
        &&& ('A' <= c <= 'Z' && q as int == c as int + 32) || ('A' <= q <= 'Z' && c as int == q as int
            + 32)
    }
}

/// The characters of a query occur in a path in their order exactly if they match
/// characters of the path at ascending places.
pub proof fn queries_match_at_ascending_places(path: Seq<char>, query: Seq<char>)
    ensures
        contains_in_order(path, query) <==> exists|at: Seq<int>|
            #![trigger at.len()]
            at.len() == query.len() && (forall|i: int|
                0 <= i < at.len() ==> 0 <= #[trigger] at[i] < path.len() && letters_match(
                    path[at[i]],
                    query[i],
                    query,
                )) && (forall|i: int, j: int| 0 <= i < j < at.len() ==> at[i] < at[j]),
{
    assert forall|c: char, q: char| #[trigger]
        same_letter(c, q, case_sensitive(query)) == letters_match(c, q, query) by {
        if 'A' <= c <= 'Z' {
            assert(ascii_lower(c) as int == c as int + 32);
        }
        if 'A' <= q <= 'Z' {
            assert(ascii_lower(q) as int == q as int + 32);
        }
    }
    if contains_in_order(path, query) {
        let at = choose|at: Seq<int>| #[trigger] picks(path, query, at);
        assert(at.len() == query.len());
        assert forall|i: int| 0 <= i < at.len() implies 0 <= #[trigger] at[i] < path.len()
            && letters_match(path[at[i]], query[i], query) by {
            assert(same_letter(path[at[i]], query[i], case_sensitive(query)));
        }
    }
    if exists|at: Seq<int>|
        #![trigger at.len()]
        at.len() == query.len() && (forall|i: int|
            0 <= i < at.len() ==> 0 <= #[trigger] at[i] < path.len() && letters_match(
                path[at[i]],
                query[i],
                query,
            )) && (forall|i: int, j: int| 0 <= i < j < at.len() ==> at[i] < at[j]) {
        let at = choose|at: Seq<int>|
            #![trigger at.len()]
            at.len() == query.len() && (forall|i: int|
                0 <= i < at.len() ==> 0 <= #[trigger] at[i] < path.len() && letters_match(
                    path[at[i]],
                    query[i],
                    query,
                )) && (forall|i: int, j: int| 0 <= i < j < at.len() ==> at[i] < at[j]);
        assert forall|i: int| 0 <= i < at.len() implies 0 <= #[trigger] at[i] < path.len()
            && same_letter(path[at[i]], query[i], case_sensitive(query)) by {
            assert(letters_match(path[at[i]], query[i], query));
        }
        assert(picks(path, query, at));
    }
}

}
