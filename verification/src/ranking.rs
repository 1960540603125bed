//! Fuzzy ranking engine: scores candidate strings against a query with the
//! skim fuzzy matcher, drops the candidates that do not match, and orders the
//! rest by descending score with ties broken by input order.
//!
//! A candidate matches exactly when the query is a subsequence of it
//! (case-insensitively, unless the query holds an ASCII uppercase letter);
//! an empty query matches every candidate with a neutral score, so the result
//! then lists all candidates in input order.

use vstd::prelude::*;
use vstd::relations::{sorted_by, total_ordering};
use vstd::seq_lib::lemma_sorted_unique;

use fuzzy_matcher::FuzzyMatcher;

verus! {

broadcast use vstd::seq_lib::group_to_multiset_ensures;

/// The ASCII-lowercased code point of a character.
pub open spec fn ascii_lower_code(c: char) -> int {
    if 'A' <= c && c <= 'Z' {
        c as int + 32
    } else {
        c as int
    }
}

/// Character comparison as the matcher performs it: exact when case matters,
/// ASCII case-insensitive otherwise.
pub open spec fn chars_match(a: char, b: char, case_sensitive: bool) -> bool {
    if case_sensitive {
        a == b
    } else {
        ascii_lower_code(a) == ascii_lower_code(b)
    }
}

/// Whether `query` appears in `text` in order, not necessarily contiguously,
/// matching greedily from the left.
pub open spec fn is_char_subsequence(query: Seq<char>, text: Seq<char>, case_sensitive: bool) -> bool
    decreases text.len(),
{
    if query.len() == 0 {
        true
    } else if text.len() == 0 {
        false
    } else if chars_match(query[0], text[0], case_sensitive) {
        is_char_subsequence(query.drop_first(), text.drop_first(), case_sensitive)
    } else {
        is_char_subsequence(query, text.drop_first(), case_sensitive)
    }
}

/// A witness that `query` appears in `text` in order: one strictly increasing
/// text position per query character, each matching.
pub open spec fn match_positions_ok(
    query: Seq<char>,
    text: Seq<char>,
    case_sensitive: bool,
    positions: Seq<int>,
) -> bool {
    &&& positions.len() == query.len()
    &&& forall|k: int|
        0 <= k < positions.len() ==> 0 <= #[trigger] positions[k] < text.len() && chars_match(
            query[k],
            text[positions[k]],
            case_sensitive,
        )
    &&& forall|k: int| 0 < k < positions.len() ==> positions[k - 1] < #[trigger] positions[k]
}

/// The greedy matcher accepts exactly the queries whose characters appear in
/// the text in order: greedy left-to-right matching loses nothing.
pub proof fn lemma_subsequence_characterization(query: Seq<char>, text: Seq<char>, cs: bool)
    ensures
        is_char_subsequence(query, text, cs) <==> exists|p: Seq<int>|
            #[trigger] match_positions_ok(query, text, cs, p),
    decreases text.len(),
{
    if is_char_subsequence(query, text, cs) {
        if query.len() == 0 {
            let p = Seq::<int>::empty();
            assert(match_positions_ok(query, text, cs, p));
        } else if chars_match(query[0], text[0], cs) {
            lemma_subsequence_characterization(query.drop_first(), text.drop_first(), cs);
            let p0 = choose|p0: Seq<int>|
                #[trigger] match_positions_ok(query.drop_first(), text.drop_first(), cs, p0);
            let p = seq![0int] + Seq::new(p0.len(), |k: int| p0[k] + 1);
            assert forall|k: int| 0 <= k < p.len() implies 0 <= #[trigger] p[k] < text.len()
                && chars_match(query[k], text[p[k]], cs) by {
                if k > 0 {
                    assert(p[k] == p0[k - 1] + 1);
                    assert(text[p0[k - 1] + 1] == text.drop_first()[p0[k - 1]]);
                    assert(query[k] == query.drop_first()[k - 1]);
                }
            }
            assert(match_positions_ok(query, text, cs, p));
        } else {
            lemma_subsequence_characterization(query, text.drop_first(), cs);
            let p0 = choose|p0: Seq<int>|
                #[trigger] match_positions_ok(query, text.drop_first(), cs, p0);
            let p = Seq::new(p0.len(), |k: int| p0[k] + 1);
            assert forall|k: int| 0 <= k < p.len() implies 0 <= #[trigger] p[k] < text.len()
                && chars_match(query[k], text[p[k]], cs) by {
                assert(text[p0[k] + 1] == text.drop_first()[p0[k]]);
            }
            assert(match_positions_ok(query, text, cs, p));
        }
    }
    if query.len() > 0 && exists|p: Seq<int>| #[trigger] match_positions_ok(query, text, cs, p) {
        let p = choose|p: Seq<int>| #[trigger] match_positions_ok(query, text, cs, p);
        assert(0 <= p[0] < text.len());
        if chars_match(query[0], text[0], cs) {
            lemma_subsequence_characterization(query.drop_first(), text.drop_first(), cs);
            if query.len() > 1 {
                let p2 = Seq::new((query.len() - 1) as nat, |k: int| p[k + 1] - 1);
                assert forall|k: int| 0 <= k < p2.len() implies 0 <= #[trigger] p2[k]
                    < text.drop_first().len() && chars_match(
                    query.drop_first()[k],
                    text.drop_first()[p2[k]],
                    cs,
                ) by {
                    assert(p[k + 1] > p[k] >= 0);
                    assert(text.drop_first()[p[k + 1] - 1] == text[p[k + 1]]);
                }
                assert forall|k: int| 0 < k < p2.len() implies p2[k - 1] < #[trigger] p2[k] by {
                    assert(p[k] < p[k + 1]);
                }
                assert(match_positions_ok(query.drop_first(), text.drop_first(), cs, p2));
            } else {
                let p2 = Seq::<int>::empty();
                assert(match_positions_ok(query.drop_first(), text.drop_first(), cs, p2));
            }
            assert(is_char_subsequence(query.drop_first(), text.drop_first(), cs));
        } else {
            assert(p[0] != 0);
            lemma_subsequence_characterization(query, text.drop_first(), cs);
            let p3 = Seq::new(query.len(), |k: int| p[k] - 1);
            assert forall|k: int| 0 <= k < p3.len() implies 0 <= #[trigger] p3[k]
                < text.drop_first().len() && chars_match(
                query[k],
                text.drop_first()[p3[k]],
                cs,
            ) by {
                if k > 0 {
                    assert(p[k] > p[k - 1] >= 0);
                }
                assert(p[k] >= 1);
                assert(text.drop_first()[p[k] - 1] == text[p[k]]);
            }
            assert(match_positions_ok(query, text.drop_first(), cs, p3));
            assert(is_char_subsequence(query, text.drop_first(), cs));
        }
    }
}

/// Whether the query holds an ASCII uppercase letter, which makes the default
/// (smart-case) matcher compare case-sensitively.
pub open spec fn has_ascii_uppercase(q: Seq<char>) -> bool {
    exists|i: int| 0 <= i < q.len() && 'A' <= q[i] && q[i] <= 'Z'
}

/// Whether the matcher accepts `text` for `query`: the query is a smart-case
/// subsequence of the text.
pub open spec fn query_matches(text: Seq<char>, query: Seq<char>) -> bool {
    is_char_subsequence(query, text, has_ascii_uppercase(query))
}

/// The score that the skim matcher assigns to `text` for `query`, `None` when
/// the text does not match. The score depends on the two texts alone.
pub uninterp spec fn skim_score(text: Seq<char>, query: Seq<char>) -> Option<i64>;

/// Relies on `fuzzy_matcher::skim::SkimMatcherV2` in its default
/// configuration: `fuzzy_match` computes a score from the choice and pattern
/// texts alone; it returns `Some(0)` for an empty pattern, and it returns a
/// score exactly when the pattern is a subsequence of the choice, compared
/// ASCII case-insensitively unless the pattern holds an ASCII uppercase
/// letter.
#[verifier::external_body]
fn skim_fuzzy_match(text: &str, query: &str) -> (r: Option<i64>)
    ensures
        r == skim_score(text@, query@),
        query@.len() == 0 ==> r == Some(0i64),
        r is Some <==> query_matches(text@, query@),
{
    let matcher = fuzzy_matcher::skim::SkimMatcherV2::default();
    matcher.fuzzy_match(text, query)
}

/// Result order: higher score first, input position breaking ties.
pub open spec fn rank_le(a: (usize, i64), b: (usize, i64)) -> bool {
    a.1 > b.1 || (a.1 == b.1 && a.0 <= b.0)
}

/// [`rank_le`] as a relation value.
pub open spec fn rank_leq() -> spec_fn((usize, i64), (usize, i64)) -> bool {
    |a: (usize, i64), b: (usize, i64)| rank_le(a, b)
}

/// [`rank_le`] orders the result pairs totally.
pub proof fn lemma_rank_total()
    ensures
        total_ordering(rank_leq()),
{
}

/// The scored candidates, in input order: one `(position, score)` pair per
/// candidate whose score is present.
pub open spec fn kept(scores: Seq<Option<i64>>) -> Seq<(usize, i64)>
    decreases scores.len(),
{
    if scores.len() == 0 {
        Seq::empty()
    } else {
        kept(scores.drop_last()) + match scores.last() {
            Some(v) => seq![(((scores.len() - 1) as usize), v)],
            None => Seq::empty(),
        }
    }
}

/// The ranked result: the scored candidates, ordered by [`rank_le`].
pub open spec fn spec_rank(scores: Seq<Option<i64>>) -> Seq<(usize, i64)> {
    kept(scores).sort_by(rank_leq())
}

/// The scored candidates carry exactly the present scores, at strictly
/// increasing input positions.
pub proof fn lemma_kept_props(scores: Seq<Option<i64>>)
    requires
        scores.len() <= usize::MAX,
    ensures
        forall|k: int|
            0 <= k < kept(scores).len() ==> (#[trigger] kept(scores)[k]).0 < scores.len()
                && scores[kept(scores)[k].0 as int] == Some(kept(scores)[k].1),
        forall|a: int, b: int|
            0 <= a < b < kept(scores).len() ==> (#[trigger] kept(scores)[a]).0 < (
            #[trigger] kept(scores)[b]).0,
        forall|i: int|
            0 <= i < scores.len() && (#[trigger] scores[i]) is Some ==> exists|k: int|
                0 <= k < kept(scores).len() && #[trigger] kept(scores)[k] == ((i as usize), scores[i]->0),
    decreases scores.len(),
{
    if scores.len() > 0 {
        lemma_kept_props(scores.drop_last());
        let prev = kept(scores.drop_last());
        assert(forall|j: int| 0 <= j < scores.len() - 1 ==> scores.drop_last()[j] == #[trigger] scores[j]);
        assert forall|k: int| 0 <= k < kept(scores).len() implies (#[trigger] kept(scores)[k]).0
            < scores.len() && scores[kept(scores)[k].0 as int] == Some(kept(scores)[k].1) by {
            if k < prev.len() {
                assert(kept(scores)[k] == prev[k]);
            } else {
                assert(kept(scores)[k] == (((scores.len() - 1) as usize), scores.last()->0));
            }
        }
        assert forall|a: int, b: int| 0 <= a < b < kept(scores).len() implies (
        #[trigger] kept(scores)[a]).0 < (#[trigger] kept(scores)[b]).0 by {
            if b < prev.len() {
                assert(kept(scores)[a] == prev[a] && kept(scores)[b] == prev[b]);
            } else {
                assert(kept(scores)[a] == prev[a]);
                assert(kept(scores)[b] == (((scores.len() - 1) as usize), scores.last()->0));
                assert(prev[a].0 < scores.len() - 1);
            }
        }
        assert forall|i: int|
            0 <= i < scores.len() && (#[trigger] scores[i]) is Some implies exists|k: int|
            0 <= k < kept(scores).len() && #[trigger] kept(scores)[k] == ((i as usize), scores[i]->0) by {
            if i < scores.len() - 1 {
                assert(scores.drop_last()[i] == scores[i]);
                let k = choose|k: int|
                    0 <= k < prev.len() && #[trigger] prev[k] == ((i as usize), scores[i]->0);
                assert(kept(scores)[k] == prev[k]);
            } else {
                assert(kept(scores)[kept(scores).len() - 1] == ((i as usize), scores[i]->0));
            }
        }
    }
}

/// The scored candidates are pairwise distinct.
proof fn lemma_kept_no_duplicates(scores: Seq<Option<i64>>)
    requires
        scores.len() <= usize::MAX,
    ensures
        kept(scores).no_duplicates(),
{
    lemma_kept_props(scores);
}

/// Inserting into a sequence inserts into its multiset.
proof fn lemma_insert_to_multiset<A>(s: Seq<A>, pos: int, x: A)
    requires
        0 <= pos <= s.len(),
    ensures
        s.insert(pos, x).to_multiset() == s.to_multiset().insert(x),
{
    let left = s.take(pos);
    let right = s.skip(pos);
    assert(s.insert(pos, x) =~= left.push(x) + right);
    vstd::seq_lib::lemma_multiset_commutative(left.push(x), right);
    vstd::seq_lib::lemma_multiset_commutative(left, right);
    assert(left + right =~= s);
    assert(left.push(x).to_multiset() == left.to_multiset().insert(x));
    assert(s.insert(pos, x).to_multiset() =~= s.to_multiset().insert(x));
}

/// Executable counterpart of [`rank_le`].
fn rank_le_exec(a: (usize, i64), b: (usize, i64)) -> (r: bool)
    ensures
        r == rank_le(a, b),
{
    a.1 > b.1 || (a.1 == b.1 && a.0 <= b.0)
}

/// Order scored candidates: keep each `(position, score)` pair whose score is
/// present, sorted by descending score, ties broken by input position.
#[verifier::rlimit(50)]
pub fn rank_scored(scores: &Vec<Option<i64>>) -> (r: Vec<(usize, i64)>)
    ensures
        r@ == spec_rank(scores@),
{
    let mut pairs: Vec<(usize, i64)> = Vec::new();
    let mut i: usize = 0;
    proof {
        assert(scores@.take(0) =~= Seq::<Option<i64>>::empty());
        assert(pairs@ =~= kept(scores@.take(0)));
    }
    while i < scores.len()
        invariant
            0 <= i <= scores@.len(),
            pairs@ == kept(scores@.take(i as int)),
        decreases scores@.len() - i,
    {
        let ghost prefix = scores@.take(i as int);
        if let Some(v) = scores[i] {
            pairs.push((i, v));
        }
        i = i + 1;
        proof {
            let ext = scores@.take(i as int);
            assert(ext.drop_last() =~= prefix);
            assert(ext.last() == scores@[i - 1]);
            assert(pairs@ =~= kept(ext));
        }
    }
    proof {
        assert(scores@.take(scores@.len() as int) =~= scores@);
    }
    let mut out: Vec<(usize, i64)> = Vec::new();
    let mut idx: usize = 0;
    proof {
        assert(pairs@.take(0) =~= Seq::<(usize, i64)>::empty());
        assert(out@.to_multiset() =~= pairs@.take(0).to_multiset());
    }
    while idx < pairs.len()
        invariant
            0 <= idx <= pairs@.len(),
            sorted_by(out@, rank_leq()),
            out@.to_multiset() == pairs@.take(idx as int).to_multiset(),
        decreases pairs@.len() - idx,
    {
        let x = pairs[idx];
        let mut pos: usize = 0;
        while pos < out.len() && rank_le_exec(out[pos], x)
            invariant
                0 <= pos <= out@.len(),
                forall|k: int| 0 <= k < pos ==> rank_le(#[trigger] out@[k], x),
            decreases out@.len() - pos,
        {
            pos = pos + 1;
        }
        let ghost old_out = out@;
        out.insert(pos, x);
        proof {
            old_out.insert_ensures(pos as int, x);
            assert forall|a: int, b: int| 0 <= a < b < out@.len() implies #[trigger] rank_leq()(
                out@[a],
                out@[b],
            ) by {
                if b < pos {
                    assert(rank_leq()(old_out[a], old_out[b]));
                } else if a > pos {
                    assert(rank_leq()(old_out[a - 1], old_out[b - 1]));
                } else if a == pos && b > pos {
                    // x stands before everything it displaced
                    assert(!rank_le(old_out[pos as int], x));
                    assert(rank_le(x, old_out[pos as int]));
                    if b > pos + 1 {
                        assert(rank_leq()(old_out[pos as int], old_out[b - 1]));
                    }
                } else if b == pos {
                    assert(rank_le(old_out[a], x));
                } else {
                    // a < pos < b
                    assert(rank_le(old_out[a], x));
                    if b > pos + 1 {
                        assert(!rank_le(old_out[pos as int], x));
                        assert(rank_le(x, old_out[pos as int]));
                        assert(rank_leq()(old_out[pos as int], old_out[b - 1]));
                    }
                }
            }
            lemma_insert_to_multiset(old_out, pos as int, x);
            let ext = pairs@.take(idx as int + 1);
            assert(ext.drop_last() =~= pairs@.take(idx as int));
            assert(ext =~= pairs@.take(idx as int).push(x));
        }
        idx = idx + 1;
    }
    proof {
        assert(pairs@.take(pairs@.len() as int) =~= pairs@);
        lemma_rank_total();
        kept(scores@).lemma_sort_by_ensures(rank_leq());
        lemma_sorted_unique(out@, spec_rank(scores@), rank_leq());
    }
    out
}

/// The score of every candidate, in input order.
pub open spec fn candidate_scores(texts: Seq<Seq<char>>, query: Seq<char>) -> Seq<Option<i64>> {
    Seq::new(texts.len(), |i: int| skim_score(texts[i], query))
}

/// The ranked result lists present scores at their input positions, without
/// duplicating or inventing positions, and includes every present score.
pub proof fn lemma_spec_rank_props(scores: Seq<Option<i64>>)
    requires
        scores.len() <= usize::MAX,
    ensures
        spec_rank(scores).to_multiset() == kept(scores).to_multiset(),
        spec_rank(scores).no_duplicates(),
        sorted_by(spec_rank(scores), rank_leq()),
        forall|k: int|
            0 <= k < spec_rank(scores).len() ==> (#[trigger] spec_rank(scores)[k]).0 < scores.len()
                && scores[spec_rank(scores)[k].0 as int] == Some(spec_rank(scores)[k].1),
        forall|i: int|
            0 <= i < scores.len() && (#[trigger] scores[i]) is Some ==> exists|k: int|
                0 <= k < spec_rank(scores).len() && (#[trigger] spec_rank(scores)[k]).0 == i,
{
    let ranked = spec_rank(scores);
    lemma_rank_total();
    kept(scores).lemma_sort_by_ensures(rank_leq());
    lemma_kept_props(scores);
    lemma_kept_no_duplicates(scores);
    kept(scores).lemma_multiset_has_no_duplicates();
    ranked.lemma_multiset_has_no_duplicates_conv();
    assert forall|k: int| 0 <= k < ranked.len() implies (#[trigger] ranked[k]).0 < scores.len()
        && scores[ranked[k].0 as int] == Some(ranked[k].1) by {
        assert(ranked.to_multiset().contains(ranked[k]));
        assert(kept(scores).to_multiset().contains(ranked[k]));
        assert(kept(scores).contains(ranked[k]));
        let j = choose|j: int| 0 <= j < kept(scores).len() && kept(scores)[j] == ranked[k];
        assert(kept(scores)[j].0 < scores.len());
    }
    assert forall|i: int|
        0 <= i < scores.len() && (#[trigger] scores[i]) is Some implies exists|k: int|
        0 <= k < ranked.len() && (#[trigger] ranked[k]).0 == i by {
        let j = choose|j: int|
            0 <= j < kept(scores).len() && #[trigger] kept(scores)[j] == ((i as usize), scores[i]->0);
        assert(kept(scores).contains(kept(scores)[j]));
        assert(kept(scores).to_multiset().contains(kept(scores)[j]));
        assert(ranked.to_multiset().contains(kept(scores)[j]));
        assert(ranked.contains(kept(scores)[j]));
        let k = choose|k: int| 0 <= k < ranked.len() && ranked[k] == kept(scores)[j];
        assert(ranked[k].0 == i);
    }
}

/// Stable tie-break: among ranked results with equal scores, input order is
/// kept — the earlier candidate stands strictly first.
pub proof fn lemma_stable_tie_break(scores: Seq<Option<i64>>, a: int, b: int)
    requires
        scores.len() <= usize::MAX,
        0 <= a < b < spec_rank(scores).len(),
        spec_rank(scores)[a].1 == spec_rank(scores)[b].1,
    ensures
        spec_rank(scores)[a].0 < spec_rank(scores)[b].0,
{
    let ranked = spec_rank(scores);
    lemma_spec_rank_props(scores);
    assert(rank_leq()(ranked[a], ranked[b]));
    assert(ranked[a] != ranked[b]);
}

/// Neutral ranking: when every candidate scores `Some(0)`, the ranked result
/// is every position in input order, each with score zero.
pub proof fn lemma_rank_all_neutral(scores: Seq<Option<i64>>)
    requires
        scores.len() <= usize::MAX,
        forall|i: int| 0 <= i < scores.len() ==> #[trigger] scores[i] == Some(0i64),
    ensures
        spec_rank(scores) == Seq::new(scores.len(), |i: int| ((i as usize), 0i64)),
{
    let ident = Seq::new(scores.len(), |i: int| ((i as usize), 0i64));
    lemma_kept_neutral(scores);
    assert(kept(scores) =~= ident);
    lemma_rank_total();
    kept(scores).lemma_sort_by_ensures(rank_leq());
    assert forall|a: int, b: int| 0 <= a < b < ident.len() implies #[trigger] rank_leq()(
        ident[a],
        ident[b],
    ) by {
        assert(ident[a] == ((a as usize), 0i64) && ident[b] == ((b as usize), 0i64));
        assert(rank_le(ident[a], ident[b]));
    }
    assert(sorted_by(ident, rank_leq()));
    lemma_sorted_unique(spec_rank(scores), ident, rank_leq());
}

/// With every score present as `Some(0)`, the scored candidates are exactly
/// the positions in order.
proof fn lemma_kept_neutral(scores: Seq<Option<i64>>)
    requires
        scores.len() <= usize::MAX,
        forall|i: int| 0 <= i < scores.len() ==> #[trigger] scores[i] == Some(0i64),
    ensures
        kept(scores) =~= Seq::new(scores.len(), |i: int| ((i as usize), 0i64)),
    decreases scores.len(),
{
    if scores.len() > 0 {
        lemma_kept_neutral(scores.drop_last());
    }
}

/// Score every candidate against `query`, drop the candidates that do not
/// match, and return `(input position, score)` pairs ordered by descending
/// score, ties broken by input position. An empty query keeps every candidate
/// in input order with score zero.
pub fn filter_and_rank(candidates: &Vec<String>, query: &str) -> (r: Vec<(usize, i64)>)
    ensures
        r@ == spec_rank(candidate_scores(candidates@.map_values(|c: String| c@), query@)),
        // every result entry names a matching candidate and carries its score
        forall|k: int|
            0 <= k < r@.len() ==> (#[trigger] r@[k]).0 < candidates@.len() && skim_score(
                candidates@[r@[k].0 as int]@,
                query@,
            ) == Some(r@[k].1) && query_matches(candidates@[r@[k].0 as int]@, query@),
        // every matching candidate appears in the result
        forall|i: int|
            0 <= i < candidates@.len() && query_matches(#[trigger] candidates@[i]@, query@)
                ==> exists|k: int| 0 <= k < r@.len() && (#[trigger] r@[k]).0 == i,
        // higher scores first, ties in input order
        forall|k1: int, k2: int| 0 <= k1 < k2 < r@.len() ==> rank_le(#[trigger] r@[k1], #[trigger] r@[k2]),
        // an empty query returns every candidate, neutrally scored, in order
        query@.len() == 0 ==> r@ == Seq::new(candidates@.len(), |i: int| ((i as usize), 0i64)),
{
    let ghost texts = candidates@.map_values(|c: String| c@);
    let ghost cs = candidate_scores(texts, query@);
    let mut scores: Vec<Option<i64>> = Vec::new();
    let mut i: usize = 0;
    while i < candidates.len()
        invariant
            0 <= i <= candidates@.len(),
            texts == candidates@.map_values(|c: String| c@),
            cs == candidate_scores(texts, query@),
            scores@ == cs.take(i as int),
            forall|j: int|
                0 <= j < i ==> ((#[trigger] cs[j]) is Some <==> query_matches(texts[j], query@)),
            query@.len() == 0 ==> forall|j: int| 0 <= j < i ==> #[trigger] cs[j] == Some(0i64),
        decreases candidates@.len() - i,
    {
        let s = skim_fuzzy_match(candidates[i].as_str(), query);
        proof {
            assert(texts[i as int] == candidates@[i as int]@);
        }
        scores.push(s);
        i = i + 1;
        proof {
            assert(scores@ =~= cs.take(i as int));
        }
    }
    proof {
        assert(scores@ =~= cs);
    }
    let r = rank_scored(&scores);
    proof {
        assert(cs.len() == candidates@.len());
        lemma_spec_rank_props(cs);
        if query@.len() == 0 {
            lemma_rank_all_neutral(cs);
        }
        assert forall|k1: int, k2: int| 0 <= k1 < k2 < r@.len() implies rank_le(
            #[trigger] r@[k1],
            #[trigger] r@[k2],
        ) by {
            assert(rank_leq()(r@[k1], r@[k2]));
        }
        assert forall|i: int|
            0 <= i < candidates@.len() && query_matches(
                #[trigger] candidates@[i]@,
                query@,
            ) implies exists|k: int| 0 <= k < r@.len() && (#[trigger] r@[k]).0 == i by {
            assert(texts[i] == candidates@[i]@);
            assert(cs[i] is Some);
            let k = choose|k: int|
                0 <= k < spec_rank(cs).len() && (#[trigger] spec_rank(cs)[k]).0 == i;
            assert(r@[k].0 == i);
        }
    }
    r
}

} // verus!
