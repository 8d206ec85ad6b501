//! Properties of the matcher that relate its results across inputs and calls.
use vstd::prelude::*;

use crate::lowering::{
    ascii_lower, is_ascii_char, lemma_ascii_lower, lemma_origin_seq_shape, lower_seq, origin_seq,
};
use crate::matcher::{
    dedup_adjacent, fuzzy_score, fuzzy_spec, lemma_dedup_adjacent, lowered_positions, match_end,
    match_start, PREFIX_BONUS,
};
use crate::scan::{cursor_after, lemma_greedy_positions};

verus! {

/// A successful match reports original positions in strictly ascending
/// order, each a valid character position of the haystack, no more of them
/// than the lowered needle has characters (so no more than its distinct
/// characters when those are all different), and a score below the
/// empty-needle value `i32::MAX` unless the needle is empty.
pub proof fn lemma_match_result_well_formed(haystack: Seq<char>, needle: Seq<char>)
    requires
        fuzzy_spec(haystack, needle) is Some,
    ensures
        match fuzzy_spec(haystack, needle) {
            Some((idx, score)) => {
                &&& forall|a: int, b: int| 0 <= a < b < idx.len() ==> idx[a] < idx[b]
                &&& forall|i: int| 0 <= i < idx.len() ==> 0 <= #[trigger] idx[i] < haystack.len()
                &&& idx.len() <= lower_seq(needle).len()
                &&& lower_seq(needle).no_duplicates() ==> idx.len() <= lower_seq(
                    needle,
                ).to_set().len()
                &&& needle.len() > 0 ==> score < i32::MAX
            },
            None => true,
        },
{
    let ln = lower_seq(needle);
    if needle.len() > 0 {
        let lh = lower_seq(haystack);
        let og = origin_seq(haystack);
        lemma_origin_seq_shape(haystack);
        lemma_greedy_positions(lh, ln, ln.len() as int);
        let ps = lowered_positions(haystack, needle)->0;
        let taken = ps.map_values(|p: int| og[p]);
        assert forall|a: int, b: int| 0 <= a <= b < taken.len() implies taken[a] <= taken[b] by {
            if a < b {
                assert(ps[a] < ps[b]);
            }
        }
        lemma_dedup_adjacent(taken);
        let idx = dedup_adjacent(taken);
        assert forall|i: int| 0 <= i < idx.len() implies 0 <= #[trigger] idx[i] < haystack.len() by {
            assert(idx.contains(idx[i]));
            assert(taken.contains(idx[i]));
            let j = choose|j: int| 0 <= j < taken.len() && taken[j] == idx[i];
            assert(og[ps[j]] == idx[i]);
        }
    }
    if ln.no_duplicates() {
        ln.unique_seq_to_set();
    }
}

/// For ASCII text, matching ignores case: matching a haystack and a needle
/// gives the same result as matching their ASCII lowercase forms, so one
/// succeeds exactly when the other does.
pub proof fn lemma_ascii_case_insensitive(haystack: Seq<char>, needle: Seq<char>)
    requires
        forall|i: int| 0 <= i < haystack.len() ==> is_ascii_char(#[trigger] haystack[i]),
        forall|i: int| 0 <= i < needle.len() ==> is_ascii_char(#[trigger] needle[i]),
    ensures
        fuzzy_spec(haystack, needle) == fuzzy_spec(
            haystack.map_values(|c: char| ascii_lower(c)),
            needle.map_values(|c: char| ascii_lower(c)),
        ),
        fuzzy_spec(haystack, needle) is Some <==> fuzzy_spec(
            haystack.map_values(|c: char| ascii_lower(c)),
            needle.map_values(|c: char| ascii_lower(c)),
        ) is Some,
{
    lemma_lowered_ascii_twice(haystack);
    lemma_lowered_ascii_twice(needle);
}

/// Lowering ASCII text or its ASCII lowercase form gives the same lowered
/// characters and the same origins.
proof fn lemma_lowered_ascii_twice(s: Seq<char>)
    requires
        forall|i: int| 0 <= i < s.len() ==> is_ascii_char(#[trigger] s[i]),
    ensures
        lower_seq(s.map_values(|c: char| ascii_lower(c))) == lower_seq(s),
        origin_seq(s.map_values(|c: char| ascii_lower(c))) == origin_seq(s),
{
    let t = s.map_values(|c: char| ascii_lower(c));
    assert forall|i: int| 0 <= i < t.len() implies is_ascii_char(#[trigger] t[i]) by {
        lemma_ascii_lower(s[i]);
    }
    lemma_lowered_ascii(s);
    lemma_lowered_ascii(t);
    assert(t.map_values(|c: char| ascii_lower(c)) =~= t) by {
        assert forall|i: int| 0 <= i < t.len() implies ascii_lower(t[i]) == t[i] by {
            lemma_ascii_lower(s[i]);
        }
    }
}

/// ASCII text lowers character for character, each lowered character
/// coming from the character at the same position.
proof fn lemma_lowered_ascii(s: Seq<char>)
    requires
        forall|i: int| 0 <= i < s.len() ==> is_ascii_char(#[trigger] s[i]),
    ensures
        lower_seq(s) == s.map_values(|c: char| ascii_lower(c)),
        origin_seq(s) == Seq::new(s.len(), |i: int| i),
    decreases s.len(),
{
    if s.len() > 0 {
        let t = s.drop_last();
        lemma_lowered_ascii(t);
        assert(is_ascii_char(s[s.len() - 1]));
        assert(lower_seq(s) =~= s.map_values(|c: char| ascii_lower(c)));
        assert(origin_seq(s) =~= Seq::new(s.len(), |i: int| i));
    }
}

/// Of two matches of one needle that begin at the same lowered position, a
/// contiguous one scores strictly lower (better) than a spread-out one.
pub proof fn lemma_contiguous_beats_spread(h1: Seq<char>, h2: Seq<char>, needle: Seq<char>)
    requires
        needle.len() > 0,
        fuzzy_spec(h1, needle) is Some,
        fuzzy_spec(h2, needle) is Some,
        match_start(h1, needle) == match_start(h2, needle),
        match_end(h1, needle) - match_start(h1, needle) + 1 == lower_seq(needle).len(),
        match_end(h2, needle) - match_start(h2, needle) + 1 > lower_seq(needle).len(),
    ensures
        fuzzy_score(h1, needle) < fuzzy_score(h2, needle),
{
}

/// A match that begins at lowered position 0 scores exactly the prefix bonus
/// less than a match that spans the same window but begins later.
pub proof fn lemma_prefix_bonus(h1: Seq<char>, h2: Seq<char>, needle: Seq<char>)
    requires
        needle.len() > 0,
        fuzzy_spec(h1, needle) is Some,
        fuzzy_spec(h2, needle) is Some,
        match_start(h1, needle) == 0,
        match_start(h2, needle) > 0,
        match_end(h1, needle) - match_start(h1, needle) == match_end(h2, needle) - match_start(
            h2,
            needle,
        ),
    ensures
        fuzzy_score(h1, needle) == fuzzy_score(h2, needle) - PREFIX_BONUS,
{
}

/// The scan only moves forward: each needle character takes a lowered
/// position after the one taken by the character before it, the first one
/// there that holds it, so the original positions taken never go back.
pub proof fn lemma_greedy_forward(haystack: Seq<char>, needle: Seq<char>)
    requires
        lowered_positions(haystack, needle) is Some,
    ensures
        ({
            let ps = lowered_positions(haystack, needle)->0;
            let lh = lower_seq(haystack);
            let ln = lower_seq(needle);
            let og = origin_seq(haystack);
            &&& ps.len() == ln.len()
            &&& forall|i: int| 0 <= i < ps.len() ==> lh[#[trigger] ps[i]] == ln[i]
            &&& forall|i: int| 0 < i < ps.len() ==> ps[i - 1] < #[trigger] ps[i]
            &&& forall|i: int| 0 < i < ps.len() ==> og[ps[i - 1]] <= #[trigger] og[ps[i]]
            &&& forall|i: int, j: int|
                0 <= i < ps.len() && cursor_after(ps.take(i)) <= j < ps[i] ==> lh[j] != ln[i]
        }),
{
    let lh = lower_seq(haystack);
    let ln = lower_seq(needle);
    lemma_greedy_positions(lh, ln, ln.len() as int);
    lemma_origin_seq_shape(haystack);
    let ps = lowered_positions(haystack, needle)->0;
    assert forall|i: int| 0 < i < ps.len() implies ps[i - 1] < #[trigger] ps[i] by {
        assert(ps[i - 1] < ps[i]);
    }
}

} // verus!
