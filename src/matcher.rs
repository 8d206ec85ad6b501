//! Scoring of a greedy match and the public matching operations.
use vstd::prelude::*;

use crate::lowering::{lower_seq, lower_text, origin_seq, LoweredText};
use crate::scan::{
    greedy_scan, greedy_scan_spec, lemma_greedy_positions, lemma_next_pos_skip, next_pos,
};

verus! {

/// Score reduction for a match that starts at the first lowered character.
pub const PREFIX_BONUS: i32 = 100;

/// The largest window a score reports; longer spans are reported as this,
/// which keeps every score of a non-empty needle below `i32::MAX`.
pub const MAX_WINDOW: i32 = i32::MAX - 1;

/// The extra lowered characters that a match from `first` to `last` spans
/// beyond `needle_len`, floored at 0 and capped at `MAX_WINDOW`.
pub open spec fn window_of(first: int, last: int, needle_len: int) -> int {
    let w = last - first + 1 - needle_len;
    if w < 0 {
        0
    } else if w > MAX_WINDOW {
        MAX_WINDOW as int
    } else {
        w
    }
}

/// The score of a match from `first` to `last`: its window, less the prefix
/// bonus when the match starts at position 0. Smaller is better.
pub open spec fn score_of(first: int, last: int, needle_len: int) -> int {
    window_of(first, last, needle_len) - if first == 0 {
        PREFIX_BONUS as int
    } else {
        0
    }
}

/// `s` with each run of equal adjacent values kept once.
pub open spec fn dedup_adjacent(s: Seq<int>) -> Seq<int>
    decreases s.len(),
{
    if s.len() == 0 {
        Seq::empty()
    } else {
        let d = dedup_adjacent(s.drop_last());
        if d.len() > 0 && d.last() == s.last() {
            d
        } else {
            d.push(s.last())
        }
    }
}

/// The lowered position where the match begins: the first lowered character
/// that comes from the same original character as the first one taken.
pub open spec fn match_first(origins: Seq<int>, ps: Seq<int>) -> int {
    if ps.len() == 0 {
        0
    } else {
        match next_pos(origins, origins[ps[0]], 0) {
            Some(f) => f,
            None => 0,
        }
    }
}

/// The lowered position of the last character taken.
pub open spec fn match_last(origins: Seq<int>, ps: Seq<int>) -> int {
    if ps.len() == 0 {
        match_first(origins, ps)
    } else {
        ps.last()
    }
}

/// The result of matching the lowered needle `needle` against the lowered
/// text `chars` whose characters come from `origins`: the original positions
/// taken (ascending, each once) and the score, or `None` when the greedy
/// scan fails.
pub open spec fn match_model(chars: Seq<char>, origins: Seq<int>, needle: Seq<char>) -> Option<
    (Seq<int>, int),
> {
    match greedy_scan_spec(chars, needle) {
        None => None,
        Some(ps) => Some(
            (
                dedup_adjacent(ps.map_values(|p: int| origins[p])),
                score_of(match_first(origins, ps), match_last(origins, ps), needle.len() as int),
            ),
        ),
    }
}

/// The result of a fuzzy match of `needle` against `haystack`.
pub open spec fn fuzzy_spec(haystack: Seq<char>, needle: Seq<char>) -> Option<(Seq<int>, int)> {
    if needle.len() == 0 {
        Some((Seq::empty(), i32::MAX as int))
    } else {
        match_model(lower_seq(haystack), origin_seq(haystack), lower_seq(needle))
    }
}

/// The positions of `fuzzy_spec`, without the score.
pub open spec fn fuzzy_indices_spec(haystack: Seq<char>, needle: Seq<char>) -> Option<Seq<int>> {
    match fuzzy_spec(haystack, needle) {
        Some((idx, _score)) => Some(idx),
        None => None,
    }
}

/// The lowered positions that the greedy scan takes for `needle` in `haystack`.
pub open spec fn lowered_positions(haystack: Seq<char>, needle: Seq<char>) -> Option<Seq<int>> {
    greedy_scan_spec(lower_seq(haystack), lower_seq(needle))
}

/// The lowered position where a match of `needle` in `haystack` begins.
pub open spec fn match_start(haystack: Seq<char>, needle: Seq<char>) -> int {
    match lowered_positions(haystack, needle) {
        Some(ps) => match_first(origin_seq(haystack), ps),
        None => 0,
    }
}

/// The lowered position where a match of `needle` in `haystack` ends.
pub open spec fn match_end(haystack: Seq<char>, needle: Seq<char>) -> int {
    match lowered_positions(haystack, needle) {
        Some(ps) => match_last(origin_seq(haystack), ps),
        None => 0,
    }
}

/// The score of `fuzzy_spec`, where it matches.
pub open spec fn fuzzy_score(haystack: Seq<char>, needle: Seq<char>) -> int {
    match fuzzy_spec(haystack, needle) {
        Some((_idx, score)) => score,
        None => 0,
    }
}

/// The integer values of a vector of indices.
pub open spec fn index_view(v: Seq<usize>) -> Seq<int> {
    v.map_values(|i: usize| i as int)
}

/// On a non-decreasing sequence, `dedup_adjacent` keeps each value once, in
/// strictly ascending order, and ends with the last value.
pub proof fn lemma_dedup_adjacent(s: Seq<int>)
    requires
        forall|a: int, b: int| 0 <= a <= b < s.len() ==> s[a] <= s[b],
    ensures
        ({
            let d = dedup_adjacent(s);
            &&& forall|a: int, b: int| 0 <= a < b < d.len() ==> d[a] < d[b]
            &&& forall|x: int| d.contains(x) <==> s.contains(x)
            &&& d.len() <= s.len()
            &&& s.len() > 0 ==> d.len() > 0 && d.last() == s.last()
        }),
    decreases s.len(),
{
    if s.len() > 0 {
        let t = s.drop_last();
        lemma_dedup_adjacent(t);
        let d0 = dedup_adjacent(t);
        let d = dedup_adjacent(s);
        assert(d.len() > 0 && d.last() == s.last());
        assert(d.subrange(0, d0.len() as int) =~= d0);
        assert forall|x: int| d.contains(x) <==> s.contains(x) by {
            if s.contains(x) {
                let i = choose|i: int| 0 <= i < s.len() && s[i] == x;
                if i < s.len() - 1 {
                    assert(t[i] == x);
                    assert(t.contains(x));
                    let k = choose|k: int| 0 <= k < d0.len() && d0[k] == x;
                    assert(d[k] == x);
                } else {
                    assert(d[d.len() - 1] == x);
                }
            }
            if d.contains(x) {
                let i = choose|i: int| 0 <= i < d.len() && d[i] == x;
                if i < d0.len() {
                    assert(d0[i] == x);
                    assert(d0.contains(x));
                    let j = choose|j: int| 0 <= j < t.len() && t[j] == x;
                    assert(s[j] == x);
                } else {
                    assert(s[s.len() - 1] == x);
                }
            }
        }
        if t.len() > 0 {
            assert(t.last() <= s.last());
        }
    }
}

/// The original positions of the taken lowered positions `ps`, each kept
/// once: `dedup_adjacent` of the original positions taken.
fn origins_taken(text: &LoweredText, ps: &Vec<usize>) -> (r: Vec<usize>)
    requires
        text.wf(),
        forall|i: int| 0 <= i < ps@.len() ==> #[trigger] ps@[i] < text.chars@.len(),
    ensures
        index_view(r@) == dedup_adjacent(
            index_view(ps@).map_values(|p: int| text.origins_view()[p]),
        ),
{
    let ghost taken = index_view(ps@).map_values(|p: int| text.origins_view()[p]);
    let mut idx: Vec<usize> = Vec::new();
    let mut i: usize = 0;
    while i < ps.len()
        invariant
            0 <= i <= ps@.len(),
            text.wf(),
            forall|i: int| 0 <= i < ps@.len() ==> #[trigger] ps@[i] < text.chars@.len(),
            taken == index_view(ps@).map_values(|p: int| text.origins_view()[p]),
            index_view(idx@) == dedup_adjacent(taken.take(i as int)),
        decreases ps@.len() - i,
    {
        let o = text.origins[ps[i]];
        let ghost prefix = taken.take(i as int);
        let ghost next = taken.take(i as int + 1);
        assert(next.drop_last() == prefix);
        assert(next.last() == o as int);
        let ghost before = idx@;
        if idx.len() == 0 || idx[idx.len() - 1] != o {
            idx.push(o);
            assert(index_view(idx@) =~= index_view(before).push(o as int));
        }
        i += 1;
    }
    assert(taken.take(i as int) == taken);
    idx
}

/// Matches the lowered needle `needle` against the lowered text `text`:
/// the greedy scan, then the score and the original positions taken.
pub fn match_lowered(text: &LoweredText, needle: &Vec<char>) -> (r: Option<(Vec<usize>, i32)>)
    requires
        text.wf(),
    ensures
        match r {
            None => match_model(text.chars@, text.origins_view(), needle@) is None,
            Some((idx, score)) => match_model(text.chars@, text.origins_view(), needle@) == Some(
                (index_view(idx@), score as int),
            ),
        },
{
    let ps = match greedy_scan(&text.chars, needle) {
        None => {
            return None;
        },
        Some(ps) => ps,
    };
    let ghost psv = index_view(ps@);
    let ghost ov = text.origins_view();
    proof {
        lemma_greedy_positions(text.chars@, needle@, needle@.len() as int);
        assert forall|i: int| 0 <= i < ps@.len() implies #[trigger] ps@[i] < text.chars@.len() by {
            assert(psv[i] == ps@[i] as int);
        }
    }
    let first: usize = if ps.len() == 0 {
        0
    } else {
        // The first lowered character from the same original character as
        // the first one taken; the taken one itself ends the search.
        let target = text.origins[ps[0]];
        let mut f: usize = 0;
        while text.origins[f] != target
            invariant
                text.wf(),
                ps@.len() > 0,
                ps@[0] < text.chars@.len(),
                target == text.origins@[ps@[0] as int],
                f <= ps@[0],
                forall|j: int| 0 <= j < f ==> text.origins@[j] != target,
            decreases ps@[0] - f,
        {
            f += 1;
        }
        proof {
            assert forall|j: int| 0 <= j < f implies ov[j] != target as int by {}
            lemma_next_pos_skip(ov, target as int, 0, f as int);
            assert(ov[psv[0]] == target as int);
        }
        f
    };
    assert(first as int == match_first(ov, psv));
    let last: usize = if ps.len() == 0 {
        first
    } else {
        ps[ps.len() - 1]
    };
    assert(last as int == match_last(ov, psv));
    assert(first <= last);
    assert(last - first + 1 >= needle.len()) by {
        if ps@.len() > 0 {
            assert(psv[0] + (psv.len() - 1) <= psv[psv.len() - 1]);
        }
    }
    // The match spans at least as many lowered characters as the needle has.
    let hay_len = text.chars.len();
    assert(last == 0 || last < hay_len);
    let span: usize = last - first;
    let w: usize = span + 1 - needle.len();
    let window: i32 = if w > MAX_WINDOW as usize {
        MAX_WINDOW
    } else {
        w as i32
    };
    let score: i32 = if first == 0 {
        window - PREFIX_BONUS
    } else {
        window
    };
    let idx = origins_taken(text, &ps);
    Some((idx, score))
}

/// Matches `needle` against `haystack`, ignoring case: the ascending
/// original character positions of `haystack` that the match takes, each
/// once, and its score (smaller is better), or `None` when the lowered
/// needle is not a subsequence of the lowered haystack. An empty needle
/// matches with no positions and the score `i32::MAX`.
pub fn fuzzy_match(haystack: &str, needle: &str) -> (r: Option<(Vec<usize>, i32)>)
    ensures
        match r {
            None => fuzzy_spec(haystack@, needle@) is None,
            Some((idx, score)) => fuzzy_spec(haystack@, needle@) == Some(
                (index_view(idx@), score as int),
            ),
        },
        needle@.len() == 0 ==> match r {
            Some((idx, score)) => idx@.len() == 0 && score == i32::MAX,
            None => false,
        },
        match r {
            Some((idx, score)) => {
                &&& forall|a: int, b: int| 0 <= a < b < idx@.len() ==> idx@[a] < idx@[b]
                &&& forall|i: int| 0 <= i < idx@.len() ==> #[trigger] idx@[i] < haystack@.len()
                &&& needle@.len() > 0 ==> score < i32::MAX
            },
            None => true,
        },
{
    if needle.unicode_len() == 0 {
        return Some((Vec::new(), i32::MAX));
    }
    let text = lower_text(haystack);
    let lowered_needle = lower_text(needle);
    let r = match_lowered(&text, &lowered_needle.chars);
    proof {
        if let Some((idx, _score)) = &r {
            crate::laws::lemma_match_result_well_formed(haystack@, needle@);
            let iv = index_view(idx@);
            assert forall|a: int, b: int| 0 <= a < b < idx@.len() implies idx@[a] < idx@[b] by {
                assert(iv[a] < iv[b]);
            }
            assert forall|i: int| 0 <= i < idx@.len() implies #[trigger] idx@[i]
                < haystack@.len() by {
                assert(iv[i] < haystack@.len());
            }
        }
    }
    r
}

/// The positions of `fuzzy_match`, without the score.
pub fn fuzzy_indices(haystack: &str, needle: &str) -> (r: Option<Vec<usize>>)
    ensures
        match r {
            None => fuzzy_indices_spec(haystack@, needle@) is None,
            Some(idx) => fuzzy_indices_spec(haystack@, needle@) == Some(index_view(idx@)),
        },
{
    match fuzzy_match(haystack, needle) {
        Some((idx, _score)) => Some(idx),
        None => None,
    }
}

} // verus!
