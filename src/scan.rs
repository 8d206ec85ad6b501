//! The greedy forward scan that finds a needle as a subsequence of a text.
use vstd::prelude::*;

verus! {

/// The first position at or after `from` where `s` holds `x`, if any.
pub open spec fn next_pos<A>(s: Seq<A>, x: A, from: int) -> Option<int>
    decreases s.len() - from,
{
    if from < 0 || from >= s.len() {
        None
    } else if s[from] == x {
        Some(from)
    } else {
        next_pos(s, x, from + 1)
    }
}

/// Where the scan resumes after the positions `ps` have been taken.
pub open spec fn cursor_after(ps: Seq<int>) -> int {
    if ps.len() == 0 {
        0
    } else {
        ps.last() + 1
    }
}

/// The positions in `hay` that the greedy scan takes for the first `k`
/// characters of `needle`: each character takes the first equal character
/// after the one taken before it. `None` once a character is not found.
pub open spec fn greedy_positions(hay: Seq<char>, needle: Seq<char>, k: int) -> Option<Seq<int>>
    decreases k,
{
    if k <= 0 {
        Some(Seq::empty())
    } else {
        match greedy_positions(hay, needle, k - 1) {
            None => None,
            Some(ps) => match next_pos(hay, needle[k - 1], cursor_after(ps)) {
                None => None,
                Some(p) => Some(ps.push(p)),
            },
        }
    }
}

/// The greedy scan over the whole needle.
pub open spec fn greedy_scan_spec(hay: Seq<char>, needle: Seq<char>) -> Option<Seq<int>> {
    greedy_positions(hay, needle, needle.len() as int)
}

/// What `next_pos` finds: the first occurrence at or after `from`, or none.
pub proof fn lemma_next_pos<A>(s: Seq<A>, x: A, from: int)
    requires
        0 <= from,
    ensures
        match next_pos(s, x, from) {
            None => forall|j: int| from <= j < s.len() ==> s[j] != x,
            Some(p) => from <= p < s.len() && s[p] == x && forall|j: int|
                from <= j < p ==> s[j] != x,
        },
    decreases s.len() - from,
{
    if from < s.len() && s[from] != x {
        lemma_next_pos(s, x, from + 1);
    }
}

/// Skipping positions that do not hold `x` does not change what `next_pos` finds.
pub proof fn lemma_next_pos_skip<A>(s: Seq<A>, x: A, from: int, to: int)
    requires
        0 <= from <= to <= s.len(),
        forall|j: int| from <= j < to ==> s[j] != x,
    ensures
        next_pos(s, x, from) == next_pos(s, x, to),
    decreases to - from,
{
    if from < to {
        lemma_next_pos_skip(s, x, from + 1, to);
    }
}

/// The positions of a successful greedy scan: one per needle character, each
/// holding that character, strictly increasing, and each the first fitting
/// position after the one before it.
pub proof fn lemma_greedy_positions(hay: Seq<char>, needle: Seq<char>, k: int)
    requires
        0 <= k <= needle.len(),
        greedy_positions(hay, needle, k) is Some,
    ensures
        ({
            let ps = greedy_positions(hay, needle, k)->0;
            &&& ps.len() == k
            &&& forall|i: int| 0 <= i < k ==> 0 <= #[trigger] ps[i] < hay.len()
            &&& forall|i: int| 0 <= i < k ==> hay[#[trigger] ps[i]] == needle[i]
            &&& forall|i: int, j: int| 0 <= i < j < k ==> ps[i] < ps[j]
            &&& forall|i: int| 0 <= i < k ==> ps[0] + i <= #[trigger] ps[i]
            &&& forall|i: int, j: int|
                0 <= i < k && cursor_after(ps.take(i)) <= j < ps[i] ==> hay[j] != needle[i]
        }),
    decreases k,
{
    if k > 0 {
        lemma_greedy_positions(hay, needle, k - 1);
        let prev = greedy_positions(hay, needle, k - 1)->0;
        let ps = greedy_positions(hay, needle, k)->0;
        lemma_next_pos(hay, needle[k - 1], cursor_after(prev));
        assert(ps.take(k - 1) == prev);
        assert forall|i: int| 0 <= i < k - 1 implies ps.take(i) == prev.take(i) by {
            assert(ps.take(i) =~= prev.take(i));
        }
    }
}

/// Once a character is not found, the scan fails for every longer prefix.
pub proof fn lemma_greedy_none_stays(hay: Seq<char>, needle: Seq<char>, k: int, m: int)
    requires
        0 <= k <= m,
        greedy_positions(hay, needle, k) is None,
    ensures
        greedy_positions(hay, needle, m) is None,
    decreases m - k,
{
    if k < m {
        lemma_greedy_none_stays(hay, needle, k + 1, m);
    }
}

/// Runs the greedy scan of `needle` over `hay`, returning the positions taken.
pub fn greedy_scan(hay: &Vec<char>, needle: &Vec<char>) -> (r: Option<Vec<usize>>)
    ensures
        match r {
            None => greedy_scan_spec(hay@, needle@) is None,
            Some(ps) => greedy_scan_spec(hay@, needle@) == Some(
                ps@.map_values(|p: usize| p as int),
            ),
        },
{
    let mut ps: Vec<usize> = Vec::with_capacity(needle.len());
    let mut cur: usize = 0;
    let mut k: usize = 0;
    while k < needle.len()
        invariant
            0 <= k <= needle@.len(),
            greedy_positions(hay@, needle@, k as int) == Some(
                ps@.map_values(|p: usize| p as int),
            ),
            cur as int == cursor_after(ps@.map_values(|p: usize| p as int)),
            cur <= hay@.len(),
        decreases needle@.len() - k,
    {
        let nc = needle[k];
        let ghost start = cur as int;
        while cur < hay.len() && hay[cur] != nc
            invariant
                start <= cur <= hay@.len(),
                forall|j: int| start <= j < cur ==> hay@[j] != nc,
            decreases hay@.len() - cur,
        {
            cur += 1;
        }
        proof {
            lemma_next_pos_skip(hay@, nc, start, cur as int);
        }
        if cur == hay.len() {
            proof {
                lemma_greedy_none_stays(hay@, needle@, k as int + 1, needle@.len() as int);
            }
            return None;
        }
        let ghost before = ps@;
        ps.push(cur);
        assert(ps@.map_values(|p: usize| p as int) =~= before.map_values(|p: usize| p as int).push(
            cur as int,
        ));
        cur += 1;
        k += 1;
    }
    Some(ps)
}

} // verus!
