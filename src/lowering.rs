//! Lowercasing of text, character by character, with a map back to the
//! position of the character that each lowered character came from.
use vstd::prelude::*;

verus! {

/// The characters that `char::to_lowercase` yields for `c`.
pub uninterp spec fn lower_of(c: char) -> Seq<char>;

/// The ASCII lowercase form of `c`: `A`..=`Z` move to `a`..=`z`, all else stays.
pub open spec fn ascii_lower(c: char) -> char {
    if 'A' <= c && c <= 'Z' {
        ((c as u32) + 32) as char
    } else {
        c
    }
}

/// Relies on `char::to_lowercase`: the lowercase mapping of `c`, which
/// depends on `c` alone, and is the ASCII lowercase letter for an ASCII `c`.
#[verifier::external_body]
fn char_to_lowercase(c: char) -> (r: Vec<char>)
    ensures
        r@ == lower_of(c),
        is_ascii_char(c) ==> r@ == seq![ascii_lower(c)],
{
    c.to_lowercase().collect()
}

/// Whether `c` is an ASCII character.
pub open spec fn is_ascii_char(c: char) -> bool {
    (c as u32) < 128
}

/// The lowercase mapping of one character: the ASCII lowercase letter for an
/// ASCII character, the mapping of `char::to_lowercase` for any other.
pub open spec fn lower_char(c: char) -> Seq<char> {
    if is_ascii_char(c) {
        seq![ascii_lower(c)]
    } else {
        lower_of(c)
    }
}

/// ASCII lowercasing yields an ASCII character and is idempotent.
pub proof fn lemma_ascii_lower(c: char)
    requires
        is_ascii_char(c),
    ensures
        is_ascii_char(ascii_lower(c)),
        ascii_lower(ascii_lower(c)) == ascii_lower(c),
{
}

/// The lowercase form of `s`: the lowercase mappings of its characters, in order.
pub open spec fn lower_seq(s: Seq<char>) -> Seq<char>
    decreases s.len(),
{
    if s.len() == 0 {
        Seq::empty()
    } else {
        lower_seq(s.drop_last()) + lower_char(s.last())
    }
}

/// For each character of `lower_seq(s)`, the position in `s` of the
/// character whose lowercase mapping it belongs to.
pub open spec fn origin_seq(s: Seq<char>) -> Seq<int>
    decreases s.len(),
{
    if s.len() == 0 {
        Seq::empty()
    } else {
        origin_seq(s.drop_last()) + Seq::new(lower_char(s.last()).len(), |k: int| s.len() - 1)
    }
}

/// A lowered text: `chars` holds the lowered characters and `origins[k]`
/// the position, in the text before lowering, that `chars[k]` came from.
pub struct LoweredText {
    pub chars: Vec<char>,
    pub origins: Vec<usize>,
}

impl LoweredText {
    /// One origin for each lowered character, and the origins never decrease.
    pub open spec fn wf(&self) -> bool {
        &&& self.chars@.len() == self.origins@.len()
        &&& forall|a: int, b: int|
            0 <= a <= b < self.origins@.len() ==> self.origins@[a] <= self.origins@[b]
    }

    /// The origins as mathematical integers.
    pub open spec fn origins_view(&self) -> Seq<int> {
        self.origins@.map_values(|o: usize| o as int)
    }
}

/// `origin_seq` has one entry per lowered character, each a position of
/// `s`, and its entries never decrease.
pub proof fn lemma_origin_seq_shape(s: Seq<char>)
    ensures
        origin_seq(s).len() == lower_seq(s).len(),
        forall|k: int| 0 <= k < origin_seq(s).len() ==> 0 <= #[trigger] origin_seq(s)[k] < s.len(),
        forall|a: int, b: int|
            0 <= a <= b < origin_seq(s).len() ==> origin_seq(s)[a] <= origin_seq(s)[b],
    decreases s.len(),
{
    if s.len() > 0 {
        lemma_origin_seq_shape(s.drop_last());
    }
}

/// Lowercases `s` character by character and records, for each lowered
/// character, the position of the character of `s` it came from.
pub fn lower_text(s: &str) -> (r: LoweredText)
    ensures
        r.wf(),
        r.chars@ == lower_seq(s@),
        r.origins_view() == origin_seq(s@),
{
    let mut chars: Vec<char> = Vec::new();
    let mut origins: Vec<usize> = Vec::new();
    let len = s.unicode_len();
    let mut pos: usize = 0;
    for ch in it: s.chars()
        invariant
            pos == it.index(),
            len == s@.len(),
            it.seq() == s@,
            chars@ == lower_seq(s@.take(pos as int)),
            origins@.map_values(|o: usize| o as int) == origin_seq(s@.take(pos as int)),
    {
        let lowered = char_to_lowercase(ch);
        let ghost prefix = s@.take(pos as int);
        let ghost next = s@.take(pos as int + 1);
        assert(next.drop_last() == prefix);
        assert(next.last() == ch);
        let mut j: usize = 0;
        while j < lowered.len()
            invariant
                0 <= j <= lowered.len(),
                lowered@ == lower_char(ch),
                chars@ == lower_seq(prefix) + lowered@.take(j as int),
                origins@.map_values(|o: usize| o as int) == origin_seq(prefix) + Seq::new(
                    j as nat,
                    |k: int| pos as int,
                ),
            decreases lowered.len() - j,
        {
            let ghost before = origins@;
            chars.push(lowered[j]);
            origins.push(pos);
            assert(origins@.map_values(|o: usize| o as int) =~= before.map_values(
                |o: usize| o as int,
            ).push(pos as int));
            assert(lowered@.take(j as int + 1) =~= lowered@.take(j as int).push(lowered@[j as int]));
            assert(origins@.map_values(|o: usize| o as int) =~= origin_seq(prefix) + Seq::new(
                (j + 1) as nat,
                |k: int| pos as int,
            ));
            j += 1;
        }
        assert(lowered@.take(j as int) == lowered@);
        pos += 1;
    }
    assert(s@.take(pos as int) == s@);
    proof {
        lemma_origin_seq_shape(s@);
    }
    let r = LoweredText { chars, origins };
    assert(r.wf()) by {
        assert forall|a: int, b: int| 0 <= a <= b < r.origins@.len() implies r.origins@[a]
            <= r.origins@[b] by {
            assert(r.origins_view()[a] == r.origins@[a] as int);
            assert(r.origins_view()[b] == r.origins@[b] as int);
        }
    }
    r
}

} // verus!
