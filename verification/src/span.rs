//! Spans of the input, and the facts about a row of spans that tiles it.
use vstd::prelude::*;
use crate::byte_str::ByteStr;
use vstd::utf8::{leading_bits_width_1, length_of_first_scalar, valid_first_scalar};

verus! {

/// A range of the input: `len` bytes from `begin`.
#[derive(Clone, Copy, PartialEq, Eq, Structural, PartialOrd, Ord, Hash, Debug)]
pub struct Span {
    pub begin: usize,
    pub len: usize,
}

impl Default for Span {
    fn default() -> (r: Span)
        ensures
            r == (Span { begin: 0, len: 0 }),
    {
        Span { begin: 0, len: 0 }
    }
}

impl Span {
    pub open spec fn spec_end(self) -> int {
        self.begin + self.len
    }

    /// One past the last byte of the span.
    pub fn end(&self) -> (r: usize)
        requires
            self.begin + self.len <= usize::MAX,
        ensures
            r == self.spec_end(),
    {
        self.begin + self.len
    }

    /// Moves the end of the span, keeping its beginning.
    pub fn set_end(&mut self, end: usize)
        requires
            old(self).begin <= end,
        ensures
            final(self).begin == old(self).begin,
            final(self).spec_end() == end,
    {
        self.len = end - self.begin;
    }

    /// The same span, longer by `extra_len` bytes.
    pub fn with_added_len(self, extra_len: usize) -> (r: Span)
        requires
            self.len + extra_len <= usize::MAX,
        ensures
            r == (Span { begin: self.begin, len: (self.len + extra_len) as usize }),
    {
        Span { begin: self.begin, len: self.len + extra_len }
    }

    /// The bytes of `input` that the span covers.
    pub fn get<'a>(&self, input: ByteStr<'a>) -> (r: ByteStr<'a>)
        requires
            self.begin + self.len <= input@.len(),
        ensures
            r@ == input@.subrange(self.begin as int, self.spec_end()),
    {
        let _n = input.len();
        input.slice(self.begin, self.begin + self.len)
    }

    /// True when the span covers no byte.
    pub fn is_empty(&self) -> (r: bool)
        ensures
            r == (self.len == 0),
    {
        self.len == 0
    }
}

/// How the input is first cut into spans: by characters or by bytes.
#[derive(Clone, Copy, PartialEq, Eq, Structural, PartialOrd, Ord, Debug, Hash)]
pub enum InputKind {
    Text,
    Byte,
}

impl InputKind {
    pub fn is_text(&self) -> (r: bool)
        ensures
            r == (*self == InputKind::Text),
    {
        match self {
            InputKind::Text => true,
            InputKind::Byte => false,
        }
    }

    pub fn is_byte(&self) -> (r: bool)
        ensures
            r == (*self == InputKind::Byte),
    {
        match self {
            InputKind::Text => false,
            InputKind::Byte => true,
        }
    }
}

/// The text of span `i` of `s` in `x`.
pub open spec fn text(s: Seq<Span>, x: Seq<u8>, i: int) -> Seq<u8> {
    x.subrange(s[i].begin as int, s[i].spec_end())
}

/// A span is live while it covers at least one byte; merged-away spans keep length 0.
pub open spec fn live(s: Seq<Span>, i: int) -> bool {
    0 <= i < s.len() && s[i].len > 0
}

/// Total length of the spans before index `i`.
pub open spec fn prefix_len(s: Seq<Span>, i: int) -> int
    decreases i,
{
    if i <= 0 {
        0
    } else {
        prefix_len(s, i - 1) + s[i - 1].len
    }
}

/// The row of spans tiles `0..n`: each live span starts where the spans before it end, a dead
/// span starts no later, and together they cover `n` bytes.
pub open spec fn tiles(s: Seq<Span>, n: int) -> bool {
    &&& forall|i: int| 0 <= i < s.len() ==> #[trigger] s[i].begin <= prefix_len(s, i)
    &&& forall|i: int| #[trigger] live(s, i) ==> s[i].begin == prefix_len(s, i)
    &&& prefix_len(s, s.len() as int) == n
}

/// The first live span at index `j` or later (`s.len()` if none).
pub open spec fn next_live_from(s: Seq<Span>, j: int) -> int
    decreases s.len() - j,
{
    if j >= s.len() {
        s.len() as int
    } else if j >= 0 && s[j].len > 0 {
        j
    } else {
        next_live_from(s, j + 1)
    }
}

/// The last live span at index `j` or earlier (`-1` if none).
pub open spec fn prev_live_from(s: Seq<Span>, j: int) -> int
    decreases j + 1,
{
    if j < 0 {
        -1
    } else if j < s.len() && s[j].len > 0 {
        j
    } else {
        prev_live_from(s, j - 1)
    }
}

/// The live span that follows span `i`.
pub open spec fn next_live(s: Seq<Span>, i: int) -> int {
    next_live_from(s, i + 1)
}

/// The live span that precedes span `i`.
pub open spec fn prev_live(s: Seq<Span>, i: int) -> int {
    prev_live_from(s, i - 1)
}

/// The texts of spans `0..i`, end to end.
pub open spec fn concat_texts(s: Seq<Span>, x: Seq<u8>, i: int) -> Seq<u8>
    decreases i,
{
    if i <= 0 {
        Seq::empty()
    } else {
        concat_texts(s, x, i - 1) + text(s, x, i - 1)
    }
}

/// The number of live spans among `0..i`.
pub open spec fn live_count(s: Seq<Span>, i: int) -> nat
    decreases i,
{
    if i <= 0 {
        0
    } else {
        live_count(s, i - 1) + if s[i - 1].len > 0 { 1nat } else { 0nat }
    }
}

pub proof fn lemma_prefix_len_mono(s: Seq<Span>, i: int, j: int)
    requires
        0 <= i <= j <= s.len(),
    ensures
        prefix_len(s, i) <= prefix_len(s, j),
    decreases j - i,
{
    if i < j {
        lemma_prefix_len_mono(s, i, j - 1);
    }
}

pub proof fn lemma_next_live_from(s: Seq<Span>, j: int)
    requires
        0 <= j <= s.len(),
    ensures
        j <= next_live_from(s, j) <= s.len(),
        next_live_from(s, j) < s.len() ==> live(s, next_live_from(s, j)),
        forall|k: int| j <= k < next_live_from(s, j) ==> !live(s, k),
    decreases s.len() - j,
{
    if j < s.len() && s[j].len == 0 {
        lemma_next_live_from(s, j + 1);
    }
}

/// `r` is the first live span from `j` on when nothing live lies in `j..r`.
pub proof fn lemma_next_live_from_unique(s: Seq<Span>, j: int, r: int)
    requires
        0 <= j <= r <= s.len(),
        r < s.len() ==> live(s, r),
        forall|k: int| j <= k < r ==> !live(s, k),
    ensures
        next_live_from(s, j) == r,
    decreases r - j,
{
    if j < r {
        assert(!live(s, j));
        lemma_next_live_from_unique(s, j + 1, r);
    }
}

pub proof fn lemma_prev_live_from(s: Seq<Span>, j: int)
    requires
        -1 <= j < s.len(),
    ensures
        -1 <= prev_live_from(s, j) <= j,
        prev_live_from(s, j) >= 0 ==> live(s, prev_live_from(s, j)),
        forall|k: int| prev_live_from(s, j) < k <= j ==> !live(s, k),
    decreases j + 1,
{
    if j >= 0 && s[j].len == 0 {
        lemma_prev_live_from(s, j - 1);
    }
}

/// `r` is the last live span up to `j` when nothing live lies in `r+1..=j`.
pub proof fn lemma_prev_live_from_unique(s: Seq<Span>, j: int, r: int)
    requires
        -1 <= r <= j < s.len(),
        r >= 0 ==> live(s, r),
        forall|k: int| r < k <= j ==> !live(s, k),
    ensures
        prev_live_from(s, j) == r,
    decreases j - r,
{
    if r < j {
        assert(!live(s, j));
        lemma_prev_live_from_unique(s, j - 1, r);
    }
}

/// In a tiling, every span lies inside `0..n`, and a live span ends where the next live one
/// begins.
pub proof fn lemma_tiles_bounds(s: Seq<Span>, n: int, i: int)
    requires
        tiles(s, n),
        0 <= i < s.len(),
    ensures
        s[i].spec_end() <= prefix_len(s, i + 1) <= n,
        live(s, i) ==> s[i].spec_end() == prefix_len(s, i + 1),
{
    lemma_prefix_len_mono(s, i + 1, s.len() as int);
}

/// In a tiling, the live span after a live span `i` starts where `i` ends.
pub proof fn lemma_tiles_next_begin(s: Seq<Span>, n: int, i: int)
    requires
        tiles(s, n),
        live(s, i),
        next_live(s, i) < s.len(),
    ensures
        s[next_live(s, i)].begin == s[i].spec_end(),
{
    let q = next_live(s, i);
    lemma_next_live_from(s, i + 1);
    lemma_prefix_dead_run(s, i + 1, q);
}

/// Across a run of dead spans, the prefix length does not move.
pub proof fn lemma_prefix_dead_run(s: Seq<Span>, a: int, b: int)
    requires
        0 <= a <= b <= s.len(),
        forall|k: int| a <= k < b ==> !live(s, k),
    ensures
        prefix_len(s, a) == prefix_len(s, b),
    decreases b - a,
{
    if a < b {
        assert(!live(s, b - 1));
        lemma_prefix_dead_run(s, a, b - 1);
    }
}

/// The texts of the spans of a tiling, end to end, give back the input.
pub proof fn lemma_concat_texts(s: Seq<Span>, x: Seq<u8>, i: int)
    requires
        tiles(s, x.len() as int),
        0 <= i <= s.len(),
    ensures
        concat_texts(s, x, i) == x.subrange(0, prefix_len(s, i)),
    decreases i,
{
    if i > 0 {
        lemma_concat_texts(s, x, i - 1);
        lemma_prefix_len_mono(s, i, s.len() as int);
        let sp = s[i - 1];
        if sp.len > 0 {
            assert(live(s, i - 1));
            assert(x.subrange(0, prefix_len(s, i - 1)) + x.subrange(sp.begin as int, sp.spec_end())
                =~= x.subrange(0, prefix_len(s, i)));
        } else {
            assert(text(s, x, i - 1) =~= Seq::<u8>::empty());
            assert(concat_texts(s, x, i) =~= concat_texts(s, x, i - 1));
        }
    }
}

/// The live span before the live span that follows `a` is `a`.
pub proof fn lemma_prev_of_next(s: Seq<Span>, a: int)
    requires
        live(s, a),
        next_live(s, a) < s.len(),
    ensures
        prev_live(s, next_live(s, a)) == a,
{
    lemma_next_live_from(s, a + 1);
    lemma_prev_live_from_unique(s, next_live(s, a) - 1, a);
}

/// Every span of the row covers at least one byte.
pub open spec fn all_live(s: Seq<Span>) -> bool {
    forall|i: int| 0 <= i < s.len() ==> (#[trigger] s[i]).len > 0
}

/// One span per byte of an input of `n` bytes.
pub open spec fn byte_spans(n: int) -> Seq<Span> {
    Seq::new(n as nat, |i: int| Span { begin: i as usize, len: 1 })
}

pub proof fn lemma_prefix_push(s: Seq<Span>, v: Span)
    ensures
        prefix_len(s.push(v), (s.len() + 1) as int) == prefix_len(s, s.len() as int) + v.len,
{
    lemma_prefix_push_all(s, v, s.len() as int);
}

proof fn lemma_prefix_push_all(s: Seq<Span>, v: Span, i: int)
    requires
        0 <= i <= s.len(),
    ensures
        prefix_len(s.push(v), i) == prefix_len(s, i),
    decreases i,
{
    if i > 0 {
        lemma_prefix_push_all(s, v, i - 1);
    }
}

/// Appending a live span that starts where a tiling of `0..n` ends gives a tiling of
/// `0..n + len`.
pub proof fn lemma_tiles_push(s: Seq<Span>, n: int, v: Span)
    requires
        tiles(s, n),
        all_live(s),
        v.begin == n,
        v.len > 0,
    ensures
        tiles(s.push(v), n + v.len),
        all_live(s.push(v)),
{
    let s2 = s.push(v);
    lemma_prefix_push(s, v);
    assert forall|i: int| 0 <= i < s2.len() implies #[trigger] s2[i].begin <= prefix_len(s2, i) by {
        lemma_prefix_push_all(s, v, i);
    }
    assert forall|i: int| #[trigger] live(s2, i) implies s2[i].begin == prefix_len(s2, i) by {
        lemma_prefix_push_all(s, v, i);
        if i < s.len() {
            assert(s2[i] == s[i]);
            assert(live(s, i));
        }
    }
}

/// One span per character of the UTF-8 text `x`, the first one starting at `off`.
pub open spec fn utf8_spans(x: Seq<u8>, off: int) -> Seq<Span>
    decreases x.len(),
{
    if x.len() == 0 || !valid_first_scalar(x) {
        Seq::empty()
    } else {
        let w = length_of_first_scalar(x);
        seq![Span { begin: off as usize, len: w as usize }] + utf8_spans(
            x.subrange(w, x.len() as int),
            off + w,
        )
    }
}

/// Every span lies inside `0..n`.
pub open spec fn spans_in_range(s: Seq<Span>, n: int) -> bool {
    forall|i: int| 0 <= i < s.len() ==> (#[trigger] s[i]).begin + s[i].len <= n
}

/// Each span, stretched by the length of the span at the next index, lies inside `0..n`.
pub open spec fn adjacent_in_range(s: Seq<Span>, n: int) -> bool {
    forall|i: int| 0 <= i && i + 1 < s.len() ==> (#[trigger] s[i]).begin + s[i].len + s[i + 1].len <= n
}

/// A tiling keeps every span, and every span stretched by the next one, inside the input.
pub proof fn lemma_tiles_in_range(s: Seq<Span>, n: int)
    requires
        tiles(s, n),
    ensures
        spans_in_range(s, n),
        adjacent_in_range(s, n),
{
    assert forall|i: int| 0 <= i < s.len() implies (#[trigger] s[i]).begin + s[i].len <= n by {
        lemma_tiles_bounds(s, n, i);
    }
    assert forall|i: int| 0 <= i && i + 1 < s.len() implies (#[trigger] s[i]).begin + s[i].len + s[i + 1].len <= n by {
        lemma_prefix_len_mono(s, i + 2, s.len() as int);
        assert(prefix_len(s, i + 2) == prefix_len(s, i + 1) + s[i + 1].len);
        assert(prefix_len(s, i + 1) == prefix_len(s, i) + s[i].len);
    }
}


/// On ASCII input a character is one byte: cutting by characters is cutting by bytes.
pub proof fn lemma_ascii_utf8_spans(x: Seq<u8>, off: int)
    requires
        forall|i: int| 0 <= i < x.len() ==> #[trigger] x[i] < 0x80,
        0 <= off,
        off + x.len() <= usize::MAX,
    ensures
        utf8_spans(x, off) == Seq::new(x.len(), |i: int| Span { begin: (off + i) as usize, len: 1 }),
    decreases x.len(),
{
    if x.len() > 0 {
        assert(x[0] < 0x80);
        let b: u8 = x[0];
        assert(leading_bits_width_1(b) == b as u32) by (bit_vector)
            requires
                b < 0x80,
        ;
        assert(valid_first_scalar(x));
        assert(length_of_first_scalar(x) == 1);
        let rest = x.subrange(1, x.len() as int);
        assert forall|i: int| 0 <= i < rest.len() implies #[trigger] rest[i] < 0x80 by {
            assert(rest[i] == x[i + 1]);
        }
        lemma_ascii_utf8_spans(rest, off + 1);
        assert(utf8_spans(x, off) =~= Seq::new(x.len(), |i: int| Span { begin: (off + i) as usize, len: 1 }));
    } else {
        assert(utf8_spans(x, off) =~= Seq::new(x.len(), |i: int| Span { begin: (off + i) as usize, len: 1 }));
    }
}

} // verus!
