//! Counting the morphemes that the live spans hold.
use vstd::prelude::*;
use crate::byte_str::ByteStr;
use crate::merge::{lemma_merge_step, lemma_pair_key_run, merge_step, pair_key};
use crate::span::{
    lemma_next_live_from, lemma_tiles_bounds, live, live_count, next_live, spans_in_range, text,
    tiles, Span,
};
use crate::span_merger::SpanMerger;

verus! {

/// How many live spans among `0..i` hold the text `t`.
pub open spec fn text_count(s: Seq<Span>, x: Seq<u8>, t: Seq<u8>, i: int) -> nat
    decreases i,
{
    if i <= 0 {
        0
    } else {
        text_count(s, x, t, i - 1) + if s[i - 1].len > 0 && text(s, x, i - 1) == t {
            1nat
        } else {
            0nat
        }
    }
}

/// The merge at `p`, whose pair has the bytes `k`, adds one live span holding `k` after `p`
/// and takes none away: the two texts it joins are shorter than `k`.
pub proof fn lemma_text_count_step(s: Seq<Span>, x: Seq<u8>, k: Seq<u8>, p: int, i: int)
    requires
        tiles(s, x.len() as int),
        x.len() <= usize::MAX,
        live(s, p),
        next_live(s, p) < s.len(),
        pair_key(s, x, p) == k,
        0 <= i <= s.len(),
    ensures
        text_count(merge_step(s, p), x, k, i) == text_count(s, x, k, i) + (if i > p { 1int } else { 0int }),
    decreases i,
{
    lemma_merge_step(s, x, p);
    if i > 0 {
        lemma_text_count_step(s, x, k, p, i - 1);
        let q = next_live(s, p);
        let s2 = merge_step(s, p);
        let j = i - 1;
        lemma_next_live_from(s, p + 1);
        lemma_pair_key_run(s, x, p);
        lemma_tiles_bounds(s, x.len() as int, p);
        lemma_tiles_bounds(s, x.len() as int, q);
        if j == p {
            assert(text(s, x, p).len() < k.len());
        } else if j == q {
            assert(text(s, x, q).len() < k.len());
        } else {
            assert(s2[j] == s[j]);
        }
    }
}

/// `r` lists each morpheme of the live spans of `s` once, with how many live spans hold it.
pub open spec fn is_morpheme_count<'a>(r: Seq<(ByteStr<'a>, usize)>, s: Seq<Span>, x: Seq<u8>) -> bool {
    &&& forall|e1: int, e2: int| 0 <= e1 < r.len() && 0 <= e2 < r.len() && e1 != e2 ==> (#[trigger] r[e1]).0@ != (#[trigger] r[e2]).0@
    &&& forall|e: int| 0 <= e < r.len() ==> (#[trigger] r[e]).1 == text_count(s, x, r[e].0@, s.len() as int) && r[e].1 > 0
    &&& forall|t: Seq<u8>| #[trigger] text_count(s, x, t, s.len() as int) > 0 ==> exists|e: int| 0 <= e < r.len() && (#[trigger] r[e]).0@ == t
}

/// The same, for owned byte strings.
pub open spec fn is_owned_morpheme_count(r: Seq<(Vec<u8>, usize)>, s: Seq<Span>, x: Seq<u8>) -> bool {
    &&& forall|e1: int, e2: int| 0 <= e1 < r.len() && 0 <= e2 < r.len() && e1 != e2 ==> (#[trigger] r[e1]).0@ != (#[trigger] r[e2]).0@
    &&& forall|e: int| 0 <= e < r.len() ==> (#[trigger] r[e]).1 == text_count(s, x, r[e].0@, s.len() as int) && r[e].1 > 0
    &&& forall|t: Seq<u8>| #[trigger] text_count(s, x, t, s.len() as int) > 0 ==> exists|e: int| 0 <= e < r.len() && (#[trigger] r[e]).0@ == t
}

/// The sum of the counts of a list of morphemes.
pub open spec fn total_count<'a>(r: Seq<(ByteStr<'a>, usize)>) -> nat
    decreases r.len(),
{
    if r.len() == 0 {
        0
    } else {
        total_count(r.drop_last()) + r.last().1 as nat
    }
}

proof fn lemma_total_count_update<'a>(r: Seq<(ByteStr<'a>, usize)>, e: int, v: (ByteStr<'a>, usize))
    requires
        0 <= e < r.len(),
    ensures
        total_count(r.update(e, v)) + r[e].1 == total_count(r) + v.1,
    decreases r.len(),
{
    if e < r.len() - 1 {
        lemma_total_count_update(r.drop_last(), e, v);
        assert(r.update(e, v).drop_last() =~= r.drop_last().update(e, v));
    } else {
        assert(r.update(e, v).drop_last() =~= r.drop_last());
    }
}

proof fn lemma_text_count_le(s: Seq<Span>, x: Seq<u8>, t: Seq<u8>, i: int)
    requires
        0 <= i,
    ensures
        text_count(s, x, t, i) <= i,
    decreases i,
{
    if i > 0 {
        lemma_text_count_le(s, x, t, i - 1);
    }
}

/// The position of `key` among the morphemes of `tokens`.
fn find_token<'a>(tokens: &Vec<(ByteStr<'a>, usize)>, key: ByteStr<'a>) -> (r: Option<usize>)
    ensures
        r matches Some(e) ==> e < tokens@.len() && tokens@[e as int].0@ == key@,
        r is None ==> forall|f: int| 0 <= f < tokens@.len() ==> (#[trigger] tokens@[f]).0@ != key@,
{
    let m = tokens.len();
    let mut e: usize = 0;
    while e < m
        invariant
            m == tokens@.len(),
            e <= m,
            forall|f: int| 0 <= f < e ==> (#[trigger] tokens@[f]).0@ != key@,
        decreases m - e,
    {
        if tokens[e].0.eq_bytes(key.as_bytes()) {
            return Some(e);
        }
        e += 1;
    }
    None
}

impl<'a> SpanMerger<'a> {
    /// Each morpheme (the text of a live span) with how many live spans hold it.
    pub fn morphemes_map(&self) -> (r: Vec<(ByteStr<'a>, usize)>)
        requires
            spans_in_range(self.spans@, self.input@.len() as int),
        ensures
            is_morpheme_count(r@, self.spans@, self.input@),
            total_count(r@) == live_count(self.spans@, self.spans@.len() as int),
    {
        let ghost s = self.spans@;
        let ghost x = self.input@;
        let n = self.spans.len();
        let mut tokens: Vec<(ByteStr<'a>, usize)> = Vec::new();
        let mut i: usize = 0;
        while i < n
            invariant
                n == s.len(),
                s == self.spans@,
                x == self.input@,
                spans_in_range(s, x.len() as int),
                i <= n,
                forall|e1: int, e2: int| 0 <= e1 < tokens@.len() && 0 <= e2 < tokens@.len() && e1 != e2 ==> (#[trigger] tokens@[e1]).0@ != (#[trigger] tokens@[e2]).0@,
                forall|e: int| 0 <= e < tokens@.len() ==> (#[trigger] tokens@[e]).1 == text_count(s, x, tokens@[e].0@, i as int) && tokens@[e].1 > 0,
                forall|t: Seq<u8>| #[trigger] text_count(s, x, t, i as int) > 0 ==> exists|e: int| 0 <= e < tokens@.len() && (#[trigger] tokens@[e]).0@ == t,
                total_count(tokens@) == live_count(s, i as int),
            decreases n - i,
        {
            let sp = self.spans[i];
            if sp.len != 0 {
                proof {
                    assert(s[i as int].begin + s[i as int].len <= x.len());
                }
                let key = sp.get(self.input);
                assert(key@ == text(s, x, i as int));
                let ghost old_tokens = tokens@;
                let m = tokens.len();
                let found_at = find_token(&tokens, key);
                let found = found_at.is_some();
                let e: usize = match found_at { Some(f) => f, None => m };
                if found {
                    let (k, c) = tokens[e];
                    proof {
                        lemma_text_count_le(s, x, k@, i as int);
                    }
                    tokens.set(e, (k, c + 1));
                    proof {
                        lemma_total_count_update(old_tokens, e as int, (k, (c + 1) as usize));
                        assert forall|f: int| 0 <= f < tokens@.len() implies (#[trigger] tokens@[f]).1 == text_count(s, x, tokens@[f].0@, i + 1) && tokens@[f].1 > 0 by {
                            assert(tokens@[f].0@ == old_tokens[f].0@);
                        }
                        assert forall|t: Seq<u8>| #[trigger] text_count(s, x, t, i + 1) > 0 implies exists|f: int| 0 <= f < tokens@.len() && (#[trigger] tokens@[f]).0@ == t by {
                            if t == key@ {
                                assert(tokens@[e as int].0@ == t);
                            } else {
                                assert(text_count(s, x, t, i as int) > 0);
                                let f = choose|f: int| 0 <= f < old_tokens.len() && (#[trigger] old_tokens[f]).0@ == t;
                                assert(tokens@[f].0@ == t);
                            }
                        }
                        assert forall|e1: int, e2: int| 0 <= e1 < tokens@.len() && 0 <= e2 < tokens@.len() && e1 != e2 implies (#[trigger] tokens@[e1]).0@ != (#[trigger] tokens@[e2]).0@ by {
                            assert(tokens@[e1].0@ == old_tokens[e1].0@);
                            assert(tokens@[e2].0@ == old_tokens[e2].0@);
                        }
                    }
                } else {
                    proof {
                        if text_count(s, x, key@, i as int) > 0 {
                            let f = choose|f: int| 0 <= f < old_tokens.len() && (#[trigger] old_tokens[f]).0@ == key@;
                            assert(false);
                        }
                    }
                    tokens.push((key, 1));
                    proof {
                        assert(tokens@.drop_last() =~= old_tokens);
                        assert forall|f: int| 0 <= f < tokens@.len() implies (#[trigger] tokens@[f]).1 == text_count(s, x, tokens@[f].0@, i + 1) && tokens@[f].1 > 0 by {
                            if f < old_tokens.len() {
                                assert(tokens@[f] == old_tokens[f]);
                            }
                        }
                        assert forall|t: Seq<u8>| #[trigger] text_count(s, x, t, i + 1) > 0 implies exists|f: int| 0 <= f < tokens@.len() && (#[trigger] tokens@[f]).0@ == t by {
                            if t == key@ {
                                assert(tokens@[m as int].0@ == t);
                            } else {
                                assert(text_count(s, x, t, i as int) > 0);
                                let f = choose|f: int| 0 <= f < old_tokens.len() && (#[trigger] old_tokens[f]).0@ == t;
                                assert(tokens@[f].0@ == t);
                            }
                        }
                        assert forall|e1: int, e2: int| 0 <= e1 < tokens@.len() && 0 <= e2 < tokens@.len() && e1 != e2 implies (#[trigger] tokens@[e1]).0@ != (#[trigger] tokens@[e2]).0@ by {
                            if e1 < old_tokens.len() && e2 < old_tokens.len() {
                                assert(tokens@[e1] == old_tokens[e1]);
                                assert(tokens@[e2] == old_tokens[e2]);
                            } else if e1 < old_tokens.len() {
                                assert(tokens@[e1] == old_tokens[e1]);
                            } else {
                                assert(tokens@[e2] == old_tokens[e2]);
                            }
                        }
                    }
                }
            } else {
                proof {
                    assert forall|t: Seq<u8>| #[trigger] text_count(s, x, t, i + 1) > 0 implies exists|f: int| 0 <= f < tokens@.len() && (#[trigger] tokens@[f]).0@ == t by {
                        assert(text_count(s, x, t, i as int) > 0);
                    }
                }
            }
            i += 1;
        }
        tokens
    }
}


/// Inserting at the first entry with a lower count keeps the entries sorted by count.
proof fn lemma_insert_order<'a>(old_out: Seq<(ByteStr<'a>, usize)>, pos: int, v: (ByteStr<'a>, usize))
    requires
        0 <= pos <= old_out.len(),
        forall|j: int| 0 <= j < pos ==> (#[trigger] old_out[j]).1 >= v.1,
        pos < old_out.len() ==> old_out[pos].1 < v.1,
        forall|i: int, j: int| 0 <= i < j < old_out.len() ==> (#[trigger] old_out[i]).1 >= (#[trigger] old_out[j]).1,
    ensures
        forall|i: int, j: int| 0 <= i < j < old_out.insert(pos, v).len() ==> (#[trigger] old_out.insert(pos, v)[i]).1 >= (#[trigger] old_out.insert(pos, v)[j]).1,
{
    let out = old_out.insert(pos, v);
    assert forall|i: int, j: int| 0 <= i < j < out.len() implies (#[trigger] out[i]).1 >= (#[trigger] out[j]).1 by {
        if j < pos {
            assert(out[i] == old_out[i] && out[j] == old_out[j]);
        } else if j == pos {
            assert(out[i] == old_out[i]);
        } else if i < pos {
            assert(out[i] == old_out[i] && out[j] == old_out[j - 1]);
            if pos < j - 1 {
                assert(old_out[pos].1 >= old_out[j - 1].1);
            }
        } else if i == pos {
            assert(out[j] == old_out[j - 1]);
            if pos < j - 1 {
                assert(old_out[pos].1 >= old_out[j - 1].1);
            }
        } else {
            assert(out[i] == old_out[i - 1] && out[j] == old_out[j - 1]);
        }
    }
}

/// After the insertion of `m[e]`, the output holds exactly the entries `m[0..=e]`.
proof fn lemma_insert_same<'a>(m: Seq<(ByteStr<'a>, usize)>, old_out: Seq<(ByteStr<'a>, usize)>, pos: int, e: int)
    requires
        0 <= e < m.len(),
        0 <= pos <= old_out.len(),
        forall|j: int| #![trigger old_out[j]] 0 <= j < old_out.len() ==> exists|f: int| 0 <= f < e && (#[trigger] m[f]) == old_out[j],
        forall|f: int| #![trigger m[f]] 0 <= f < e ==> exists|j: int| 0 <= j < old_out.len() && (#[trigger] old_out[j]) == m[f],
    ensures
        forall|j: int| #![trigger old_out.insert(pos, m[e])[j]] 0 <= j < old_out.insert(pos, m[e]).len() ==> exists|f: int| 0 <= f < e + 1 && (#[trigger] m[f]) == old_out.insert(pos, m[e])[j],
        forall|f: int| #![trigger m[f]] 0 <= f < e + 1 ==> exists|j: int| 0 <= j < old_out.insert(pos, m[e]).len() && (#[trigger] old_out.insert(pos, m[e])[j]) == m[f],
{
    let out = old_out.insert(pos, m[e]);
    assert forall|j: int| #![trigger out[j]] 0 <= j < out.len() implies exists|f: int| 0 <= f < e + 1 && (#[trigger] m[f]) == out[j] by {
        if j < pos {
            assert(out[j] == old_out[j]);
            let f = choose|f: int| 0 <= f < e && (#[trigger] m[f]) == old_out[j];
            assert(m[f] == out[j]);
        } else if j == pos {
            assert(m[e] == out[j]);
        } else {
            assert(out[j] == old_out[j - 1]);
            let f = choose|f: int| 0 <= f < e && (#[trigger] m[f]) == old_out[j - 1];
            assert(m[f] == out[j]);
        }
    }
    assert forall|f: int| #![trigger m[f]] 0 <= f < e + 1 implies exists|j: int| 0 <= j < out.len() && (#[trigger] out[j]) == m[f] by {
        if f == e {
            assert(out[pos] == m[f]);
        } else {
            let j = choose|j: int| 0 <= j < old_out.len() && (#[trigger] old_out[j]) == m[f];
            if j < pos {
                assert(out[j] == m[f]);
            } else {
                assert(out[j + 1] == m[f]);
            }
        }
    }
}

/// The insertion of `m[e]` keeps the morphemes of the output distinct.
proof fn lemma_insert_distinct<'a>(m: Seq<(ByteStr<'a>, usize)>, old_out: Seq<(ByteStr<'a>, usize)>, pos: int, e: int)
    requires
        0 <= e < m.len(),
        0 <= pos <= old_out.len(),
        forall|j: int| #![trigger old_out[j]] 0 <= j < old_out.len() ==> exists|f: int| 0 <= f < e && (#[trigger] m[f]) == old_out[j],
        forall|e1: int, e2: int| 0 <= e1 < old_out.len() && 0 <= e2 < old_out.len() && e1 != e2 ==> (#[trigger] old_out[e1]).0@ != (#[trigger] old_out[e2]).0@,
        forall|e1: int, e2: int| 0 <= e1 < m.len() && 0 <= e2 < m.len() && e1 != e2 ==> (#[trigger] m[e1]).0@ != (#[trigger] m[e2]).0@,
    ensures
        forall|e1: int, e2: int| 0 <= e1 < old_out.insert(pos, m[e]).len() && 0 <= e2 < old_out.insert(pos, m[e]).len() && e1 != e2 ==> (#[trigger] old_out.insert(pos, m[e])[e1]).0@ != (#[trigger] old_out.insert(pos, m[e])[e2]).0@,
{
    let out = old_out.insert(pos, m[e]);
    assert forall|e1: int, e2: int| 0 <= e1 < out.len() && 0 <= e2 < out.len() && e1 != e2 implies (#[trigger] out[e1]).0@ != (#[trigger] out[e2]).0@ by {
        let oi1 = if e1 < pos { e1 } else { e1 - 1 };
        let oi2 = if e2 < pos { e2 } else { e2 - 1 };
        if e1 == pos {
            assert(out[e2] == old_out[oi2]);
            let f = choose|f: int| 0 <= f < e && (#[trigger] m[f]) == old_out[oi2];
            assert(m[f].0@ != m[e].0@);
        } else if e2 == pos {
            assert(out[e1] == old_out[oi1]);
            let f = choose|f: int| 0 <= f < e && (#[trigger] m[f]) == old_out[oi1];
            assert(m[f].0@ != m[e].0@);
        } else {
            assert(out[e1] == old_out[oi1]);
            assert(out[e2] == old_out[oi2]);
        }
    }
}

impl<'a> SpanMerger<'a> {
    /// The morphemes with their counts, the most frequent first.
    pub fn morphemes_vec(&self) -> (r: Vec<(ByteStr<'a>, usize)>)
        requires
            spans_in_range(self.spans@, self.input@.len() as int),
        ensures
            is_morpheme_count(r@, self.spans@, self.input@),
            forall|i: int, j: int| 0 <= i < j < r@.len() ==> (#[trigger] r@[i]).1 >= (#[trigger] r@[j]).1,
    {
        let m = self.morphemes_map();
        let n = m.len();
        let mut out: Vec<(ByteStr<'a>, usize)> = Vec::new();
        let mut e: usize = 0;
        while e < n
            invariant
                n == m@.len(),
                e <= n,
                out@.len() == e,
                forall|i: int, j: int| 0 <= i < j < out@.len() ==> (#[trigger] out@[i]).1 >= (#[trigger] out@[j]).1,
                forall|j: int| #![trigger out@[j]] 0 <= j < out@.len() ==> exists|f: int| 0 <= f < e && (#[trigger] m@[f]) == out@[j],
                forall|f: int| #![trigger m@[f]] 0 <= f < e ==> exists|j: int| 0 <= j < out@.len() && (#[trigger] out@[j]) == m@[f],
                forall|e1: int, e2: int| 0 <= e1 < out@.len() && 0 <= e2 < out@.len() && e1 != e2 ==> (#[trigger] out@[e1]).0@ != (#[trigger] out@[e2]).0@,
                forall|e1: int, e2: int| 0 <= e1 < m@.len() && 0 <= e2 < m@.len() && e1 != e2 ==> (#[trigger] m@[e1]).0@ != (#[trigger] m@[e2]).0@,
            decreases n - e,
        {
            let item = m[e];
            let c = item.1;
            let len = out.len();
            let mut pos: usize = 0;
            while pos < len && out[pos].1 >= c
                invariant
                    len == out@.len(),
                    pos <= len,
                    forall|j: int| 0 <= j < pos ==> (#[trigger] out@[j]).1 >= c,
                decreases len - pos,
            {
                pos += 1;
            }
            let ghost old_out = out@;
            out.insert(pos, item);
            proof {
                assert(out@ == old_out.insert(pos as int, m@[e as int]));
                lemma_insert_order(old_out, pos as int, m@[e as int]);
                lemma_insert_same(m@, old_out, pos as int, e as int);
                lemma_insert_distinct(m@, old_out, pos as int, e as int);
            }
            e += 1;
        }
        proof {
            let s = self.spans@;
            let x = self.input@;
            assert forall|j: int| 0 <= j < out@.len() implies (#[trigger] out@[j]).1 == text_count(s, x, out@[j].0@, s.len() as int) && out@[j].1 > 0 by {
                let f = choose|f: int| 0 <= f < n && (#[trigger] m@[f]) == out@[j];
            }
            assert forall|t: Seq<u8>| #[trigger] text_count(s, x, t, s.len() as int) > 0 implies exists|j: int| 0 <= j < out@.len() && (#[trigger] out@[j]).0@ == t by {
                let f = choose|f: int| 0 <= f < m@.len() && (#[trigger] m@[f]).0@ == t;
                let j = choose|j: int| 0 <= j < out@.len() && (#[trigger] out@[j]) == m@[f];
            }
        }
        out
    }

    /// `morphemes_map`, with each morpheme copied out of the input.
    pub fn morphemes_map_to_owned(&self) -> (r: Vec<(Vec<u8>, usize)>)
        requires
            spans_in_range(self.spans@, self.input@.len() as int),
        ensures
            is_owned_morpheme_count(r@, self.spans@, self.input@),
    {
        let m = self.morphemes_map();
        let n = m.len();
        let mut out: Vec<(Vec<u8>, usize)> = Vec::new();
        let mut e: usize = 0;
        while e < n
            invariant
                n == m@.len(),
                e <= n,
                out@.len() == e,
                forall|j: int| 0 <= j < e ==> (#[trigger] out@[j]).0@ == m@[j].0@ && out@[j].1 == m@[j].1,
            decreases n - e,
        {
            let (k, c) = m[e];
            let owned = vstd::slice::slice_to_vec(k.as_bytes());
            out.push((owned, c));
            e += 1;
        }
        proof {
            let s = self.spans@;
            let x = self.input@;
            assert forall|e1: int, e2: int| 0 <= e1 < out@.len() && 0 <= e2 < out@.len() && e1 != e2 implies (#[trigger] out@[e1]).0@ != (#[trigger] out@[e2]).0@ by {
                assert(m@[e1].0@ != m@[e2].0@);
            }
            assert forall|t: Seq<u8>| #[trigger] text_count(s, x, t, s.len() as int) > 0 implies exists|j: int| 0 <= j < out@.len() && (#[trigger] out@[j]).0@ == t by {
                let f = choose|f: int| 0 <= f < m@.len() && (#[trigger] m@[f]).0@ == t;
                assert(out@[f].0@ == t);
            }
        }
        out
    }
}

/// `r` has an entry with the bytes `t` and the number `n`.
pub open spec fn has_entry<'a>(r: Seq<(ByteStr<'a>, usize)>, t: Seq<u8>, n: usize) -> bool {
    exists|e: int| 0 <= e < r.len() && (#[trigger] r[e]).0@ == t && r[e].1 == n
}

/// `o` has an entry with the bytes `t` and the number `n`.
pub open spec fn has_owned_entry(o: Seq<(Vec<u8>, usize)>, t: Seq<u8>, n: usize) -> bool {
    exists|f: int| 0 <= f < o.len() && (#[trigger] o[f]).0@ == t && o[f].1 == n
}

/// A count of the morphemes and a count with owned bytes, of the same spans, name the same
/// morphemes with the same numbers.
pub proof fn lemma_owned_count_agrees<'a>(r: Seq<(ByteStr<'a>, usize)>, o: Seq<(Vec<u8>, usize)>, s: Seq<Span>, x: Seq<u8>)
    requires
        is_morpheme_count(r, s, x),
        is_owned_morpheme_count(o, s, x),
    ensures
        forall|e: int| 0 <= e < r.len() ==> has_owned_entry(o, (#[trigger] r[e]).0@, r[e].1),
        forall|f: int| 0 <= f < o.len() ==> has_entry(r, (#[trigger] o[f]).0@, o[f].1),
{
    assert forall|e: int| 0 <= e < r.len() implies has_owned_entry(o, (#[trigger] r[e]).0@, r[e].1) by {
        let t = r[e].0@;
        assert(r[e].1 == text_count(s, x, t, s.len() as int) && r[e].1 > 0);
        let g = choose|g: int| 0 <= g < o.len() && (#[trigger] o[g]).0@ == t;
        assert(o[g].1 == text_count(s, x, t, s.len() as int));
    }
    assert forall|f: int| 0 <= f < o.len() implies has_entry(r, (#[trigger] o[f]).0@, o[f].1) by {
        let t = o[f].0@;
        assert(o[f].1 == text_count(s, x, t, s.len() as int) && o[f].1 > 0);
        let g = choose|g: int| 0 <= g < r.len() && (#[trigger] r[g]).0@ == t;
        assert(r[g].1 == text_count(s, x, t, s.len() as int));
    }
}

} // verus!
