//! The merger: a row of spans over the input, merged pair by pair.
use vstd::prelude::*;
use crate::byte_str::{bytes_eq, utf8_str, ByteStr};
use crate::merge::{
    eligible, lemma_merge_all, lemma_merge_step, lemma_pair_key_run, merge_all, merge_step,
    merged_count, merges_eligible, pair_key, step_eligible, table_complete, table_complete_but,
    table_eligible, table_sound, step_keys, added_keys, listed, listed_step, listed_after, step_safe,
    merge_finds, step_found,
};
use crate::span::{
    all_live, byte_spans, concat_texts, lemma_concat_texts, lemma_next_live_from,
    lemma_next_live_from_unique, lemma_prefix_len_mono, lemma_prev_live_from,
    lemma_prev_live_from_unique, lemma_prev_of_next, lemma_tiles_bounds, lemma_tiles_next_begin,
    lemma_tiles_in_range, lemma_tiles_push, live, live_count, next_live, prefix_len, prev_live,
    text, tiles, utf8_spans, InputKind, Span, spans_in_range, adjacent_in_range,
};
use vstd::utf8::{length_of_first_scalar, pop_first_scalar, valid_first_scalar, valid_utf8};
use crate::counting::{lemma_text_count_step, text_count};
use crate::table::{lemma_same_listing_maps, listing_count, registered, strictly_sorted, table_map, MorphenePairEntry, MorphenePairs};

verus! {

/// Cuts an input into spans and merges the most frequent adjacent pairs into morphemes.
pub struct SpanMerger<'a> {
    pub input_kind: InputKind,
    pub input: ByteStr<'a>,
    /// Spans are never removed: a merged-away span keeps length 0. The live spans are
    /// contiguous, in order, do not overlap, and cover the input.
    pub spans: Vec<Span>,
    /// For each pair of adjacent morphemes (by its bytes), the spans where it starts.
    pub pairs: MorphenePairs<'a>,
    /// Morphemes that are never merged with a neighbour (a separator, a space, a dot...).
    pub single_morphene: Vec<Vec<u8>>,
}

impl<'a> SpanMerger<'a> {
    /// The morphemes that stay on their own.
    pub open spec fn singles(&self) -> Seq<Seq<u8>> {
        self.single_morphene@.map_values(|v: Vec<u8>| v@)
    }

    /// The spans tile the input and the pair table is well formed.
    pub open spec fn wf(&self) -> bool {
        &&& tiles(self.spans@, self.input@.len() as int)
        &&& self.pairs.wf()
    }

    /// Every span in the pair table starts a pair with the table's bytes.
    pub open spec fn pairs_sound(&self) -> bool {
        table_sound(self.pairs@, self.spans@, self.input@)
    }

    /// Every pair that may be merged is in the pair table.
    pub open spec fn pairs_complete(&self) -> bool {
        table_complete(self.pairs@, self.spans@, self.input@, self.singles())
    }

    /// The pair table lists exactly the pairs that may be merged.
    pub open spec fn pairs_exact(&self) -> bool {
        &&& self.pairs_sound()
        &&& self.pairs_complete()
        &&& table_eligible(self.pairs@, self.spans@, self.input@, self.singles())
    }

    /// True when `t` is a morpheme that stays on its own.
    fn is_single(&self, t: ByteStr) -> (r: bool)
        ensures
            r == self.singles().contains(t@),
    {
        let n = self.single_morphene.len();
        let mut i: usize = 0;
        while i < n
            invariant
                n == self.single_morphene@.len(),
                i <= n,
                forall|j: int| 0 <= j < i ==> self.singles()[j] != t@,
            decreases n - i,
        {
            if bytes_eq(self.single_morphene[i].as_slice(), t.as_bytes()) {
                assert(self.singles()[i as int] == t@);
                return true;
            }
            i += 1;
        }
        false
    }

    /// The live span before span `p`, if any.
    fn prev_live_index(&self, p: usize) -> (r: Option<usize>)
        requires
            p < self.spans@.len(),
        ensures
            prev_live(self.spans@, p as int) >= 0 ==> r == Some(prev_live(self.spans@, p as int) as usize),
            prev_live(self.spans@, p as int) < 0 ==> r is None,
    {
        let ghost s = self.spans@;
        let mut tmp = p;
        while tmp > 0
            invariant
                tmp <= p < s.len(),
                s == self.spans@,
                forall|k: int| tmp <= k < p ==> !live(s, k),
            decreases tmp,
        {
            tmp -= 1;
            if self.spans[tmp].len != 0 {
                proof {
                    lemma_prev_live_from_unique(s, p - 1, tmp as int);
                }
                return Some(tmp);
            }
        }
        proof {
            lemma_prev_live_from_unique(s, p - 1, -1);
        }
        None
    }

    /// The live span after span `p`, and the live span after that one.
    fn suffix_and_next(&self, p: usize) -> (r: (Option<usize>, Option<usize>))
        requires
            p < self.spans@.len(),
        ensures
            ({
                let s = self.spans@;
                let q = next_live(s, p as int);
                &&& q < s.len() ==> r.0 == Some(q as usize)
                &&& q >= s.len() ==> r.0 is None && r.1 is None
                &&& q < s.len() && next_live(s, q) < s.len() ==> r.1 == Some(next_live(s, q) as usize)
                &&& q < s.len() && next_live(s, q) >= s.len() ==> r.1 is None
            }),
    {
        let ghost s = self.spans@;
        let n = self.spans.len();
        let mut suffix_id: Option<usize> = None;
        let mut tmp = p;
        proof {
            lemma_next_live_from(s, p + 1);
        }
        while tmp + 1 < n
            invariant
                n == s.len(),
                s == self.spans@,
                p <= tmp < n,
                suffix_id is None ==> forall|k: int| p < k <= tmp ==> !live(s, k),
                suffix_id matches Some(q) ==> q == next_live(s, p as int) && q <= tmp && forall|k: int| q < k <= tmp ==> !live(s, k),
            decreases n - tmp,
        {
            tmp += 1;
            if self.spans[tmp].len != 0 {
                match suffix_id {
                    None => {
                        proof {
                            lemma_next_live_from_unique(s, p + 1, tmp as int);
                        }
                        suffix_id = Some(tmp);
                    },
                    Some(q) => {
                        proof {
                            lemma_next_live_from_unique(s, q + 1, tmp as int);
                        }
                        return (suffix_id, Some(tmp));
                    },
                }
            }
        }
        proof {
            match suffix_id {
                None => {
                    lemma_next_live_from_unique(s, p + 1, n as int);
                },
                Some(q) => {
                    lemma_next_live_from_unique(s, q + 1, n as int);
                },
            }
        }
        (suffix_id, None)
    }
}


/// After the merge at `p`, the table lists the spans that `listed_step` says, when it takes
/// out the pairs of the span before `p` and of the swallowed span (table `m2`, then `m4`) and
/// puts in the pairs of the merged span with its neighbours whose texts do not stay on
/// their own.
proof fn lemma_listed_after_merge(
    m0: Map<Seq<u8>, Seq<usize>>,
    m2: Map<Seq<u8>, Seq<usize>>,
    m4: Map<Seq<u8>, Seq<usize>>,
    s: Seq<Span>,
    x: Seq<u8>,
    ss: Seq<Seq<u8>>,
    k: Seq<u8>,
    p: int,
)
    requires
        tiles(s, x.len() as int),
        x.len() <= usize::MAX,
        s.len() <= usize::MAX,
        live(s, p),
        next_live(s, p) < s.len(),
        table_sound(m0, s, x),
        pair_key(s, x, p) == k,
        !m0.dom().contains(k),
        forall|kk: Seq<u8>, b: usize| #[trigger] registered(m2, kk, b) <==> (
            (registered(m0, kk, b) && !(prev_live(s, p) >= 0 && kk == pair_key(s, x, prev_live(s, p)) && b as int == prev_live(s, p)))
            || (prev_live(s, p) >= 0 && !ss.contains(text(s, x, prev_live(s, p))) && kk == pair_key(merge_step(s, p), x, prev_live(s, p))
                && b as int == prev_live(s, p))),
        forall|kk: Seq<u8>, b: usize| #[trigger] registered(m4, kk, b) <==> (
            (registered(m2, kk, b) && !(next_live(s, next_live(s, p)) < s.len() && kk == pair_key(s, x, next_live(s, p))
                && b as int == next_live(s, p)))
            || (next_live(s, next_live(s, p)) < s.len() && !ss.contains(text(s, x, next_live(s, next_live(s, p))))
                && kk == pair_key(merge_step(s, p), x, p) && b as int == p)),
    ensures
        listed(m4, merge_step(s, p), x) == listed_step(s, x, ss, listed(m0, s, x), p),
{
    let q = next_live(s, p);
    let pv = prev_live(s, p);
    let nx = next_live(s, q);
    let s2 = merge_step(s, p);
    lemma_merge_step(s, x, p);
    lemma_next_live_from(s, p + 1);
    lemma_prev_live_from(s, p - 1);
    if pv >= 0 {
        lemma_next_live_from_unique(s, pv + 1, p);
    }
    let l0 = listed(m0, s, x);
    assert forall|b: int| #[trigger] listed(m4, s2, x).contains(b) <==> listed_step(s, x, ss, l0, p).contains(b) by {
        if 0 <= b < s.len() {
            if b == pv {
                if registered(m0, pair_key(s2, x, b), b as usize) {
                    assert(pair_key(s2, x, b) == pair_key(s, x, b));
                }
            } else if b == p {
                if registered(m0, pair_key(s2, x, b), b as usize) {
                    assert(pair_key(s, x, p) == pair_key(s2, x, b));
                }
            } else if b == q {
            } else {
                if registered(m0, pair_key(s, x, b), b as usize) {
                    assert(live(s, b));
                    assert(live(s2, b));
                    lemma_prev_of_next(s, b);
                    let r = next_live(s, b);
                    lemma_next_live_from(s, b + 1);
                    assert(r != p && r != q);
                    assert(next_live(s2, b) == r);
                    assert(text(s2, x, b) == text(s, x, b));
                    assert(text(s2, x, r) == text(s, x, r));
                    assert(pair_key(s2, x, b) == pair_key(s, x, b));
                }
            }
        }
    }
    assert(listed(m4, s2, x) =~= listed_step(s, x, ss, l0, p));
}

/// The table holds the keys of the pairs that the merge at `p` takes out: either the pair at
/// `p` may be merged and every other such pair is in the table, or `step_safe` says so.
proof fn lemma_step_found(
    m: Map<Seq<u8>, Seq<usize>>,
    s: Seq<Span>,
    x: Seq<u8>,
    ss: Seq<Seq<u8>>,
    k: Seq<u8>,
    p: int,
    by_eligible: bool,
)
    requires
        live(s, p),
        next_live(s, p) < s.len(),
        by_eligible ==> table_complete_but(m, s, x, ss, k),
        by_eligible ==> eligible(s, x, ss, p),
        !by_eligible ==> step_safe(s, x, ss, m.dom(), k, p),
    ensures
        step_found(m, s, x, ss, k, p),
{
    let q = next_live(s, p);
    let pv = prev_live(s, p);
    lemma_next_live_from(s, p + 1);
    lemma_prev_live_from(s, p - 1);
    if pv >= 0 {
        lemma_next_live_from_unique(s, pv + 1, p);
    }
    if q < s.len() {
        lemma_next_live_from(s, q + 1);
    }
    if by_eligible {
        if pv >= 0 && !ss.contains(text(s, x, pv)) {
            assert(eligible(s, x, ss, pv));
            if pair_key(s, x, pv) != k {
                assert(registered(m, pair_key(s, x, pv), pv as usize));
            }
        }
        if next_live(s, q) < s.len() && !ss.contains(text(s, x, next_live(s, q))) {
            assert(eligible(s, x, ss, q));
            if pair_key(s, x, q) != k {
                assert(registered(m, pair_key(s, x, q), q as usize));
            }
        }
    }
}

impl<'a> SpanMerger<'a> {
    /// Merges live span `prefix_id` with the live span after it, whose pair has the bytes `k`
    /// (`merged_len` of them), and keeps the pair table in step: the pairs that the two spans
    /// formed with their neighbours leave it, the pairs that the merged span forms with them
    /// enter it.
    #[verifier::rlimit(50)]
    #[verifier::spinoff_prover]
    fn merge_at(
        &mut self,
        prefix_id: usize,
        merged_len: usize,
        Ghost(k): Ghost<Seq<u8>>,
        Ghost(complete): Ghost<bool>,
        Ghost(exact): Ghost<bool>,
    )
        requires
            old(self).wf(),
            old(self).pairs_sound(),
            complete ==> table_complete_but(old(self).pairs@, old(self).spans@, old(self).input@, old(self).singles(), k),
            exact ==> complete,
            !old(self).pairs@.dom().contains(k),
            live(old(self).spans@, prefix_id as int),
            next_live(old(self).spans@, prefix_id as int) < old(self).spans@.len(),
            step_found(old(self).pairs@, old(self).spans@, old(self).input@, old(self).singles(), k, prefix_id as int),
            pair_key(old(self).spans@, old(self).input@, prefix_id as int) == k,
            merged_len == k.len(),
            exact ==> table_eligible(old(self).pairs@, old(self).spans@, old(self).input@, old(self).singles()),
            exact ==> !old(self).singles().contains(k),
        ensures
            final(self).input == old(self).input,
            final(self).input_kind == old(self).input_kind,
            final(self).single_morphene == old(self).single_morphene,
            final(self).spans@ == merge_step(old(self).spans@, prefix_id as int),
            final(self).spans@.len() == old(self).spans@.len(),
            final(self).wf(),
            final(self).pairs_sound(),
            complete ==> table_complete_but(final(self).pairs@, final(self).spans@, final(self).input@, final(self).singles(), k),
            !final(self).pairs@.dom().contains(k),
            final(self).pairs@.dom() == old(self).pairs@.dom() + step_keys(old(self).spans@, old(self).input@, old(self).singles(), prefix_id as int),
            forall|kk: Seq<u8>| #[trigger] step_keys(old(self).spans@, old(self).input@, old(self).singles(), prefix_id as int).contains(kk)
                ==> kk.len() > k.len(),
            listed(final(self).pairs@, final(self).spans@, final(self).input@) == listed_step(
                old(self).spans@,
                old(self).input@,
                old(self).singles(),
                listed(old(self).pairs@, old(self).spans@, old(self).input@),
                prefix_id as int,
            ),
            exact ==> table_eligible(final(self).pairs@, final(self).spans@, final(self).input@, final(self).singles()),
            forall|a: int| #[trigger] eligible(final(self).spans@, final(self).input@, final(self).singles(), a)
                && pair_key(final(self).spans@, final(self).input@, a) == k
                ==> a != prefix_id && eligible(old(self).spans@, old(self).input@, old(self).singles(), a)
                    && pair_key(old(self).spans@, old(self).input@, a) == k,
            forall|b: int| prefix_id < b && #[trigger] live(final(self).spans@, b) ==> live(old(self).spans@, b)
                && eligible(final(self).spans@, final(self).input@, final(self).singles(), b)
                    == eligible(old(self).spans@, old(self).input@, old(self).singles(), b)
                && (eligible(old(self).spans@, old(self).input@, old(self).singles(), b)
                    ==> pair_key(final(self).spans@, final(self).input@, b) == pair_key(old(self).spans@, old(self).input@, b))
                && (next_live(old(self).spans@, b) < old(self).spans@.len() ==> next_live(final(self).spans@, b)
                    < final(self).spans@.len() && pair_key(final(self).spans@, final(self).input@, b) == pair_key(
                    old(self).spans@,
                    old(self).input@,
                    b,
                )),
    {
        let ghost s = self.spans@;
        let ghost x = self.input@;
        let ghost ss = self.singles();
        let ghost m0 = self.pairs@;
        let ghost n = x.len() as int;
        let ghost p = prefix_id as int;
        let _input_len = self.input.len();
        let _spans_len = self.spans.len();
        proof {
            lemma_pair_key_run(s, x, p);
            lemma_merge_step(s, x, p);
            lemma_next_live_from(s, p + 1);
        }
        let ghost q = next_live(s, p);
        let ghost s2 = merge_step(s, p);
        let prefix_span = self.spans[prefix_id];
        let prefix_len = prefix_span.len;
        let suffix_len = merged_len - prefix_len;
        let merged_span = prefix_span.with_added_len(suffix_len);
        let prev_id = self.prev_live_index(prefix_id);
        let (suffix_opt, next_id) = self.suffix_and_next(prefix_id);
        let suffix_id = suffix_opt.unwrap();
        let suffix_span = self.spans[suffix_id];
        proof {
            lemma_next_live_from(s, q + 1);
            lemma_tiles_bounds(s, n, q);
            lemma_prev_of_next(s, p);
        }
        let ghost nx = next_live(s, q);
        let ghost pv = prev_live(s, p);
        proof {
            lemma_prev_live_from(s, p - 1);
            if pv >= 0 {
                lemma_next_live_from_unique(s, pv + 1, p);
                assert(next_live(s, pv) == p);
                lemma_tiles_next_begin(s, n, pv);
                lemma_pair_key_run(s, x, pv);
                lemma_merge_step(s, x, p);
                assert(live(s2, pv));
                assert(next_live(s2, pv) == p);
                lemma_pair_key_run(s2, x, pv);
            }
            if nx < s.len() {
                lemma_tiles_next_begin(s, n, q);
                lemma_pair_key_run(s, x, q);
                lemma_tiles_bounds(s, n, nx);
                assert(live(s2, p));
                assert(next_live(s2, p) == nx);
                lemma_pair_key_run(s2, x, p);
            }
        }
        let ghost mut m2 = self.pairs@;
        let ghost mut added: Set<Seq<u8>> = Set::empty();
        if let Some(prev_id) = prev_id {
            let prev = self.spans[prev_id];
            let prev_pair = prev.with_added_len(prefix_len);
            assert(prev.spec_end() == prefix_span.begin);
            let prev_is_single = self.is_single(prev.get(self.input));
            let found = self.pairs.remove_id(prev_pair.get(self.input).as_bytes(), prev_id);
            if !found && !prev_is_single {
                proof {
                    assert(!m0.dom().contains(pair_key(s, x, pv)));
                    assert(pair_key(s, x, pv) == k);
                }
            }
            if !prev_is_single {
                let new_prev_pair = prev.with_added_len(merged_len);
                let new_prev_key = new_prev_pair.get(self.input);
                self.pairs.insert_id(new_prev_key, prev_id);
                proof {
                    assert(new_prev_key@ == pair_key(s2, x, pv));
                    added = added.insert(new_prev_key@);
                }
            }
        }
        proof {
            m2 = self.pairs@;
            assert forall|kk: Seq<u8>, b: usize| #[trigger] registered(m2, kk, b) <==> (
                (registered(m0, kk, b) && !(pv >= 0 && kk == pair_key(s, x, pv) && b as int == pv))
                || (pv >= 0 && !ss.contains(text(s, x, pv)) && kk == pair_key(s2, x, pv) && b as int == pv)) by {}
        }
        if let Some(next_id) = next_id {
            let next = self.spans[next_id];
            assert(next.begin == suffix_span.spec_end());
            let suffix_pair = suffix_span.with_added_len(next.len);
            let next_is_single = self.is_single(next.get(self.input));
            let found = self.pairs.remove_id(suffix_pair.get(self.input).as_bytes(), suffix_id);
            if !found && !next_is_single {
                proof {
                    assert(!m2.dom().contains(pair_key(s, x, q)));
                    assert(!m0.dom().contains(pair_key(s, x, q)));
                    assert(pair_key(s, x, q) == k);
                }
            }
            if !next_is_single {
                let new_next_pair = merged_span.with_added_len(next.len);
                let new_next_key = new_next_pair.get(self.input);
                self.pairs.insert_id(new_next_key, prefix_id);
                proof {
                    assert(new_next_key@ == pair_key(s2, x, p));
                    added = added.insert(new_next_key@);
                }
            }
        }
        proof {
            let m4 = self.pairs@;
            assert forall|kk: Seq<u8>, b: usize| #[trigger] registered(m4, kk, b) <==> (
                (registered(m2, kk, b) && !(nx < s.len() && kk == pair_key(s, x, q) && b as int == q))
                || (nx < s.len() && !ss.contains(text(s, x, nx)) && kk == pair_key(s2, x, p) && b as int == p)) by {}
            lemma_listed_after_merge(m0, m2, m4, s, x, ss, k, p);
        }
        self.spans.set(prefix_id, merged_span);
        self.spans.set(suffix_id, Span { begin: suffix_span.begin, len: 0 });
        proof {
            assert(self.spans@ =~= s2);
            let m4 = self.pairs@;
            assert(m4.dom() =~= m0.dom() + added);
            assert(added =~= step_keys(s, x, ss, p)) by {
                if pv >= 0 {
                    assert(text(s2, x, pv) == text(s, x, pv));
                    assert(pair_key(s2, x, pv).len() == text(s, x, pv).len() + k.len());
                }
                if nx < s.len() {
                    assert(text(s2, x, nx) == text(s, x, nx));
                    assert(pair_key(s2, x, p).len() == k.len() + text(s, x, nx).len());
                }
            }
            assert forall|kk: Seq<u8>| #[trigger] step_keys(s, x, ss, p).contains(kk) implies kk.len() > k.len() by {
                if pv >= 0 && kk == pair_key(s2, x, pv) {
                    assert(text(s2, x, pv) == text(s, x, pv));
                    assert(text(s2, x, p) == k);
                    assert(text(s, x, pv).len() > 0);
                }
                if nx < s.len() && kk == pair_key(s2, x, p) {
                    assert(text(s2, x, nx) == text(s, x, nx));
                    assert(text(s2, x, p) == k);
                    assert(text(s, x, nx).len() > 0);
                }
            }
            assert forall|kk: Seq<u8>, b: usize| #[trigger] registered(m4, kk, b) implies {
                &&& live(s2, b as int)
                &&& next_live(s2, b as int) < s2.len()
                &&& pair_key(s2, x, b as int) == kk
                &&& (exact ==> eligible(s2, x, ss, b as int))
            } by {
                if b as int == p && nx < s.len() && !ss.contains(text(s, x, nx)) && kk == pair_key(s2, x, p) {
                    assert(text(s2, x, p) == k);
                    assert(text(s2, x, nx) == text(s, x, nx));
                } else if b as int == pv && pv >= 0 && !ss.contains(text(s, x, pv)) && kk == pair_key(s2, x, pv) {
                    assert(text(s2, x, pv) == text(s, x, pv));
                    assert(text(s2, x, p) == k);
                } else {
                    assert(registered(m0, kk, b));
                    assert(b as int != p);
                    assert(b as int != q);
                    assert(b as int != pv);
                    lemma_next_live_from(s, b + 1);
                    lemma_prev_of_next(s, b as int);
                    let r = next_live(s, b as int);
                    assert(r != p && r != q);
                    assert(live(s2, b as int));
                    assert(next_live(s2, b as int) == r);
                    assert(text(s2, x, b as int) == text(s, x, b as int));
                    assert(text(s2, x, r) == text(s, x, r));
                    assert(pair_key(s2, x, b as int) == pair_key(s, x, b as int));
                }
            }
            if complete {
                assert forall|a: int| #[trigger] eligible(s2, x, ss, a) && pair_key(s2, x, a) != k implies registered(m4, pair_key(s2, x, a), a as usize) by {
                    if a == p {
                        assert(text(s2, x, p) == k);
                        assert(text(s2, x, nx) == text(s, x, nx));
                    } else if a == pv {
                        assert(text(s2, x, pv) == text(s, x, pv));
                        assert(text(s2, x, p) == k);
                    } else {
                        assert(live(s, a) && a != q);
                        lemma_prev_of_next(s, a);
                        let r = next_live(s, a);
                        assert(next_live(s2, a) == r);
                        assert(r != p && r != q);
                        assert(text(s2, x, a) == text(s, x, a));
                        assert(text(s2, x, r) == text(s, x, r));
                        assert(eligible(s, x, ss, a));
                        assert(pair_key(s2, x, a) == pair_key(s, x, a));
                        assert(registered(m0, pair_key(s, x, a), a as usize));
                    }
                }
            }
            assert(!m4.dom().contains(k)) by {
                if m4.dom().contains(k) {
                    assert(m0.dom().contains(k) || k == pair_key(s2, x, pv) || k == pair_key(s2, x, p));
                }
            }
            assert forall|a: int| #[trigger] eligible(s2, x, ss, a) && pair_key(s2, x, a) == k implies
                a != p && eligible(s, x, ss, a) && pair_key(s, x, a) == k by {
                if a == p {
                    assert(text(s2, x, p) == k);
                    assert(text(s2, x, nx).len() > 0);
                    assert(pair_key(s2, x, a).len() > k.len());
                }
                if a == pv {
                    assert(text(s2, x, p) == k);
                    assert(text(s2, x, pv).len() > 0);
                    assert(pair_key(s2, x, a).len() > k.len());
                }
                assert(live(s, a) && a != q);
                lemma_prev_of_next(s, a);
                let r = next_live(s, a);
                assert(next_live(s2, a) == r);
                assert(r != p && r != q);
                assert(text(s2, x, a) == text(s, x, a));
                assert(text(s2, x, r) == text(s, x, r));
            }
            assert forall|b: int| p < b && #[trigger] live(s2, b) implies live(s, b)
                && eligible(s2, x, ss, b) == eligible(s, x, ss, b)
                && (eligible(s, x, ss, b) ==> pair_key(s2, x, b) == pair_key(s, x, b))
                && (next_live(s, b) < s.len() ==> next_live(s2, b) < s2.len() && pair_key(s2, x, b) == pair_key(s, x, b)) by {
                lemma_next_live_from(s, b + 1);
                assert(b > q);
                let r = next_live(s, b);
                assert(next_live(s2, b) == r);
                assert(text(s2, x, b) == text(s, x, b));
                if r < s.len() {
                    assert(text(s2, x, r) == text(s, x, r));
                }
            }
        }
    }
}

/// What a call of `merge_morphene` on the pair with the bytes `k` does, from `before` to
/// `after`, when it returns `r` (see `merge_morphene`).
pub open spec fn merge_result<'a>(before: SpanMerger<'a>, after: SpanMerger<'a>, k: Seq<u8>, r: Result<usize, ()>) -> bool {
    &&& (after.input == before.input)
    &&& (after.input_kind == before.input_kind)
    &&& (after.single_morphene == before.single_morphene)
    &&& (r is Err <==> !before.pairs@.dom().contains(k))
    &&& (r is Err ==> after.spans@ == before.spans@ && after.pairs@ == before.pairs@)
    &&& (r matches Ok(nb) ==> {
        &&& after.spans@ == merge_all(before.spans@, before.pairs@[k])
        &&& nb == merged_count(before.spans@, before.pairs@[k])
        &&& before.pairs_exact() ==> merges_eligible(
            before.spans@,
            before.input@,
            before.singles(),
            before.pairs@[k],
        )
        &&& strictly_sorted(before.pairs@[k])
        &&& text_count(after.spans@, before.input@, k, before.spans@.len() as int)
            == text_count(before.spans@, before.input@, k, before.spans@.len() as int) + nb
        &&& live_count(after.spans@, before.spans@.len() as int) + nb == live_count(
            before.spans@,
            before.spans@.len() as int,
        )
        &&& nb <= before.pairs@[k].len()
        &&& before.pairs@[k].len() > 0 ==> nb > 0
        &&& !after.pairs@.dom().contains(k)
        &&& listed(after.pairs@, after.spans@, before.input@) == listed_after(
            before.spans@,
            before.input@,
            before.singles(),
            listed(before.pairs@.remove(k), before.spans@, before.input@),
            before.pairs@[k],
        )
        &&& after.pairs@.dom() == before.pairs@.dom().remove(k) + added_keys(
            before.spans@,
            before.input@,
            before.singles(),
            before.pairs@[k],
        )
        &&& forall|kk: Seq<u8>| #[trigger] added_keys(
            before.spans@,
            before.input@,
            before.singles(),
            before.pairs@[k],
        ).contains(kk) ==> kk.len() > k.len()
    })
    &&& (after.pairs.wf())
    &&& (before.wf() ==> after.wf())
    &&& (before.pairs_sound() ==> after.pairs_sound())
    &&& (r is Ok ==> after.wf() && after.pairs_sound())
    &&& (before.pairs_complete() ==> after.pairs_complete())
    &&& (before.pairs_exact() && (!before.singles().contains(k)
        || before.pairs@[k].len() == 0) ==> after.pairs_exact())
}

impl<'a> SpanMerger<'a> {
    /// Merges every occurrence of the pair `morphene_pair`, left to right, and returns how many
    /// merges took place. An occurrence whose first span was swallowed by the merge just before
    /// it is skipped. `Err` when the pair is not in the table, which is then left as it was.
    ///
    /// The pair's key leaves the table; the keys of the pairs that the merged spans form with
    /// their neighbours enter it, and keys whose spans all went stay, with no span. Each merge
    /// takes out of the table the pairs that its two spans formed with their neighbours; it
    /// must find their keys in the table (unless a neighbour's text stays on its own, or the
    /// key is the merged pair's), else the merge cannot go on: so it is when the table lists
    /// exactly the pairs that may be merged, or when `merge_finds` says so. A key found without
    /// the span is left as it is.
    ///
    /// ```md
    /// prev prefix suffix next
    ///      |||||||||||||
    ///  aka morphene_pair / merged_pair
    /// ```
    pub fn merge_morphene(&mut self, morphene_pair: ByteStr) -> (r: Result<usize, ()>)
        requires
            old(self).pairs.wf(),
            old(self).pairs@.dom().contains(morphene_pair@) ==> {
                &&& old(self).wf()
                &&& old(self).pairs_sound()
                &&& old(self).pairs_exact() || merge_finds(
                    old(self).spans@,
                    old(self).input@,
                    old(self).singles(),
                    old(self).pairs@.dom().remove(morphene_pair@),
                    morphene_pair@,
                    old(self).pairs@[morphene_pair@],
                )
            },
        ensures
            final(self).input == old(self).input,
            final(self).input_kind == old(self).input_kind,
            final(self).single_morphene == old(self).single_morphene,
            r is Err <==> !old(self).pairs@.dom().contains(morphene_pair@),
            r is Err ==> final(self).spans@ == old(self).spans@ && final(self).pairs@ == old(self).pairs@,
            r matches Ok(nb) ==> {
                &&& final(self).spans@ == merge_all(old(self).spans@, old(self).pairs@[morphene_pair@])
                &&& nb == merged_count(old(self).spans@, old(self).pairs@[morphene_pair@])
                &&& old(self).pairs_exact() ==> merges_eligible(
                    old(self).spans@,
                    old(self).input@,
                    old(self).singles(),
                    old(self).pairs@[morphene_pair@],
                )
                &&& strictly_sorted(old(self).pairs@[morphene_pair@])
                &&& text_count(final(self).spans@, old(self).input@, morphene_pair@, old(self).spans@.len() as int)
                    == text_count(old(self).spans@, old(self).input@, morphene_pair@, old(self).spans@.len() as int) + nb
                &&& live_count(final(self).spans@, old(self).spans@.len() as int) + nb == live_count(
                    old(self).spans@,
                    old(self).spans@.len() as int,
                )
                &&& nb <= old(self).pairs@[morphene_pair@].len()
                &&& old(self).pairs@[morphene_pair@].len() > 0 ==> nb > 0
                &&& !final(self).pairs@.dom().contains(morphene_pair@)
                &&& listed(final(self).pairs@, final(self).spans@, old(self).input@) == listed_after(
                    old(self).spans@,
                    old(self).input@,
                    old(self).singles(),
                    listed(old(self).pairs@.remove(morphene_pair@), old(self).spans@, old(self).input@),
                    old(self).pairs@[morphene_pair@],
                )
                &&& final(self).pairs@.dom() == old(self).pairs@.dom().remove(morphene_pair@) + added_keys(
                    old(self).spans@,
                    old(self).input@,
                    old(self).singles(),
                    old(self).pairs@[morphene_pair@],
                )
                &&& forall|kk: Seq<u8>| #[trigger] added_keys(
                    old(self).spans@,
                    old(self).input@,
                    old(self).singles(),
                    old(self).pairs@[morphene_pair@],
                ).contains(kk) ==> kk.len() > morphene_pair@.len()
            },
            final(self).pairs.wf(),
            old(self).wf() ==> final(self).wf(),
            old(self).pairs_sound() ==> final(self).pairs_sound(),
            r is Ok ==> final(self).wf() && final(self).pairs_sound(),
            old(self).pairs_complete() ==> final(self).pairs_complete(),
            old(self).pairs_exact() && (!old(self).singles().contains(morphene_pair@)
                || old(self).pairs@[morphene_pair@].len() == 0) ==> final(self).pairs_exact(),
    {
        match self.merge_checked(morphene_pair) {
            Some(res) => res,
            None => {
                proof {
                    assert(false);
                }
                Err(())
            },
        }
    }

    /// Merges every occurrence of the pair `morphene_pair` as `merge_morphene` does, but stops
    /// with `None` at the first merge that does not find in the table the key of a pair it
    /// takes out (where `merge_morphene` may not be called); the merges before it stay done.
    #[verifier::rlimit(50)]
    #[verifier::spinoff_prover]
    fn merge_checked(&mut self, morphene_pair: ByteStr) -> (r: Option<Result<usize, ()>>)
        requires
            old(self).pairs.wf(),
            old(self).pairs@.dom().contains(morphene_pair@) ==> old(self).wf() && old(self).pairs_sound(),
        ensures
            r matches Some(res) ==> merge_result(*old(self), *final(self), morphene_pair@, res),
            r is None ==> {
                &&& old(self).pairs@.dom().contains(morphene_pair@)
                &&& !old(self).pairs_exact()
                &&& !merge_finds(
                    old(self).spans@,
                    old(self).input@,
                    old(self).singles(),
                    old(self).pairs@.dom().remove(morphene_pair@),
                    morphene_pair@,
                    old(self).pairs@[morphene_pair@],
                )
                &&& final(self).input == old(self).input
                &&& final(self).input_kind == old(self).input_kind
                &&& final(self).single_morphene == old(self).single_morphene
                &&& final(self).pairs.wf()
                &&& final(self).wf()
                &&& final(self).pairs_sound()
                &&& final(self).spans@.len() == old(self).spans@.len()
                &&& live_count(final(self).spans@, old(self).spans@.len() as int) <= live_count(
                    old(self).spans@,
                    old(self).spans@.len() as int,
                )
            },
    {
        let ghost k = morphene_pair@;
        let ghost s0 = self.spans@;
        let ghost x = self.input@;
        let ghost ss = self.singles();
        let ghost m0 = self.pairs@;
        let ghost exact = self.pairs_exact() && (!ss.contains(k) || m0[k].len() == 0);
        let ghost ex0 = self.pairs_exact();
        let ghost c0 = self.pairs_complete();
        let ghost l0 = listed(m0.remove(k), s0, x);
        let ghost d0 = m0.dom().remove(k);
        let entry = match self.pairs.remove(morphene_pair.as_bytes()) {
            Some(e) => e,
            None => {
                assert(self.pairs@ =~= m0);
                return Some(Err(()));
            },
        };
        let ids = entry.suffix_spans_id;
        let ghost idv = ids@;
        proof {
            assert(idv == m0[k]);
            let m1 = self.pairs@;
            assert forall|kk: Seq<u8>, b: usize| #[trigger] registered(m1, kk, b) implies registered(m0, kk, b) && kk != k by {}
            assert forall|t: int| 0 <= t < idv.len() implies #[trigger] idv[t] < s0.len() && (live(s0, idv[t] as int)
                ==> next_live(s0, idv[t] as int) < s0.len() && pair_key(s0, x, idv[t] as int) == k
                && (ex0 ==> eligible(s0, x, ss, idv[t] as int))) by {
                assert(registered(m0, k, idv[t]));
            }
            if c0 {
                assert forall|a: int| #[trigger] eligible(s0, x, ss, a) && pair_key(s0, x, a) == k implies idv.subrange(0, idv.len() as int).contains(a as usize) by {
                    assert(registered(m0, k, a as usize));
                    assert(idv.subrange(0, idv.len() as int) =~= idv);
                }
            }
            assert(merge_all(s0, idv.take(0)) == s0) by {
                assert(idv.take(0).len() == 0);
            }
            assert(added_keys(s0, x, ss, idv.take(0)) =~= Set::empty()) by {
                assert(idv.take(0).len() == 0);
            }
            assert(self.pairs@.dom() =~= m0.dom().remove(k) + added_keys(s0, x, ss, idv.take(0)));
            if idv.len() > 0 {
                assert(registered(m0, k, idv[0]));
            }
            assert(self.pairs@ == m0.remove(k));
            assert(listed_after(s0, x, ss, l0, idv.take(0)) == l0) by {
                assert(idv.take(0).len() == 0);
            }
        }
        let merged_len = morphene_pair.len();
        let _spans_len = self.spans.len();
        let _input_len = self.input.len();
        let mut nb_merged: usize = 0;
        let n_ids = ids.len();
        let mut t: usize = 0;
        while t < n_ids
            invariant
                n_ids == idv.len(),
                ids@ == idv,
                strictly_sorted(idv),
                merged_len == k.len(),
                t <= n_ids,
                nb_merged <= t,
                self.input@ == x,
                self.input == old(self).input,
                self.input_kind == old(self).input_kind,
                self.single_morphene == old(self).single_morphene,
                self.spans@ == merge_all(s0, idv.take(t as int)),
                nb_merged == merged_count(s0, idv.take(t as int)),
                self.spans@.len() == s0.len(),
                s0.len() <= usize::MAX,
                self.singles() == ss,
                self.wf(),
                self.pairs_sound(),
                c0 ==> table_complete_but(self.pairs@, self.spans@, x, ss, k),
                exact ==> c0,
                ex0 ==> c0,
                !self.pairs@.dom().contains(k),
                exact ==> table_eligible(self.pairs@, self.spans@, x, ss),
                exact && idv.len() > 0 ==> !ss.contains(k),
                idv.len() > 0 ==> live(s0, idv[0] as int),
                t > 0 ==> nb_merged > 0,
                self.pairs@.dom() == m0.dom().remove(k) + added_keys(s0, x, ss, idv.take(t as int)),
                forall|kk: Seq<u8>| #[trigger] added_keys(s0, x, ss, idv.take(t as int)).contains(kk) ==> kk.len() > k.len(),
                forall|u: int| 0 <= u < idv.len() ==> #[trigger] idv[u] < s0.len(),
                ex0 ==> forall|u: int| 0 <= u < t ==> #[trigger] step_eligible(s0, x, ss, idv, u),
                forall|u: int| t <= u < idv.len() && #[trigger] live(self.spans@, idv[u] as int) ==>
                    next_live(self.spans@, idv[u] as int) < self.spans@.len() && pair_key(self.spans@, x, idv[u] as int) == k
                    && (ex0 ==> eligible(self.spans@, x, ss, idv[u] as int)),
                d0 == m0.dom().remove(k),
                morphene_pair@ == k,
                tiles(s0, x.len() as int),
                m0 == old(self).pairs@,
                s0 == old(self).spans@,
                x == old(self).input@,
                ss == old(self).singles(),
                idv == m0[k],
                m0.dom().contains(k),
                ex0 == old(self).pairs_exact(),
                listed(self.pairs@, self.spans@, x) == listed_after(s0, x, ss, l0, idv.take(t as int)),
                text_count(self.spans@, x, k, s0.len() as int) == text_count(s0, x, k, s0.len() as int) + nb_merged,
                x.len() <= usize::MAX,
                c0 ==> forall|a: int| #[trigger] eligible(self.spans@, x, ss, a) && pair_key(self.spans@, x, a) == k
                    ==> idv.subrange(t as int, idv.len() as int).contains(a as usize),
            decreases n_ids - t,
        {
            let prefix_id = ids[t];
            let ghost sb = self.spans@;
            proof {
                assert(idv.take(t + 1).drop_last() =~= idv.take(t as int));
                assert(idv.take(t + 1).last() == prefix_id);
                if t == 0 {
                    assert(idv.take(0).len() == 0);
                    assert(sb == s0);
                }
            }
            proof {
                if ex0 {
                    assert(step_eligible(s0, x, ss, idv, t as int));
                }
                assert(listed_after(s0, x, ss, l0, idv.take(t + 1)) == listed_step(
                    sb,
                    x,
                    ss,
                    listed_after(s0, x, ss, l0, idv.take(t as int)),
                    prefix_id as int,
                ));
            }
            if self.spans[prefix_id].len != 0 {
                proof {
                    assert(live(sb, prefix_id as int));
                    assert(live(self.spans@, idv[t as int] as int));
                    assert(pair_key(sb, x, prefix_id as int) == k);
                }
                let found = self.step_keys_present(prefix_id, morphene_pair);
                if !found {
                    proof {
                        assert(!step_found(self.pairs@, sb, x, ss, k, prefix_id as int));
                        if ex0 {
                            lemma_step_found(self.pairs@, sb, x, ss, k, prefix_id as int, true);
                        }
                        assert(self.pairs@.dom() == d0 + added_keys(s0, x, ss, idv.take(t as int)));
                        assert(!step_safe(
                            merge_all(s0, idv.take(t as int)),
                            x,
                            ss,
                            d0 + added_keys(s0, x, ss, idv.take(t as int)),
                            k,
                            idv[t as int] as int,
                        ));
                    }
                    proof {
                        lemma_merge_all(s0, x, idv.take(t as int));
                        assert(!merge_finds(s0, x, ss, d0, k, idv)) by {
                            if merge_finds(s0, x, ss, d0, k, idv) {
                                assert(step_safe(
                                    merge_all(s0, idv.take(t as int)),
                                    x,
                                    ss,
                                    d0 + added_keys(s0, x, ss, idv.take(t as int)),
                                    k,
                                    idv[t as int] as int,
                                ));
                            }
                        }
                    }
                    return None;
                }
                proof {
                    lemma_text_count_step(sb, x, k, prefix_id as int, sb.len() as int);
                }
                assert(self.singles() == ss);
                assert(self.input@ == x);
                self.merge_at(prefix_id, merged_len, Ghost(k), Ghost(c0), Ghost(exact));
                nb_merged += 1;
                proof {
                    let sa = self.spans@;
                    let st = step_keys(sb, x, ss, prefix_id as int);
                    let a0 = added_keys(s0, x, ss, idv.take(t as int));
                    assert(added_keys(s0, x, ss, idv.take(t + 1)) == a0 + st);
                    assert(self.pairs@.dom() =~= m0.dom().remove(k) + (a0 + st));
                    assert forall|kk: Seq<u8>| #[trigger] added_keys(s0, x, ss, idv.take(t + 1)).contains(kk) implies kk.len() > k.len() by {
                        if a0.contains(kk) {
                        } else {
                            assert(st.contains(kk));
                        }
                    }
                    assert forall|u: int| t + 1 <= u < idv.len() && #[trigger] live(sa, idv[u] as int) implies
                        next_live(sa, idv[u] as int) < sa.len() && pair_key(sa, x, idv[u] as int) == k
                        && (ex0 ==> eligible(sa, x, ss, idv[u] as int)) by {
                        assert(idv[t as int] < idv[u]);
                    }
                    if c0 {
                        assert forall|a: int| #[trigger] eligible(sa, x, ss, a) && pair_key(sa, x, a) == k
                            implies idv.subrange(t + 1, idv.len() as int).contains(a as usize) by {
                            assert(idv.subrange(t as int, idv.len() as int).contains(a as usize));
                            let j = choose|j: int| 0 <= j < idv.len() - t && idv.subrange(t as int, idv.len() as int)[j] == a as usize;
                            assert(j != 0);
                            assert(idv.subrange(t + 1, idv.len() as int)[j - 1] == a as usize);
                        }
                    }
                }
            } else {
                proof {
                    assert(!live(sb, prefix_id as int));
                    assert(merge_step(sb, prefix_id as int) == sb);
                    let a0 = added_keys(s0, x, ss, idv.take(t as int));
                    assert(step_keys(sb, x, ss, prefix_id as int) =~= Set::empty());
                    assert(added_keys(s0, x, ss, idv.take(t + 1)) =~= a0);
                    if c0 {
                        assert forall|a: int| #[trigger] eligible(sb, x, ss, a) && pair_key(sb, x, a) == k
                            implies idv.subrange(t + 1, idv.len() as int).contains(a as usize) by {
                            assert(idv.subrange(t as int, idv.len() as int).contains(a as usize));
                            let j = choose|j: int| 0 <= j < idv.len() - t && idv.subrange(t as int, idv.len() as int)[j] == a as usize;
                            assert(j != 0);
                            assert(idv.subrange(t + 1, idv.len() as int)[j - 1] == a as usize);
                        }
                    }
                }
            }
            t += 1;
        }
        proof {
            assert(idv.take(n_ids as int) =~= idv);
            lemma_merge_all(s0, x, idv);
            if ex0 {
                assert(merges_eligible(s0, x, ss, idv));
            }
            let sf = self.spans@;
            if c0 {
                assert forall|a: int| #[trigger] eligible(sf, x, ss, a) implies registered(self.pairs@, pair_key(sf, x, a), a as usize) by {
                    if pair_key(sf, x, a) == k {
                        assert(idv.subrange(n_ids as int, idv.len() as int).len() == 0);
                    }
                }
            }
        }
        Some(Ok(nb_merged))
    }
}

/// The bytes in `i..i+2` of a row of spans, read as one pair (`i` and the span at `i + 1`).
pub open spec fn adjacent_key(s: Seq<Span>, x: Seq<u8>, i: int) -> Seq<u8> {
    x.subrange(s[i].begin as int, s[i].begin + s[i].len + s[i + 1].len)
}

/// Spans `i` and `i + 1` both exist and neither text stays on its own.
pub open spec fn adjacent_ok(s: Seq<Span>, x: Seq<u8>, ss: Seq<Seq<u8>>, i: int) -> bool {
    &&& 0 <= i
    &&& i + 1 < s.len()
    &&& !ss.contains(text(s, x, i))
    &&& !ss.contains(text(s, x, i + 1))
}

/// How many of the spans `0..i` form a pair with the span at the next index (see
/// `adjacent_ok`).
pub open spec fn adjacent_count(s: Seq<Span>, x: Seq<u8>, ss: Seq<Seq<u8>>, i: int) -> nat
    decreases i,
{
    if i <= 0 {
        0
    } else {
        adjacent_count(s, x, ss, i - 1) + if adjacent_ok(s, x, ss, i - 1) {
            1nat
        } else {
            0nat
        }
    }
}

/// `m` lists each span that forms a pair with the span at the next index (see `adjacent_ok`)
/// under the bytes of the pair, and nothing else; each key lists at least one span, in
/// increasing order.
pub open spec fn is_pair_table(m: Map<Seq<u8>, Seq<usize>>, s: Seq<Span>, x: Seq<u8>, ss: Seq<Seq<u8>>) -> bool {
    &&& forall|k: Seq<u8>, b: usize| #[trigger] registered(m, k, b) <==> (adjacent_ok(s, x, ss, b as int)
        && adjacent_key(s, x, b as int) == k)
    &&& forall|k: Seq<u8>| #[trigger] m.dom().contains(k) ==> m[k].len() > 0 && strictly_sorted(m[k])
}

/// The pair table of a row of spans: the one map that `is_pair_table` describes.
#[verifier::opaque]
pub open spec fn pair_table(s: Seq<Span>, x: Seq<u8>, ss: Seq<Seq<u8>>) -> Map<Seq<u8>, Seq<usize>> {
    choose|m: Map<Seq<u8>, Seq<usize>>| is_pair_table(m, s, x, ss)
}

/// The table that `reset_merge_pair` leaves is the pair table.
proof fn lemma_reset_table<'a>(t: MorphenePairs<'a>, s: Seq<Span>, x: Seq<u8>, ss: Seq<Seq<u8>>)
    requires
        t.wf(),
        s.len() > 0,
        forall|k: Seq<u8>, b: usize| #[trigger] registered(t@, k, b) <==> (b < s.len() - 1 && adjacent_ok(s, x, ss, b as int)
            && adjacent_key(s, x, b as int) == k),
        forall|k: Seq<u8>| #[trigger] t@.dom().contains(k) ==> t@[k].len() > 0,
    ensures
        t@ == pair_table(s, x, ss),
{
    let m = t@;
    assert forall|k: Seq<u8>| #[trigger] m.dom().contains(k) implies m[k].len() > 0 && strictly_sorted(m[k]) by {
        t.lemma_entries_sorted(k);
    }
    assert(is_pair_table(m, s, x, ss));
    reveal(pair_table);
    let c = pair_table(s, x, ss);
    assert(is_pair_table(c, s, x, ss));
    assert forall|k: Seq<u8>, b: usize| #[trigger] registered(m, k, b) <==> registered(c, k, b) by {}
    lemma_same_listing_maps(m, c);
}

proof fn lemma_adjacent_count_no_singles(s: Seq<Span>, x: Seq<u8>, ss: Seq<Seq<u8>>, i: int)
    requires
        ss.len() == 0,
        0 <= i < s.len(),
    ensures
        adjacent_count(s, x, ss, i) == i,
    decreases i,
{
    if i > 0 {
        lemma_adjacent_count_no_singles(s, x, ss, i - 1);
        assert(!ss.contains(text(s, x, i - 1)));
        assert(!ss.contains(text(s, x, i)));
    }
}

/// In a row where every span is live, the spans next to each other are the pairs.
pub proof fn lemma_all_live_pairs(s: Seq<Span>, x: Seq<u8>, ss: Seq<Seq<u8>>, i: int)
    requires
        tiles(s, x.len() as int),
        all_live(s),
        0 <= i < s.len(),
    ensures
        i + 1 < s.len() ==> next_live(s, i) == i + 1,
        i + 1 >= s.len() ==> next_live(s, i) == s.len(),
        eligible(s, x, ss, i) <==> adjacent_ok(s, x, ss, i),
        adjacent_ok(s, x, ss, i) ==> adjacent_key(s, x, i) == pair_key(s, x, i),
{
    if i + 1 < s.len() {
        assert(live(s, i + 1));
        lemma_next_live_from_unique(s, i + 1, i + 1);
        assert(live(s, i));
        lemma_pair_key_run(s, x, i);
    } else {
        lemma_next_live_from_unique(s, i + 1, s.len() as int);
    }
}

/// When every span is live, a table that lists the spans next to each other lists exactly the
/// pairs that may be merged.
proof fn lemma_adjacent_table_exact(m: Map<Seq<u8>, Seq<usize>>, s: Seq<Span>, x: Seq<u8>, ss: Seq<Seq<u8>>)
    requires
        tiles(s, x.len() as int),
        all_live(s),
        s.len() <= usize::MAX,
        forall|k: Seq<u8>, b: usize| #[trigger] registered(m, k, b) <==> (adjacent_ok(s, x, ss, b as int)
            && adjacent_key(s, x, b as int) == k),
    ensures
        table_sound(m, s, x),
        table_complete(m, s, x, ss),
        table_eligible(m, s, x, ss),
{
    assert forall|k: Seq<u8>, b: usize| #[trigger] registered(m, k, b) implies {
        &&& live(s, b as int)
        &&& next_live(s, b as int) < s.len()
        &&& pair_key(s, x, b as int) == k
        &&& eligible(s, x, ss, b as int)
    } by {
        lemma_all_live_pairs(s, x, ss, b as int);
    }
    assert forall|a: int| #[trigger] eligible(s, x, ss, a) implies registered(m, pair_key(s, x, a), a as usize) by {
        lemma_all_live_pairs(s, x, ss, a);
    }
}

impl<'a> SpanMerger<'a> {
    /// Cuts the input afresh: one span per character for a text, one per byte otherwise. A
    /// text that is not valid UTF-8 is taken as bytes from then on. The pair table is left as
    /// it is.
    pub fn reset_span(&mut self)
        ensures
            final(self).input == old(self).input,
            final(self).single_morphene == old(self).single_morphene,
            final(self).pairs == old(self).pairs,
            old(self).input_kind == InputKind::Text && valid_utf8(old(self).input@) ==> final(self).input_kind
                == InputKind::Text && final(self).spans@ == utf8_spans(old(self).input@, 0),
            !(old(self).input_kind == InputKind::Text && valid_utf8(old(self).input@)) ==> final(self).input_kind
                == InputKind::Byte && final(self).spans@ == byte_spans(old(self).input@.len() as int),
            tiles(final(self).spans@, final(self).input@.len() as int),
            old(self).pairs.wf() ==> final(self).wf(),
            all_live(final(self).spans@),
    {
        self.spans.clear();
        let ghost x = self.input@;
        let n = self.input.len();
        if self.input_kind.is_text() {
            match utf8_str(self.input.as_bytes()) {
                Some(_text) => {
                    let mut pos: usize = 0;
                    proof {
                        assert(x.subrange(0, n as int) =~= x);
                        assert(self.spans@ + utf8_spans(x.subrange(0, n as int), 0) =~= utf8_spans(x, 0));
                    }
                    while pos < n
                        invariant
                            n == x.len(),
                            x == self.input@,
                            self.input == old(self).input,
                            self.single_morphene == old(self).single_morphene,
                            self.pairs == old(self).pairs,
                            self.input_kind == old(self).input_kind,
                            self.input_kind == InputKind::Text,
                            valid_utf8(x),
                            pos <= n,
                            valid_utf8(x.subrange(pos as int, n as int)),
                            self.spans@ + utf8_spans(x.subrange(pos as int, n as int), pos as int) == utf8_spans(x, 0),
                            tiles(self.spans@, pos as int),
                            all_live(self.spans@),
                        decreases n - pos,
                    {
                        let ghost rest = x.subrange(pos as int, n as int);
                        proof {
                            assert(valid_first_scalar(rest));
                        }
                        let b = self.input.byte_at(pos);
                        assert(b == rest[0]);
                        let w: usize = if b < 0x80 {
                            1
                        } else if b < 0xe0 {
                            2
                        } else if b < 0xf0 {
                            3
                        } else {
                            4
                        };
                        assert(w == length_of_first_scalar(rest));
                        let sp = Span { begin: pos, len: w };
                        proof {
                            lemma_tiles_push(self.spans@, pos as int, sp);
                            assert(rest.subrange(w as int, rest.len() as int) =~= x.subrange(pos + w, n as int));
                            assert(utf8_spans(rest, pos as int) == seq![sp] + utf8_spans(x.subrange(pos + w, n as int), pos + w));
                            assert(pop_first_scalar(rest) =~= x.subrange(pos + w, n as int));
                            assert(self.spans@.push(sp) + utf8_spans(x.subrange(pos + w, n as int), pos + w)
                                =~= self.spans@ + utf8_spans(rest, pos as int));
                        }
                        self.spans.push(sp);
                        pos = pos + w;
                    }
                    proof {
                        assert(x.subrange(n as int, n as int).len() == 0);
                        assert(self.spans@ + Seq::<Span>::empty() =~= self.spans@);
                    }
                    return;
                },
                None => {
                    self.input_kind = InputKind::Byte;
                },
            }
        }
        let mut i: usize = 0;
        while i < n
            invariant
                n == x.len(),
                x == self.input@,
                self.input == old(self).input,
                self.single_morphene == old(self).single_morphene,
                self.pairs == old(self).pairs,
                self.input_kind == InputKind::Byte,
                !(old(self).input_kind == InputKind::Text && valid_utf8(x)),
                i <= n,
                self.spans@ == byte_spans(i as int),
                tiles(self.spans@, i as int),
                all_live(self.spans@),
            decreases n - i,
        {
            let sp = Span { begin: i, len: 1 };
            proof {
                lemma_tiles_push(self.spans@, i as int, sp);
                assert(self.spans@.push(sp) =~= byte_spans(i + 1));
            }
            self.spans.push(sp);
            i += 1;
        }
    }

    /// Builds the pair table afresh from the spans: each span with the one at the next index
    /// forms a pair, unless either text stays on its own.
    #[verifier::spinoff_prover]
    pub fn reset_merge_pair(&mut self)
        requires
            spans_in_range(old(self).spans@, old(self).input@.len() as int),
            adjacent_in_range(old(self).spans@, old(self).input@.len() as int),
            old(self).spans@.len() > 0,
        ensures
            final(self).input == old(self).input,
            final(self).input_kind == old(self).input_kind,
            final(self).single_morphene == old(self).single_morphene,
            final(self).spans == old(self).spans,
            final(self).pairs.wf(),
            tiles(old(self).spans@, old(self).input@.len() as int) ==> final(self).wf(),
            forall|k: Seq<u8>, b: usize| #[trigger] registered(final(self).pairs@, k, b) <==> (
                adjacent_ok(final(self).spans@, final(self).input@, final(self).singles(), b as int)
                && adjacent_key(final(self).spans@, final(self).input@, b as int) == k),
            forall|k: Seq<u8>| #[trigger] final(self).pairs@.dom().contains(k) ==> final(self).pairs@[k].len() > 0,
            tiles(final(self).spans@, final(self).input@.len() as int) && all_live(final(self).spans@)
                ==> final(self).pairs_exact(),
            final(self).pairs@ == pair_table(final(self).spans@, final(self).input@, final(self).singles()),
            listing_count(final(self).pairs.entries_view()) == adjacent_count(
                final(self).spans@,
                final(self).input@,
                final(self).singles(),
                final(self).spans@.len() - 1,
            ),
            final(self).singles().len() == 0 ==> listing_count(final(self).pairs.entries_view()) == final(self).spans@.len() - 1,
    {
        self.pairs.clear();
        let ghost s = self.spans@;
        let ghost x = self.input@;
        let ghost ss = self.singles();
        let ghost n = x.len() as int;
        let _input_len = self.input.len();
        let len = self.spans.len();
        self.fill_adjacent_pairs();
        proof {
            if tiles(s, n) && all_live(s) {
                lemma_adjacent_table_exact(self.pairs@, s, x, ss);
            }
            lemma_reset_table(self.pairs, s, x, ss);
            if ss.len() == 0 {
                lemma_adjacent_count_no_singles(s, x, ss, len - 1);
            }
        }
    }

    /// Lists, in an empty table, each span that forms a pair with the span at the next index,
    /// under the bytes of the pair.
    #[verifier::spinoff_prover]
    #[verifier::rlimit(100)]
    fn fill_adjacent_pairs(&mut self)
        requires
            spans_in_range(old(self).spans@, old(self).input@.len() as int),
            adjacent_in_range(old(self).spans@, old(self).input@.len() as int),
            old(self).spans@.len() > 0,
            old(self).pairs.wf(),
            old(self).pairs@ == Map::<Seq<u8>, Seq<usize>>::empty(),
            old(self).pairs.entries@.len() == 0,
        ensures
            final(self).input == old(self).input,
            final(self).input_kind == old(self).input_kind,
            final(self).single_morphene == old(self).single_morphene,
            final(self).spans == old(self).spans,
            final(self).pairs.wf(),
            forall|k: Seq<u8>, b: usize| #[trigger] registered(final(self).pairs@, k, b) <==> (
                b < final(self).spans@.len() - 1 && adjacent_ok(final(self).spans@, final(self).input@, final(self).singles(), b as int)
                && adjacent_key(final(self).spans@, final(self).input@, b as int) == k),
            forall|k: Seq<u8>| #[trigger] final(self).pairs@.dom().contains(k) ==> final(self).pairs@[k].len() > 0,
            listing_count(final(self).pairs.entries_view()) == adjacent_count(
                final(self).spans@,
                final(self).input@,
                final(self).singles(),
                final(self).spans@.len() - 1,
            ),
    {
        let ghost s = self.spans@;
        let ghost x = self.input@;
        let ghost ss = self.singles();
        let ghost n = x.len() as int;
        let len = self.spans.len();
        let _input_len = self.input.len();
        let mut i: usize = 0;
        while i < len - 1
            invariant
                len == s.len(),
                len > 0,
                n == x.len(),
                n <= usize::MAX,
                s == self.spans@,
                self.input == old(self).input,
                self.input_kind == old(self).input_kind,
                self.single_morphene == old(self).single_morphene,
                self.spans == old(self).spans,
                x == self.input@,
                ss == self.singles(),
                i <= len - 1,
                self.pairs.wf(),
                spans_in_range(s, n),
                adjacent_in_range(s, n),
                forall|k: Seq<u8>, b: usize| #[trigger] registered(self.pairs@, k, b) <==> (
                    b < i && adjacent_ok(s, x, ss, b as int) && adjacent_key(s, x, b as int) == k),
                forall|k: Seq<u8>| #[trigger] self.pairs@.dom().contains(k) ==> self.pairs@[k].len() > 0,
                listing_count(self.pairs.entries_view()) == adjacent_count(s, x, ss, i as int),
            decreases len - 1 - i,
        {
            let suffix = self.spans[i];
            let preffix = self.spans[i + 1];
            proof {
                assert(s[i as int].begin + s[i as int].len <= n);
                assert(s[i + 1].begin + s[i + 1].len <= n);
                assert(s[i as int].begin + s[i as int].len + s[i + 1].len <= n);
            }
            let suffix_single = self.is_single(suffix.get(self.input));
            let preffix_single = self.is_single(preffix.get(self.input));
            if !suffix_single && !preffix_single {
                let merged = Span { begin: suffix.begin, len: suffix.len + preffix.len };
                let key = merged.get(self.input);
                let ghost m = self.pairs@;
                assert(!registered(m, key@, i));
                self.pairs.insert_id(key, i);
                proof {
                    assert forall|k: Seq<u8>| #[trigger] self.pairs@.dom().contains(k) implies self.pairs@[k].len() > 0 by {
                        if k == key@ {
                            assert(self.pairs@[k].contains(i));
                        } else {
                            assert(m.dom().contains(k));
                        }
                    }
                }
            }
            i += 1;
        }
    }
}

/// `reset_merge_pair` builds the same table whatever table it starts from, so calling it twice
/// gives what calling it once gives: two mergers with the same spans, input and morphemes on
/// their own, whose tables list the spans as `reset_merge_pair` leaves them, have equal
/// tables.
pub proof fn lemma_reset_merge_pair_idempotent<'a>(a: SpanMerger<'a>, b: SpanMerger<'a>)
    requires
        a.spans@ == b.spans@,
        a.input@ == b.input@,
        a.singles() == b.singles(),
        a.pairs.wf(),
        b.pairs.wf(),
        forall|k: Seq<u8>, i: usize| #[trigger] registered(a.pairs@, k, i) <==> (adjacent_ok(a.spans@, a.input@, a.singles(), i as int)
            && adjacent_key(a.spans@, a.input@, i as int) == k),
        forall|k: Seq<u8>, i: usize| #[trigger] registered(b.pairs@, k, i) <==> (adjacent_ok(b.spans@, b.input@, b.singles(), i as int)
            && adjacent_key(b.spans@, b.input@, i as int) == k),
        forall|k: Seq<u8>| #[trigger] a.pairs@.dom().contains(k) ==> a.pairs@[k].len() > 0,
        forall|k: Seq<u8>| #[trigger] b.pairs@.dom().contains(k) ==> b.pairs@[k].len() > 0,
    ensures
        a.pairs@ == b.pairs@,
{
    assert forall|k: Seq<u8>, i: usize| #[trigger] registered(a.pairs@, k, i) <==> registered(b.pairs@, k, i) by {}
    a.pairs.lemma_same_listing(&b.pairs);
}

/// With no morpheme on its own, the table that `reset_merge_pair` builds lists every span but
/// the last, each under the bytes of it and the span after it, and nothing else.
pub proof fn lemma_reset_lists_each_span(m: Map<Seq<u8>, Seq<usize>>, s: Seq<Span>, x: Seq<u8>, ss: Seq<Seq<u8>>)
    requires
        ss.len() == 0,
        s.len() <= usize::MAX,
        forall|k: Seq<u8>, b: usize| #[trigger] registered(m, k, b) <==> (adjacent_ok(s, x, ss, b as int)
            && adjacent_key(s, x, b as int) == k),
    ensures
        forall|b: int| 0 <= b < s.len() - 1 ==> #[trigger] registered(m, adjacent_key(s, x, b), b as usize),
        forall|k: Seq<u8>, b: usize| #[trigger] registered(m, k, b) ==> b < s.len() - 1 && k == adjacent_key(s, x, b as int),
{
    assert forall|b: int| 0 <= b < s.len() - 1 implies #[trigger] registered(m, adjacent_key(s, x, b), b as usize) by {
        assert(adjacent_ok(s, x, ss, (b as usize) as int));
    }
}

/// On ASCII input, a merger over the text (as `from_text` leaves it) and a merger over the
/// bytes (as `from_bytes` leaves it) are cut the same way and hold the same pair table.
pub proof fn lemma_text_and_bytes_agree_on_ascii<'a>(t: SpanMerger<'a>, b: SpanMerger<'a>)
    requires
        t.input@ == b.input@,
        t.input@.len() <= usize::MAX,
        forall|i: int| 0 <= i < t.input@.len() ==> #[trigger] t.input@[i] < 0x80,
        t.singles() == b.singles(),
        t.spans@ == utf8_spans(t.input@, 0),
        b.spans@ == byte_spans(b.input@.len() as int),
        t.pairs.wf(),
        b.pairs.wf(),
        t.pairs_exact(),
        b.pairs_exact(),
        forall|k: Seq<u8>| #[trigger] t.pairs@.dom().contains(k) ==> t.pairs@[k].len() > 0,
        forall|k: Seq<u8>| #[trigger] b.pairs@.dom().contains(k) ==> b.pairs@[k].len() > 0,
    ensures
        t.spans@ == b.spans@,
        t.pairs@ == b.pairs@,
{
    crate::span::lemma_ascii_utf8_spans(t.input@, 0);
    assert(t.spans@ =~= b.spans@);
    let s = t.spans@;
    let x = t.input@;
    let ss = t.singles();
    assert forall|k: Seq<u8>, i: usize| #[trigger] registered(t.pairs@, k, i) <==> registered(b.pairs@, k, i) by {
        if registered(t.pairs@, k, i) {
            assert(eligible(s, x, ss, i as int) && pair_key(s, x, i as int) == k);
        }
        if registered(b.pairs@, k, i) {
            assert(eligible(s, x, ss, i as int) && pair_key(s, x, i as int) == k);
        }
    }
    t.pairs.lemma_same_listing(&b.pairs);
}

/// How strongly the table entry `e` asks to be merged: its number of spans, or 0 when its
/// bytes stay on their own.
pub open spec fn pair_score(t: Seq<(Seq<u8>, Seq<usize>)>, ss: Seq<Seq<u8>>, e: int) -> nat {
    if ss.contains(t[e].0) {
        0
    } else {
        t[e].1.len()
    }
}

/// `r` is the last entry of the table with the highest score.
pub open spec fn is_last_best(t: Seq<(Seq<u8>, Seq<usize>)>, ss: Seq<Seq<u8>>, r: int) -> bool {
    &&& 0 <= r < t.len()
    &&& forall|e: int| 0 <= e < t.len() ==> #[trigger] pair_score(t, ss, e) <= pair_score(t, ss, r)
    &&& forall|e: int| r < e < t.len() ==> #[trigger] pair_score(t, ss, e) < pair_score(t, ss, r)
}


/// One round of merging from spans `s` and table `t` (as a list of entries) over the input
/// `x`: the pair `k` is the one the table picks (see `most_frequent_morphene_pair`), `s2` the
/// spans after merging all its occurrences, `n` the number of merges, and `t2` the table
/// after: its keys are those of `t` but `k`, with the keys that the merges add, and it lists
/// the spans that `listed_after` says (each under the bytes of its pair, the table being
/// sound).
pub open spec fn round_of(
    s: Seq<Span>,
    t: Seq<(Seq<u8>, Seq<usize>)>,
    x: Seq<u8>,
    ss: Seq<Seq<u8>>,
    k: Seq<u8>,
    s2: Seq<Span>,
    t2: Seq<(Seq<u8>, Seq<usize>)>,
    n: nat,
) -> bool {
    exists|i: int| #[trigger] is_last_best(t, ss, i) && t[i].0 == k && {
        let m = table_map(t);
        let m2 = table_map(t2);
        &&& s2 == merge_all(s, m[k])
        &&& n == merged_count(s, m[k])
        &&& m2.dom() == m.dom().remove(k) + added_keys(s, x, ss, m[k])
        &&& listed(m2, s2, x) == listed_after(s, x, ss, listed(m.remove(k), s, x), m[k])
    }
}

/// What `next` reports of a round (see `round_of`): nothing when no merge took place, else
/// the pair and the number of merges.
pub open spec fn round_outcome<'a>(
    s: Seq<Span>,
    t: Seq<(Seq<u8>, Seq<usize>)>,
    x: Seq<u8>,
    ss: Seq<Seq<u8>>,
    s2: Seq<Span>,
    t2: Seq<(Seq<u8>, Seq<usize>)>,
    r: Option<(ByteStr<'a>, usize)>,
    k: Seq<u8>,
    n: nat,
) -> bool {
    &&& round_of(s, t, x, ss, k, s2, t2, n)
    &&& n == 0 ==> r is None
    &&& n > 0 ==> (r matches Some(p) && p.0@ == k && p.1 == n)
}

/// The next round from spans `s` and table `t` cannot be played: a merge of the pair that the
/// table picks would not find in the table the key of a pair that it takes out (see
/// `merge_finds`).
pub open spec fn round_stuck(s: Seq<Span>, t: Seq<(Seq<u8>, Seq<usize>)>, x: Seq<u8>, ss: Seq<Seq<u8>>) -> bool {
    exists|i: int| #[trigger] is_last_best(t, ss, i) && !merge_finds(
        s,
        x,
        ss,
        table_map(t).dom().remove(t[i].0),
        t[i].0,
        table_map(t)[t[i].0],
    )
}

/// The rounds of `merge_frequent`, from spans `s0` and table `t0` to spans `sf` and table
/// `tf`: `hs` and `ts` are the spans and tables between rounds, `ks` and `ns` the pair and
/// the number of merges of each round (see `round_of`), `r` what was reported. Every table
/// between rounds is sound; the rounds that merged more than `min` times are reported; the
/// rounds stop when the table is empty, when a round merged `min` times or fewer (that round
/// is not reported), or (`stuck`) when the next round cannot be played (see `round_stuck`),
/// which leaves the merges that this round made before it stopped.
pub open spec fn merge_history<'a>(
    s0: Seq<Span>,
    t0: Seq<(Seq<u8>, Seq<usize>)>,
    x: Seq<u8>,
    ss: Seq<Seq<u8>>,
    sf: Seq<Span>,
    tf: Seq<(Seq<u8>, Seq<usize>)>,
    min: nat,
    r: Seq<(ByteStr<'a>, usize)>,
    hs: Seq<Seq<Span>>,
    ts: Seq<Seq<(Seq<u8>, Seq<usize>)>>,
    ks: Seq<Seq<u8>>,
    ns: Seq<nat>,
    stuck: bool,
) -> bool {
    &&& hs.len() == ks.len() + 1
    &&& ts.len() == hs.len()
    &&& ns.len() == ks.len()
    &&& hs[0] == s0
    &&& ts[0] == t0
    &&& !stuck ==> hs.last() == sf && ts.last() == tf
    &&& forall|i: int| 0 <= i < hs.len() ==> #[trigger] table_sound(table_map(ts[i]), hs[i], x)
    &&& forall|i: int| 0 <= i < ks.len() ==> #[trigger] round_of(hs[i], ts[i], x, ss, ks[i], hs[i + 1], ts[i + 1], ns[i])
    &&& r.len() <= ks.len()
    &&& forall|i: int| 0 <= i < r.len() ==> (#[trigger] r[i]).0@ == ks[i] && r[i].1 == ns[i] && ns[i] > min
    &&& {
        ||| (!stuck && ks.len() == r.len() + 1 && ns.last() <= min)
        ||| (!stuck && ks.len() == r.len() && tf.len() == 0)
        ||| (stuck && ks.len() == r.len() && ts.last().len() > 0 && round_stuck(hs.last(), ts.last(), x, ss))
    }
}

/// What a call of `next` does, from `before` to `after`, when it returns `r` (see `next`).
pub open spec fn round_result<'a>(before: SpanMerger<'a>, after: SpanMerger<'a>, r: Option<(ByteStr<'a>, usize)>) -> bool {
    &&& (after.input == before.input)
    &&& (after.input_kind == before.input_kind)
    &&& (after.single_morphene == before.single_morphene)
    &&& (after.pairs.wf())
    &&& (before.wf() ==> after.wf())
    &&& (before.pairs_sound() ==> after.pairs_sound())
    &&& (before.pairs_complete() ==> after.pairs_complete())
    &&& (before.pairs.entries@.len() == 0 ==> r is None && after.spans@ == before.spans@)
    &&& (before.pairs.entries@.len() == 0 ==> after.pairs.entries_view() == before.pairs.entries_view())
    &&& (before.pairs.entries@.len() > 0 ==> exists|k: Seq<u8>, n: nat| #[trigger] round_outcome(
        before.spans@,
        before.pairs.entries_view(),
        before.input@,
        before.singles(),
        after.spans@,
        after.pairs.entries_view(),
        r,
        k,
        n,
    ) && (before.pairs_exact() && (!before.singles().contains(k) || table_map(
        before.pairs.entries_view(),
    )[k].len() == 0) ==> after.pairs_exact()))
    &&& (after.spans@.len() == before.spans@.len())
    &&& (live_count(after.spans@, before.spans@.len() as int) + (if r is Some { (r->0).1 as int } else { 0int })
        == live_count(before.spans@, before.spans@.len() as int))
    &&& (before.pairs_exact() && (r matches Some(p) && !before.singles().contains(p.0@)) ==> after.pairs_exact())
    &&& (before.pairs.entries@.len() > 0 ==> exists|i: int| #[trigger] is_last_best(before.pairs.entries_view(), before.singles(), i) && {
        let k = before.pairs.entries_view()[i].0;
        let ids = before.pairs@[k];
        &&& after.spans@ == merge_all(before.spans@, ids)
        &&& (merged_count(before.spans@, ids) == 0 ==> r is None)
        &&& (merged_count(before.spans@, ids) > 0 ==> (r matches Some(p) && p.0@ == k && p.1 == merged_count(before.spans@, ids)))
        &&& (before.pairs_exact() && (!before.singles().contains(k) || ids.len() == 0) ==> after.pairs_exact())
        &&& !after.pairs@.dom().contains(k)
        &&& after.pairs@.dom() == before.pairs@.dom().remove(k) + added_keys(
            before.spans@,
            before.input@,
            before.singles(),
            ids,
        )
    })
}

impl<'a> SpanMerger<'a> {
    fn new(value: ByteStr<'a>, input_kind: InputKind) -> (r: Self)
        requires
            value@.len() > 0,
        ensures
            r.input == value,
            r.single_morphene@.len() == 0,
            input_kind == InputKind::Text && valid_utf8(value@) ==> r.input_kind == InputKind::Text
                && r.spans@ == utf8_spans(value@, 0),
            !(input_kind == InputKind::Text && valid_utf8(value@)) ==> r.input_kind == InputKind::Byte
                && r.spans@ == byte_spans(value@.len() as int),
            r.wf(),
            all_live(r.spans@),
            r.pairs_exact(),
            forall|k: Seq<u8>| #[trigger] r.pairs@.dom().contains(k) ==> r.pairs@[k].len() > 0,
    {
        let mut s = SpanMerger {
            input: value,
            spans: Vec::new(),
            pairs: MorphenePairs::new(),
            single_morphene: Vec::new(),
            input_kind,
        };
        s.reset_span();
        proof {
            if s.spans@.len() == 0 {
                assert(prefix_len(s.spans@, 0) == 0);
            }
            lemma_tiles_in_range(s.spans@, s.input@.len() as int);
        }
        s.reset_merge_pair();
        s
    }

    /// A merger over the bytes of `value`, one span per byte.
    pub fn from_bytes(value: ByteStr<'a>) -> (r: Self)
        requires
            value@.len() > 0,
        ensures
            r.input == value,
            r.input_kind == InputKind::Byte,
            r.single_morphene@.len() == 0,
            r.spans@ == byte_spans(value@.len() as int),
            r.wf(),
            r.pairs_exact(),
            forall|k: Seq<u8>| #[trigger] r.pairs@.dom().contains(k) ==> r.pairs@[k].len() > 0,
    {
        Self::new(value, InputKind::Byte)
    }

    /// A merger over the UTF-8 text `value`, one span per character.
    pub fn from_text(value: ByteStr<'a>) -> (r: Self)
        requires
            value@.len() > 0,
            valid_utf8(value@),
        ensures
            r.input == value,
            r.input_kind == InputKind::Text,
            r.single_morphene@.len() == 0,
            r.spans@ == utf8_spans(value@, 0),
            r.wf(),
            r.pairs_exact(),
            forall|k: Seq<u8>| #[trigger] r.pairs@.dom().contains(k) ==> r.pairs@[k].len() > 0,
    {
        let s = Self::new(value, InputKind::Text);
        proof {
            assert(s.input_kind == InputKind::Text);
        }
        s
    }

    /// The pair to merge next: the last entry of the table among those with the most spans,
    /// pairs whose bytes stay on their own counting as 0. `None` when the table is empty.
    pub fn most_frequent_morphene_pair(&self) -> (r: Option<(ByteStr<'a>, &MorphenePairEntry)>)
        ensures
            r is None <==> self.pairs.entries@.len() == 0,
            r matches Some(p) ==> exists|i: int| #[trigger] is_last_best(self.pairs.entries_view(), self.singles(), i)
                && p.0 == self.pairs.entries@[i].0 && p.1 == &self.pairs.entries@[i].1,
    {
        let ghost t = self.pairs.entries_view();
        let ghost ss = self.singles();
        let n = self.pairs.entries.len();
        if n == 0 {
            return None;
        }
        let mut best: usize = 0;
        let mut best_score: usize = 0;
        let mut i: usize = 0;
        while i < n
            invariant
                n == t.len(),
                t == self.pairs.entries_view(),
                ss == self.singles(),
                n > 0,
                i <= n,
                best < n,
                i > 0 ==> best < i && best_score == pair_score(t, ss, best as int),
                i == 0 ==> best == 0 && best_score == 0,
                forall|e: int| 0 <= e < i ==> #[trigger] pair_score(t, ss, e) <= best_score,
                forall|e: int| best < e < i ==> #[trigger] pair_score(t, ss, e) < best_score,
            decreases n - i,
        {
            let key = self.pairs.entries[i].0;
            let score = if self.is_single(key) {
                0
            } else {
                self.pairs.entries[i].1.nb()
            };
            assert(score == pair_score(t, ss, i as int));
            if score >= best_score {
                best = i;
                best_score = score;
            }
            i += 1;
        }
        proof {
            assert(is_last_best(t, ss, best as int));
        }
        Some((self.pairs.entries[best].0, &self.pairs.entries[best].1))
    }

    /// One round of merging: takes the pair that `most_frequent_morphene_pair` picks and merges
    /// all its occurrences. `None` when the table is empty or nothing was merged; else the
    /// pair's bytes and how many merges took place. The picked pair leaves the table. As for
    /// `merge_morphene`, the merges must find in the table the keys of the pairs they take
    /// out: so it is when the table lists exactly the pairs that may be merged, which the
    /// round keeps unless the picked pair stays on its own and had spans.
    pub fn next(&mut self) -> (r: Option<(ByteStr<'a>, usize)>)
        requires
            old(self).pairs.wf(),
            old(self).pairs.entries@.len() > 0 ==> {
                &&& old(self).wf()
                &&& old(self).pairs_sound()
                &&& old(self).pairs_exact() || forall|i: int| #[trigger] is_last_best(old(self).pairs.entries_view(), old(self).singles(), i)
                    ==> merge_finds(
                    old(self).spans@,
                    old(self).input@,
                    old(self).singles(),
                    old(self).pairs@.dom().remove(old(self).pairs.entries_view()[i].0),
                    old(self).pairs.entries_view()[i].0,
                    old(self).pairs@[old(self).pairs.entries_view()[i].0],
                )
            },
        ensures
            final(self).input == old(self).input,
            final(self).input_kind == old(self).input_kind,
            final(self).single_morphene == old(self).single_morphene,
            final(self).pairs.wf(),
            old(self).wf() ==> final(self).wf(),
            old(self).pairs_sound() ==> final(self).pairs_sound(),
            old(self).pairs_complete() ==> final(self).pairs_complete(),
            old(self).pairs.entries@.len() == 0 ==> r is None && final(self).spans@ == old(self).spans@,
            old(self).pairs.entries@.len() == 0 ==> final(self).pairs.entries_view() == old(self).pairs.entries_view(),
            old(self).pairs.entries@.len() > 0 ==> exists|k: Seq<u8>, n: nat| #[trigger] round_outcome(
                old(self).spans@,
                old(self).pairs.entries_view(),
                old(self).input@,
                old(self).singles(),
                final(self).spans@,
                final(self).pairs.entries_view(),
                r,
                k,
                n,
            ) && (old(self).pairs_exact() && (!old(self).singles().contains(k) || table_map(
                old(self).pairs.entries_view(),
            )[k].len() == 0) ==> final(self).pairs_exact()),
            final(self).spans@.len() == old(self).spans@.len(),
            live_count(final(self).spans@, old(self).spans@.len() as int) + (if r is Some { (r->0).1 as int } else { 0int })
                == live_count(old(self).spans@, old(self).spans@.len() as int),
            old(self).pairs_exact() && (r matches Some(p) && !old(self).singles().contains(p.0@)) ==> final(self).pairs_exact(),
            old(self).pairs.entries@.len() > 0 ==> exists|i: int| #[trigger] is_last_best(old(self).pairs.entries_view(), old(self).singles(), i) && {
                let k = old(self).pairs.entries_view()[i].0;
                let ids = old(self).pairs@[k];
                &&& final(self).spans@ == merge_all(old(self).spans@, ids)
                &&& (merged_count(old(self).spans@, ids) == 0 ==> r is None)
                &&& (merged_count(old(self).spans@, ids) > 0 ==> (r matches Some(p) && p.0@ == k && p.1 == merged_count(old(self).spans@, ids)))
                &&& (old(self).pairs_exact() && (!old(self).singles().contains(k) || ids.len() == 0) ==> final(self).pairs_exact())
                &&& !final(self).pairs@.dom().contains(k)
                &&& final(self).pairs@.dom() == old(self).pairs@.dom().remove(k) + added_keys(
                    old(self).spans@,
                    old(self).input@,
                    old(self).singles(),
                    ids,
                )
            },
    {
        match self.next_checked() {
            Some(res) => res,
            None => {
                proof {
                    assert(false);
                }
                None
            },
        }
    }

    /// One round as `next` plays it, but `None` when a merge of the round does not find in the
    /// table the key of a pair that it takes out (where `next` may not be called); the merges
    /// before it stay done.
    #[verifier::spinoff_prover]
    fn next_checked(&mut self) -> (r: Option<Option<(ByteStr<'a>, usize)>>)
        requires
            old(self).pairs.wf(),
            old(self).pairs.entries@.len() > 0 ==> old(self).wf() && old(self).pairs_sound(),
        ensures
            r matches Some(res) ==> round_result(*old(self), *final(self), res),
            r is None ==> {
                &&& old(self).pairs.entries@.len() > 0
                &&& !old(self).pairs_exact()
                &&& exists|i: int| #[trigger] is_last_best(old(self).pairs.entries_view(), old(self).singles(), i)
                    && !merge_finds(
                    old(self).spans@,
                    old(self).input@,
                    old(self).singles(),
                    old(self).pairs@.dom().remove(old(self).pairs.entries_view()[i].0),
                    old(self).pairs.entries_view()[i].0,
                    old(self).pairs@[old(self).pairs.entries_view()[i].0],
                )
                &&& final(self).input == old(self).input
                &&& final(self).input_kind == old(self).input_kind
                &&& final(self).single_morphene == old(self).single_morphene
                &&& final(self).pairs.wf()
                &&& final(self).wf()
                &&& final(self).pairs_sound()
                &&& final(self).spans@.len() == old(self).spans@.len()
                &&& live_count(final(self).spans@, old(self).spans@.len() as int) <= live_count(
                    old(self).spans@,
                    old(self).spans@.len() as int,
                )
            },
    {
        let ghost t = self.pairs.entries_view();
        let ghost s0 = self.spans@;
        let ghost m0 = self.pairs@;
        let ghost ss0 = self.singles();
        let _input_len = self.input.len();
        let (morphene, _entry) = match self.most_frequent_morphene_pair() {
            Some(p) => p,
            None => {
                return Some(None);
            },
        };
        let ghost i = choose|i: int| #[trigger] is_last_best(t, self.singles(), i) && morphene == self.pairs.entries@[i].0;
        proof {
            crate::table::lemma_table_map(t, morphene@);
            assert(t[i].0 == morphene@);
            assert(self.pairs@.dom().contains(morphene@));
            assert(self.pairs@.remove(morphene@) == self.pairs@.remove(t[i].0));
        }
        let nb_merged = match self.merge_checked(morphene) {
            Some(Ok(nb)) => nb,
            Some(Err(_)) => {
                return Some(None);
            },
            None => {
                proof {
                    assert(is_last_best(t, ss0, i));
                }
                return None;
            },
        };
        proof {
            lemma_merge_all(s0, self.input@, m0[morphene@]);
            assert(m0 == table_map(t));
            assert(round_of(s0, t, self.input@, ss0, morphene@, self.spans@, self.pairs.entries_view(), nb_merged as nat));
        }
        if nb_merged == 0 {
            proof {
                assert(round_outcome(s0, t, self.input@, ss0, self.spans@, self.pairs.entries_view(), None, morphene@, 0));
            }
            return Some(None);
        }
        proof {
            assert(round_outcome(s0, t, self.input@, ss0, self.spans@, self.pairs.entries_view(), Some((morphene, nb_merged)), morphene@, nb_merged as nat));
        }
        Some(Some((morphene, nb_merged)))
    }
}
impl<'a> SpanMerger<'a> {
    /// The texts of the spans, end to end, give back the input: the live spans are
    /// contiguous, in order, do not overlap and cover it, whatever merges took place.
    pub proof fn lemma_spans_rebuild_input(&self)
        requires
            self.wf(),
        ensures
            concat_texts(self.spans@, self.input@, self.spans@.len() as int) == self.input@,
    {
        lemma_concat_texts(self.spans@, self.input@, self.spans@.len() as int);
        assert(self.input@.subrange(0, self.input@.len() as int) =~= self.input@);
    }
}

impl<'a> SpanMerger<'a> {
    /// Merges round after round (see `next`) while a round merges more than `min_merged`
    /// occurrences, and returns each merged pair with its number of merges, in order. It stops
    /// when the table is empty or when a round merges `min_merged` times or fewer; and where a
    /// round would not find in the table the key of a pair that it takes out (where `next`
    /// may not be called), it stops there, with the merges of that round made so far.
    #[verifier::spinoff_prover]
    pub fn merge_frequent(&mut self, min_merged: usize) -> (r: Vec<(ByteStr<'a>, usize)>)
        requires
            old(self).wf(),
            old(self).pairs_sound(),
        ensures
            final(self).input == old(self).input,
            final(self).input_kind == old(self).input_kind,
            final(self).single_morphene == old(self).single_morphene,
            final(self).wf(),
            final(self).pairs_sound(),
            forall|i: int| 0 <= i < r@.len() ==> (#[trigger] r@[i]).1 > min_merged,
            live_count(final(self).spans@, final(self).spans@.len() as int) <= live_count(old(self).spans@, old(self).spans@.len() as int),
            exists|hs: Seq<Seq<Span>>, ts: Seq<Seq<(Seq<u8>, Seq<usize>)>>, ks: Seq<Seq<u8>>, ns: Seq<nat>, stuck: bool|
                #[trigger] merge_history(
                    old(self).spans@,
                    old(self).pairs.entries_view(),
                    old(self).input@,
                    old(self).singles(),
                    final(self).spans@,
                    final(self).pairs.entries_view(),
                    min_merged as nat,
                    r@,
                    hs,
                    ts,
                    ks,
                    ns,
                    stuck,
                ) && (old(self).pairs_complete() && !stuck ==> final(self).pairs_complete()),
    {
        let mut merged: Vec<(ByteStr<'a>, usize)> = Vec::new();
        let ghost n = self.spans@.len() as int;
        let ghost x = self.input@;
        let ghost ss = self.singles();
        let ghost mut hs: Seq<Seq<Span>> = seq![self.spans@];
        let ghost mut ts: Seq<Seq<(Seq<u8>, Seq<usize>)>> = seq![self.pairs.entries_view()];
        let ghost mut ks: Seq<Seq<u8>> = Seq::empty();
        let ghost mut ns: Seq<nat> = Seq::empty();
        let ghost mut stuck: bool = false;
        loop
            invariant_except_break
                !stuck,
                merged@.len() == ks.len(),
                old(self).pairs_complete() ==> self.pairs_complete(),
            invariant
                self.input == old(self).input,
                self.input_kind == old(self).input_kind,
                self.single_morphene == old(self).single_morphene,
                x == self.input@,
                ss == self.singles(),
                ss == old(self).singles(),
                x == old(self).input@,
                self.spans@.len() == n,
                n == old(self).spans@.len(),
                self.wf(),
                self.pairs_sound(),
                forall|i: int| 0 <= i < merged@.len() ==> (#[trigger] merged@[i]).1 > min_merged,
                live_count(self.spans@, n) <= live_count(old(self).spans@, n),
                hs.len() == ks.len() + 1,
                ts.len() == hs.len(),
                ns.len() == ks.len(),
                hs[0] == old(self).spans@,
                ts[0] == old(self).pairs.entries_view(),
                !stuck ==> hs.last() == self.spans@ && ts.last() == self.pairs.entries_view(),
                forall|i: int| 0 <= i < hs.len() ==> #[trigger] table_sound(table_map(ts[i]), hs[i], x),
                forall|i: int| 0 <= i < ks.len() ==> #[trigger] round_of(hs[i], ts[i], x, ss, ks[i], hs[i + 1], ts[i + 1], ns[i]),
                merged@.len() <= ks.len(),
                forall|i: int| 0 <= i < merged@.len() ==> (#[trigger] merged@[i]).0@ == ks[i] && merged@[i].1 == ns[i] && ns[i] > min_merged,
            ensures
                old(self).pairs_complete() && !stuck ==> self.pairs_complete(),
                (!stuck && ks.len() == merged@.len() + 1 && ns.last() <= min_merged) || (!stuck && ks.len() == merged@.len()
                    && self.pairs.entries_view().len() == 0) || (stuck && ks.len() == merged@.len() && ts.last().len() > 0
                    && round_stuck(hs.last(), ts.last(), x, ss)),
            decreases live_count(self.spans@, n),
        {
            let ghost pre_s = self.spans@;
            let ghost pre_t = self.pairs.entries_view();
            let ghost pre_ks = ks;
            let ghost pre_ns = ns;
            let ghost pre_hs = hs;
            let ghost pre_ts = ts;
            let ghost pre_merged = merged@;
            proof {
                assert forall|i: int| 0 <= i < pre_merged.len() implies (#[trigger] pre_merged[i]).0@ == pre_ks[i]
                    && pre_merged[i].1 == pre_ns[i] && pre_ns[i] > min_merged by {
                    assert(merged@[i] == pre_merged[i]);
                }
            }
            let res = self.next_checked();
            match res {
                None => {
                    proof {
                        stuck = true;
                        assert(round_stuck(pre_s, pre_t, x, ss));
                    }
                    break;
                },
                Some(res) => {
                    proof {
                        if pre_t.len() > 0 {
                            let (k, c) = choose|k: Seq<u8>, c: nat| #[trigger] round_outcome(
                                pre_s,
                                pre_t,
                                x,
                                ss,
                                self.spans@,
                                self.pairs.entries_view(),
                                res,
                                k,
                                c,
                            );
                            hs = hs.push(self.spans@);
                            ts = ts.push(self.pairs.entries_view());
                            ks = ks.push(k);
                            ns = ns.push(c);
                            assert forall|i: int| 0 <= i < hs.len() implies #[trigger] table_sound(table_map(ts[i]), hs[i], x) by {
                                if i < pre_hs.len() {
                                    assert(hs[i] == pre_hs[i] && ts[i] == pre_ts[i]);
                                }
                            }
                            assert forall|i: int| 0 <= i < ks.len() implies #[trigger] round_of(
                                hs[i],
                                ts[i],
                                x,
                                ss,
                                ks[i],
                                hs[i + 1],
                                ts[i + 1],
                                ns[i],
                            ) by {
                                if i + 1 < ks.len() {
                                    assert(hs[i] == pre_hs[i] && hs[i + 1] == pre_hs[i + 1] && ts[i] == pre_ts[i] && ts[i + 1]
                                        == pre_ts[i + 1]);
                                    assert(ks[i] == pre_ks[i] && ns[i] == pre_ns[i]);
                                } else {
                                    assert(hs[i] == pre_s && ts[i] == pre_t && hs[i + 1] == self.spans@ && ts[i + 1]
                                        == self.pairs.entries_view());
                                    assert(ks[i] == k && ns[i] == c);
                                }
                            }
                            assert forall|i: int| 0 <= i < merged@.len() implies (#[trigger] merged@[i]).0@ == ks[i]
                                && merged@[i].1 == ns[i] && ns[i] > min_merged by {
                                assert(merged@[i] == pre_merged[i]);
                                assert(ks[i] == pre_ks[i] && ns[i] == pre_ns[i]);
                            }
                            assert(res is Some ==> (res->0).0@ == ks.last() && (res->0).1 == ns.last());
                            assert(res is None ==> ns.last() == 0);
                        } else {
                            assert(res is None);
                        }
                    }
                    match res {
                        Some((morphene, nb_merged)) => {
                            if nb_merged <= min_merged {
                                break;
                            }
                            let ghost before = merged@;
                            merged.push((morphene, nb_merged));
                            proof {
                                assert forall|i: int| 0 <= i < merged@.len() implies (#[trigger] merged@[i]).0@ == ks[i]
                                    && merged@[i].1 == ns[i] && ns[i] > min_merged by {
                                    if i < before.len() {
                                        assert(merged@[i] == before[i]);
                                    }
                                }
                            }
                        },
                        None => {
                            break;
                        },
                    }
                },
            }
        }
        proof {
            assert(merge_history(
                old(self).spans@,
                old(self).pairs.entries_view(),
                old(self).input@,
                old(self).singles(),
                self.spans@,
                self.pairs.entries_view(),
                min_merged as nat,
                merged@,
                hs,
                ts,
                ks,
                ns,
                stuck,
            ));
        }
        merged
    }
}

impl<'a> SpanMerger<'a> {
    /// Whether the table holds the keys of the pairs that the merge at `prefix_id`, of the pair
    /// with the bytes `key`, takes out (see `step_found`).
    #[verifier::spinoff_prover]
    fn step_keys_present(&self, prefix_id: usize, key: ByteStr) -> (r: bool)
        requires
            self.wf(),
            live(self.spans@, prefix_id as int),
            next_live(self.spans@, prefix_id as int) < self.spans@.len(),
            pair_key(self.spans@, self.input@, prefix_id as int) == key@,
        ensures
            r == step_found(self.pairs@, self.spans@, self.input@, self.singles(), key@, prefix_id as int),
    {
        let ghost s = self.spans@;
        let ghost x = self.input@;
        let ghost n = x.len() as int;
        let ghost p = prefix_id as int;
        let _input_len = self.input.len();
        let _spans_len = self.spans.len();
        proof {
            lemma_pair_key_run(s, x, p);
            lemma_next_live_from(s, p + 1);
        }
        let ghost q = next_live(s, p);
        let prefix_span = self.spans[prefix_id];
        let prefix_len = prefix_span.len;
        let prev_id = self.prev_live_index(prefix_id);
        let (suffix_opt, next_id) = self.suffix_and_next(prefix_id);
        let suffix_id = suffix_opt.unwrap();
        let suffix_span = self.spans[suffix_id];
        proof {
            lemma_next_live_from(s, q + 1);
            lemma_tiles_bounds(s, n, q);
            lemma_prev_of_next(s, p);
        }
        let ghost nx = next_live(s, q);
        let ghost pv = prev_live(s, p);
        proof {
            lemma_prev_live_from(s, p - 1);
            if pv >= 0 {
                lemma_next_live_from_unique(s, pv + 1, p);
                lemma_tiles_next_begin(s, n, pv);
                lemma_pair_key_run(s, x, pv);
            }
            if nx < s.len() {
                lemma_tiles_next_begin(s, n, q);
                lemma_pair_key_run(s, x, q);
                lemma_tiles_bounds(s, n, nx);
            }
        }
        let prev_ok = match prev_id {
            None => true,
            Some(pid) => {
                let prev = self.spans[pid];
                let prev_pair = prev.with_added_len(prefix_len).get(self.input);
                assert(prev_pair@ == pair_key(s, x, pv));
                let found = match self.pairs.find(prev_pair.as_bytes()) {
                    Some(_) => true,
                    None => false,
                };
                self.is_single(prev.get(self.input)) || found || bytes_eq(prev_pair.as_bytes(), key.as_bytes())
            },
        };
        let next_ok = match next_id {
            None => true,
            Some(nid) => {
                assert(suffix_id as int == q);
                assert(nid as int == nx);
                let next = self.spans[nid];
                assert(s[q].begin + s[q].len + s[nx].len <= x.len());
                let suffix_pair = suffix_span.with_added_len(next.len).get(self.input);
                assert(suffix_pair@ == pair_key(s, x, q));
                let found = match self.pairs.find(suffix_pair.as_bytes()) {
                    Some(_) => true,
                    None => false,
                };
                self.is_single(next.get(self.input)) || found || bytes_eq(suffix_pair.as_bytes(), key.as_bytes())
            },
        };
        prev_ok && next_ok
    }
}

} // verus!
