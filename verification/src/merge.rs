//! What one merge does to a row of spans, stated and proved once for every caller.
use vstd::prelude::*;
use crate::table::registered;
use crate::span::{
    lemma_next_live_from, lemma_next_live_from_unique, lemma_tiles_bounds, lemma_tiles_next_begin,
    live, next_live, prefix_len, prev_live, text, tiles, Span, live_count,
};

verus! {

/// Merges live span `p` with the live span after it: `p` grows over it, the other becomes
/// empty. Anything else leaves the row unchanged.
pub open spec fn merge_step(s: Seq<Span>, p: int) -> Seq<Span> {
    let q = next_live(s, p);
    if live(s, p) && q < s.len() {
        s.update(p, Span { begin: s[p].begin, len: (s[p].len + s[q].len) as usize }).update(
            q,
            Span { begin: s[q].begin, len: 0 },
        )
    } else {
        s
    }
}

/// Merges at each of `ids`, in order, skipping those already swallowed by an earlier merge.
pub open spec fn merge_all(s: Seq<Span>, ids: Seq<usize>) -> Seq<Span>
    decreases ids.len(),
{
    if ids.len() == 0 {
        s
    } else {
        merge_step(merge_all(s, ids.drop_last()), ids.last() as int)
    }
}

/// How many of the merges of `merge_all(s, ids)` took place.
pub open spec fn merged_count(s: Seq<Span>, ids: Seq<usize>) -> nat
    decreases ids.len(),
{
    if ids.len() == 0 {
        0
    } else {
        let before = merge_all(s, ids.drop_last());
        merged_count(s, ids.drop_last()) + if live(before, ids.last() as int) && next_live(
            before,
            ids.last() as int,
        ) < before.len() {
            1nat
        } else {
            0nat
        }
    }
}

/// The bytes of the pair that starts at live span `a`: its text and the text of the next one.
pub open spec fn pair_key(s: Seq<Span>, x: Seq<u8>, a: int) -> Seq<u8> {
    text(s, x, a) + text(s, x, next_live(s, a))
}

proof fn lemma_prefix_after_step(s: Seq<Span>, p: int, q: int, i: int)
    requires
        0 <= p < q < s.len(),
        s[p].len + s[q].len <= usize::MAX,
        0 <= i <= s.len(),
    ensures
        ({
            let s2 = s.update(p, Span { begin: s[p].begin, len: (s[p].len + s[q].len) as usize }).update(
                q,
                Span { begin: s[q].begin, len: 0 },
            );
            &&& i <= p ==> prefix_len(s2, i) == prefix_len(s, i)
            &&& p < i <= q ==> prefix_len(s2, i) == prefix_len(s, i) + s[q].len
            &&& q < i ==> prefix_len(s2, i) == prefix_len(s, i)
        }),
    decreases i,
{
    if i > 0 {
        lemma_prefix_after_step(s, p, q, i - 1);
    }
}

/// One merge keeps the tiling; it kills the swallowed span and no other, lengthens the
/// merging one by the text of the swallowed one, and leaves every other text and every other
/// "next live span" as they were.
pub proof fn lemma_merge_step(s: Seq<Span>, x: Seq<u8>, p: int)
    requires
        tiles(s, x.len() as int),
        x.len() <= usize::MAX,
        live(s, p),
        next_live(s, p) < s.len(),
    ensures
        ({
            let q = next_live(s, p);
            let s2 = merge_step(s, p);
            &&& s2.len() == s.len()
            &&& tiles(s2, x.len() as int)
            &&& forall|i: int| #[trigger] live(s2, i) <==> (live(s, i) && i != q)
            &&& s2[p].begin == s[p].begin
            &&& s2[p].len == s[p].len + s[q].len
            &&& s2[q].begin == s[q].begin && s2[q].len == 0
            &&& forall|i: int| 0 <= i < s.len() && i != p && i != q ==> #[trigger] s2[i] == s[i]
            &&& text(s2, x, p) == text(s, x, p) + text(s, x, q)
            &&& forall|i: int| 0 <= i < s.len() && i != p && i != q ==> #[trigger] text(s2, x, i) == text(s, x, i)
            &&& next_live(s2, p) == next_live(s, q)
            &&& forall|i: int| #[trigger] live(s2, i) && i != p ==> next_live(s2, i) == next_live(s, i)
            &&& p < q
            &&& s[q].begin == s[p].spec_end()
        }),
{
    let q = next_live(s, p);
    let n = x.len() as int;
    lemma_next_live_from(s, p + 1);
    lemma_tiles_next_begin(s, n, p);
    lemma_tiles_bounds(s, n, q);
    let s2 = merge_step(s, p);
    assert(s2 == s.update(p, Span { begin: s[p].begin, len: (s[p].len + s[q].len) as usize }).update(
        q,
        Span { begin: s[q].begin, len: 0 },
    ));
    assert forall|i: int| #[trigger] live(s2, i) <==> (live(s, i) && i != q) by {}
    // tiling
    assert forall|i: int| 0 <= i < s2.len() implies #[trigger] s2[i].begin <= prefix_len(s2, i) by {
        lemma_prefix_after_step(s, p, q, i);
    }
    assert forall|i: int| #[trigger] live(s2, i) implies s2[i].begin == prefix_len(s2, i) by {
        lemma_prefix_after_step(s, p, q, i);
        if p < i < q {
            assert(!live(s, i));
        }
    }
    lemma_prefix_after_step(s, p, q, s.len() as int);
    // texts
    assert(text(s2, x, p) =~= text(s, x, p) + text(s, x, q));
    // next live spans
    lemma_next_live_from(s, q + 1);
    assert forall|k: int| p + 1 <= k < next_live(s, q) implies !live(s2, k) by {}
    lemma_next_live_from_unique(s2, p + 1, next_live(s, q));
    assert forall|i: int| #[trigger] live(s2, i) && i != p implies next_live(s2, i) == next_live(s, i) by {
        lemma_next_live_from(s, i + 1);
        let r = next_live(s, i);
        if i < p {
            assert(r <= p) by {
                if r > p {
                    assert(!live(s, p));
                }
            }
            assert forall|k: int| i + 1 <= k < r implies !live(s2, k) by {}
            lemma_next_live_from_unique(s2, i + 1, r);
        } else {
            assert(i > q) by {
                if i < q {
                    assert(!live(s, i));
                }
            }
            assert forall|k: int| i + 1 <= k < r implies !live(s2, k) by {}
            lemma_next_live_from_unique(s2, i + 1, r);
        }
    }
}

/// The pair key of a live span `a`, which has a live span after it, is one run of the input.
pub proof fn lemma_pair_key_run(s: Seq<Span>, x: Seq<u8>, a: int)
    requires
        tiles(s, x.len() as int),
        live(s, a),
        next_live(s, a) < s.len(),
    ensures
        pair_key(s, x, a) == x.subrange(
            s[a].begin as int,
            s[a].begin + s[a].len + s[next_live(s, a)].len,
        ),
        s[a].begin + s[a].len + s[next_live(s, a)].len <= x.len(),
        pair_key(s, x, a).len() == s[a].len + s[next_live(s, a)].len,
{
    let q = next_live(s, a);
    lemma_next_live_from(s, a + 1);
    lemma_tiles_next_begin(s, x.len() as int, a);
    lemma_tiles_bounds(s, x.len() as int, q);
    lemma_tiles_bounds(s, x.len() as int, a);
    assert(pair_key(s, x, a) =~= x.subrange(
        s[a].begin as int,
        s[a].begin + s[a].len + s[next_live(s, a)].len,
    ));
}

/// The bytes of the pairs that the merge at `p` makes the merged span form with its
/// neighbours: with the live span before it, unless that text stays on its own, and with the
/// live span after the swallowed one, unless that text stays on its own. Empty when no merge
/// takes place at `p`.
pub open spec fn step_keys(s: Seq<Span>, x: Seq<u8>, ss: Seq<Seq<u8>>, p: int) -> Set<Seq<u8>> {
    let q = next_live(s, p);
    let pv = prev_live(s, p);
    let nx = next_live(s, q);
    let s2 = merge_step(s, p);
    if live(s, p) && q < s.len() {
        (if pv >= 0 && !ss.contains(text(s, x, pv)) {
            Set::empty().insert(pair_key(s2, x, pv))
        } else {
            Set::empty()
        }) + (if nx < s.len() && !ss.contains(text(s, x, nx)) {
            Set::empty().insert(pair_key(s2, x, p))
        } else {
            Set::empty()
        })
    } else {
        Set::empty()
    }
}

/// The bytes of all the pairs that the merges of `merge_all(s, ids)` form (see `step_keys`).
pub open spec fn added_keys(s: Seq<Span>, x: Seq<u8>, ss: Seq<Seq<u8>>, ids: Seq<usize>) -> Set<Seq<u8>>
    decreases ids.len(),
{
    if ids.len() == 0 {
        Set::empty()
    } else {
        added_keys(s, x, ss, ids.drop_last()) + step_keys(
            merge_all(s, ids.drop_last()),
            x,
            ss,
            ids.last() as int,
        )
    }
}

/// The spans that table `m` lists, each under the bytes of its own pair.
pub open spec fn listed(m: Map<Seq<u8>, Seq<usize>>, s: Seq<Span>, x: Seq<u8>) -> Set<int> {
    Set::new(|b: int| 0 <= b < s.len() && registered(m, pair_key(s, x, b), b as usize))
}

/// The spans listed after the merge at `p`, when `l` were listed before: the merge takes out
/// the span before `p`, `p` and the swallowed span, then lists the span before `p` again
/// unless its text stays on its own, and `p` unless the text after the merged span stays on
/// its own.
pub open spec fn listed_step(s: Seq<Span>, x: Seq<u8>, ss: Seq<Seq<u8>>, l: Set<int>, p: int) -> Set<int> {
    let q = next_live(s, p);
    let pv = prev_live(s, p);
    let nx = next_live(s, q);
    if live(s, p) && q < s.len() {
        let l1 = l.remove(pv).remove(p).remove(q);
        let l2 = if pv >= 0 && !ss.contains(text(s, x, pv)) {
            l1.insert(pv)
        } else {
            l1
        };
        if nx < s.len() && !ss.contains(text(s, x, nx)) {
            l2.insert(p)
        } else {
            l2
        }
    } else {
        l
    }
}

/// The spans listed after the merges of `merge_all(s, ids)`, when `l` were listed before.
pub open spec fn listed_after(s: Seq<Span>, x: Seq<u8>, ss: Seq<Seq<u8>>, l: Set<int>, ids: Seq<usize>) -> Set<int>
    decreases ids.len(),
{
    if ids.len() == 0 {
        l
    } else {
        listed_step(
            merge_all(s, ids.drop_last()),
            x,
            ss,
            listed_after(s, x, ss, l, ids.drop_last()),
            ids.last() as int,
        )
    }
}

/// The merge at `p`, when the table holds the keys `d`, finds in it the keys of the pairs
/// that it takes out: the pair of the span before `p` unless that text stays on its own, and
/// the pair of the swallowed span unless the text after it stays on its own. The key `k` of
/// the pair being merged has left the table already and is not looked for.
pub open spec fn step_safe(s: Seq<Span>, x: Seq<u8>, ss: Seq<Seq<u8>>, d: Set<Seq<u8>>, k: Seq<u8>, p: int) -> bool {
    let q = next_live(s, p);
    let pv = prev_live(s, p);
    let nx = next_live(s, q);
    live(s, p) ==> {
        &&& (pv >= 0 && !ss.contains(text(s, x, pv)) ==> d.contains(pair_key(s, x, pv)) || pair_key(s, x, pv) == k)
        &&& (nx < s.len() && !ss.contains(text(s, x, nx)) ==> d.contains(pair_key(s, x, q)) || pair_key(s, x, q) == k)
    }
}

/// Every merge of `merge_all(s, ids)` finds in the table the keys of the pairs that it takes
/// out (see `step_safe`), the table holding the keys `d` before the first merge and gaining
/// the keys that each merge adds (see `added_keys`).
pub open spec fn merge_finds(s: Seq<Span>, x: Seq<u8>, ss: Seq<Seq<u8>>, d: Set<Seq<u8>>, k: Seq<u8>, ids: Seq<usize>) -> bool {
    forall|u: int| 0 <= u < ids.len() ==> #[trigger] step_safe(
        merge_all(s, ids.take(u)),
        x,
        ss,
        d + added_keys(s, x, ss, ids.take(u)),
        k,
        ids[u] as int,
    )
}

/// Table `m` holds the keys of the pairs that the merge at `p` takes out (see `step_safe`).
pub open spec fn step_found(m: Map<Seq<u8>, Seq<usize>>, s: Seq<Span>, x: Seq<u8>, ss: Seq<Seq<u8>>, k: Seq<u8>, p: int) -> bool {
    let q = next_live(s, p);
    let pv = prev_live(s, p);
    let nx = next_live(s, q);
    &&& (pv >= 0 && !ss.contains(text(s, x, pv)) ==> m.dom().contains(pair_key(s, x, pv)) || pair_key(s, x, pv) == k)
    &&& (nx < s.len() && !ss.contains(text(s, x, nx)) ==> m.dom().contains(pair_key(s, x, q)) || pair_key(s, x, q) == k)
}

/// The pair at live span `a` may be merged: a live span follows, and neither text is one that
/// must stay on its own.
pub open spec fn eligible(s: Seq<Span>, x: Seq<u8>, ss: Seq<Seq<u8>>, a: int) -> bool {
    &&& live(s, a)
    &&& next_live(s, a) < s.len()
    &&& !ss.contains(text(s, x, a))
    &&& !ss.contains(text(s, x, next_live(s, a)))
}

/// Every span listed in the table is live, has a live span after it, and is listed under the
/// bytes of that pair.
pub open spec fn table_sound(m: Map<Seq<u8>, Seq<usize>>, s: Seq<Span>, x: Seq<u8>) -> bool {
    forall|k: Seq<u8>, b: usize| #[trigger] registered(m, k, b) ==> {
        &&& live(s, b as int)
        &&& next_live(s, b as int) < s.len()
        &&& pair_key(s, x, b as int) == k
    }
}

/// Every eligible pair whose bytes are not `k` is listed in the table under its bytes.
pub open spec fn table_complete_but(
    m: Map<Seq<u8>, Seq<usize>>,
    s: Seq<Span>,
    x: Seq<u8>,
    ss: Seq<Seq<u8>>,
    k: Seq<u8>,
) -> bool {
    forall|a: int| #[trigger] eligible(s, x, ss, a) && pair_key(s, x, a) != k ==> registered(m, pair_key(s, x, a), a as usize)
}

/// Every eligible pair is listed in the table under its bytes.
pub open spec fn table_complete(m: Map<Seq<u8>, Seq<usize>>, s: Seq<Span>, x: Seq<u8>, ss: Seq<Seq<u8>>) -> bool {
    forall|a: int| #[trigger] eligible(s, x, ss, a) ==> registered(m, pair_key(s, x, a), a as usize)
}

/// Every span listed in the table starts an eligible pair.
pub open spec fn table_eligible(m: Map<Seq<u8>, Seq<usize>>, s: Seq<Span>, x: Seq<u8>, ss: Seq<Seq<u8>>) -> bool {
    forall|k: Seq<u8>, b: usize| #[trigger] registered(m, k, b) ==> eligible(s, x, ss, b as int)
}

/// The merge at `ids[u]`, in `merge_all(s, ids)`, joins two spans neither of whose texts
/// stays on its own (or does not take place).
pub open spec fn step_eligible(s: Seq<Span>, x: Seq<u8>, ss: Seq<Seq<u8>>, ids: Seq<usize>, u: int) -> bool {
    let before = merge_all(s, ids.take(u));
    live(before, ids[u] as int) ==> eligible(before, x, ss, ids[u] as int)
}

/// Every merge of `merge_all(s, ids)` joins two spans neither of whose texts stays on its own.
pub open spec fn merges_eligible(s: Seq<Span>, x: Seq<u8>, ss: Seq<Seq<u8>>, ids: Seq<usize>) -> bool {
    forall|u: int| 0 <= u < ids.len() ==> #[trigger] step_eligible(s, x, ss, ids, u)
}

proof fn lemma_live_count_step(s: Seq<Span>, x: Seq<u8>, p: int, i: int)
    requires
        tiles(s, x.len() as int),
        x.len() <= usize::MAX,
        live(s, p),
        next_live(s, p) < s.len(),
        0 <= i <= s.len(),
    ensures
        live_count(merge_step(s, p), i) + (if i > next_live(s, p) { 1int } else { 0int }) == live_count(s, i),
    decreases i,
{
    lemma_merge_step(s, x, p);
    if i > 0 {
        lemma_live_count_step(s, x, p, i - 1);
        let s2 = merge_step(s, p);
        assert(live(s2, i - 1) <==> (live(s, i - 1) && i - 1 != next_live(s, p)));
        assert(live(s, i - 1) == (s[i - 1].len > 0));
        assert(live(s2, i - 1) == (s2[i - 1].len > 0));
        assert(live_count(s2, i) == live_count(s2, i - 1) + if s2[i - 1].len > 0 { 1nat } else { 0nat });
        assert(live_count(s, i) == live_count(s, i - 1) + if s[i - 1].len > 0 { 1nat } else { 0nat });
        let q = next_live(s, p);
        lemma_next_live_from(s, p + 1);
        if i - 1 == q {
            assert(s2[i - 1].len == 0);
            assert(s[i - 1].len > 0);
            assert(live_count(s2, i - 1) == live_count(s, i - 1));
        } else if i - 1 > q {
            assert(live_count(s2, i - 1) + 1 == live_count(s, i - 1));
        } else {
            assert(live_count(s2, i - 1) == live_count(s, i - 1));
        }
    }
}

/// Merging never breaks the tiling and never removes a span; each merge that takes place
/// leaves one live span fewer.
pub proof fn lemma_merge_all(s: Seq<Span>, x: Seq<u8>, ids: Seq<usize>)
    requires
        tiles(s, x.len() as int),
        x.len() <= usize::MAX,
    ensures
        tiles(merge_all(s, ids), x.len() as int),
        merge_all(s, ids).len() == s.len(),
        live_count(merge_all(s, ids), s.len() as int) + merged_count(s, ids) == live_count(s, s.len() as int),
    decreases ids.len(),
{
    if ids.len() > 0 {
        lemma_merge_all(s, x, ids.drop_last());
        let before = merge_all(s, ids.drop_last());
        let p = ids.last() as int;
        if live(before, p) && next_live(before, p) < before.len() {
            lemma_merge_step(before, x, p);
            lemma_live_count_step(before, x, p, before.len() as int);
        }
    }
}


/// Merging moves no span: every span keeps where it begins, and a span that was merged away
/// (or was empty) stays so.
pub proof fn lemma_merge_all_keeps_begins(s: Seq<Span>, ids: Seq<usize>)
    ensures
        merge_all(s, ids).len() == s.len(),
        forall|i: int| 0 <= i < s.len() ==> #[trigger] merge_all(s, ids)[i].begin == s[i].begin,
        forall|i: int| 0 <= i < s.len() && !live(s, i) ==> !#[trigger] live(merge_all(s, ids), i),
    decreases ids.len(),
{
    if ids.len() > 0 {
        lemma_merge_all_keeps_begins(s, ids.drop_last());
        let before = merge_all(s, ids.drop_last());
        let p = ids.last() as int;
        let q = next_live(before, p);
        if live(before, p) && q < before.len() {
            lemma_next_live_from(before, p + 1);
            assert forall|i: int| 0 <= i < s.len() && !live(s, i) implies !#[trigger] live(merge_all(s, ids), i) by {
                assert(!live(before, i));
            }
        }
    }
}

/// When every merge joins two spans neither of whose texts stays on its own, a live span
/// whose text stays on its own comes out of the merges unchanged.
pub proof fn lemma_merge_all_keeps_singles(s: Seq<Span>, x: Seq<u8>, ss: Seq<Seq<u8>>, ids: Seq<usize>)
    requires
        merges_eligible(s, x, ss, ids),
    ensures
        forall|i: int| 0 <= i < s.len() && live(s, i) && ss.contains(text(s, x, i)) ==> #[trigger] merge_all(s, ids)[i] == s[i],
    decreases ids.len(),
{
    if ids.len() > 0 {
        let d = ids.drop_last();
        assert forall|u: int| 0 <= u < d.len() implies #[trigger] step_eligible(s, x, ss, d, u) by {
            assert(d.take(u) =~= ids.take(u));
            assert(step_eligible(s, x, ss, ids, u));
        }
        lemma_merge_all_keeps_singles(s, x, ss, d);
        let before = merge_all(s, d);
        let p = ids.last() as int;
        let q = next_live(before, p);
        assert(step_eligible(s, x, ss, ids, ids.len() - 1));
        assert(ids.take(ids.len() - 1) =~= d);
        lemma_merge_all_keeps_begins(s, d);
        assert(merge_all(s, ids) == merge_step(before, p));
        if live(before, p) && q < before.len() {
            lemma_next_live_from(before, p + 1);
            assert forall|i: int| 0 <= i < s.len() && live(s, i) && ss.contains(text(s, x, i)) implies #[trigger] merge_all(s, ids)[i] == s[i] by {
                assert(eligible(before, x, ss, p));
                assert(before[i] == s[i]);
                assert(text(before, x, i) == text(s, x, i));
                assert(i != p);
                assert(i != q);

            }
        }
    }
}

} // verus!
