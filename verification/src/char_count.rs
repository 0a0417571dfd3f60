//! How often each character of a text occurs: a way to guess which characters separate its
//! words.
use vstd::prelude::*;

verus! {

/// How many times `c` occurs among the first `i` characters of `s`.
pub open spec fn occurrences(s: Seq<char>, c: char, i: int) -> nat
    decreases i,
{
    if i <= 0 {
        0
    } else {
        occurrences(s, c, i - 1) + if s[i - 1] == c {
            1nat
        } else {
            0nat
        }
    }
}

/// `r` lists each character that occurs among the first `i` characters of `s` once, with how
/// many times it occurs there.
pub open spec fn is_char_count(r: Seq<(char, u64)>, s: Seq<char>, i: int) -> bool {
    &&& forall|e1: int, e2: int| 0 <= e1 < r.len() && 0 <= e2 < r.len() && e1 != e2 ==> (#[trigger] r[e1]).0 != (#[trigger] r[e2]).0
    &&& forall|e: int| 0 <= e < r.len() ==> (#[trigger] r[e]).1 == occurrences(s, r[e].0, i) && r[e].1 > 0
    &&& forall|c: char| #[trigger] occurrences(s, c, i) > 0 ==> exists|e: int| 0 <= e < r.len() && (#[trigger] r[e]).0 == c
}

/// The sum of the numbers of `r`.
pub open spec fn count_total(r: Seq<(char, u64)>) -> nat
    decreases r.len(),
{
    if r.len() == 0 {
        0
    } else {
        count_total(r.drop_last()) + r.last().1 as nat
    }
}

proof fn lemma_total_update(r: Seq<(char, u64)>, e: int, v: (char, u64))
    requires
        0 <= e < r.len(),
    ensures
        count_total(r.update(e, v)) + r[e].1 == count_total(r) + v.1,
    decreases r.len(),
{
    if e < r.len() - 1 {
        lemma_total_update(r.drop_last(), e, v);
        assert(r.update(e, v).drop_last() =~= r.drop_last().update(e, v));
    } else {
        assert(r.update(e, v).drop_last() =~= r.drop_last());
    }
}

proof fn lemma_total_concat(a: Seq<(char, u64)>, b: Seq<(char, u64)>)
    ensures
        count_total(a + b) == count_total(a) + count_total(b),
    decreases b.len(),
{
    if b.len() == 0 {
        assert(a + b =~= a);
    } else {
        lemma_total_concat(a, b.drop_last());
        assert((a + b).drop_last() =~= a + b.drop_last());
    }
}

proof fn lemma_total_remove(r: Seq<(char, u64)>, m: int)
    requires
        0 <= m < r.len(),
    ensures
        count_total(r.remove(m)) + r[m].1 == count_total(r),
{
    let a = r.subrange(0, m);
    let b = r.subrange(m + 1, r.len() as int);
    lemma_total_concat(a, b);
    lemma_total_concat(a.push(r[m]), b);
    assert(r =~= a.push(r[m]) + b);
    assert(a.push(r[m]).drop_last() =~= a);
}

proof fn lemma_occurrences_bound(s: Seq<char>, c: char, i: int)
    requires
        0 <= i,
    ensures
        occurrences(s, c, i) <= i,
    decreases i,
{
    if i > 0 {
        lemma_occurrences_bound(s, c, i - 1);
    }
}

/// Moving entry `m` of `rest` to the end of `out` keeps a count a count.
proof fn lemma_move_entry(out: Seq<(char, u64)>, rest: Seq<(char, u64)>, m: int, s: Seq<char>, i: int)
    requires
        is_char_count(out + rest, s, i),
        0 <= m < rest.len(),
    ensures
        is_char_count(out.push(rest[m]) + rest.remove(m), s, i),
{
    let before = out + rest;
    let after = out.push(rest[m]) + rest.remove(m);
    let o = out.len() as int;
    rest.remove_ensures(m);
    assert(after.len() == before.len());
    assert forall|e: int| 0 <= e < after.len() implies #[trigger] after[e] == before[
        if e < o {
            e
        } else if e == o {
            o + m
        } else if e - o - 1 < m {
            e - 1
        } else {
            e
        }
    ] by {
        if e > o {
            assert(after[e] == rest.remove(m)[e - o - 1]);
        }
    }
    assert forall|e1: int, e2: int| 0 <= e1 < after.len() && 0 <= e2 < after.len() && e1 != e2 implies (#[trigger] after[e1]).0
        != (#[trigger] after[e2]).0 by {
        let f1 = if e1 < o {
            e1
        } else if e1 == o {
            o + m
        } else if e1 - o - 1 < m {
            e1 - 1
        } else {
            e1
        };
        let f2 = if e2 < o {
            e2
        } else if e2 == o {
            o + m
        } else if e2 - o - 1 < m {
            e2 - 1
        } else {
            e2
        };
        assert(after[e1] == before[f1]);
        assert(after[e2] == before[f2]);
        assert(f1 != f2);
    }
    assert forall|e: int| 0 <= e < after.len() implies (#[trigger] after[e]).1 == occurrences(s, after[e].0, i) && after[e].1 > 0 by {
        let f = if e < o {
            e
        } else if e == o {
            o + m
        } else if e - o - 1 < m {
            e - 1
        } else {
            e
        };
        assert(after[e] == before[f]);
    }
    assert forall|c: char| #[trigger] occurrences(s, c, i) > 0 implies exists|e: int| 0 <= e < after.len() && (#[trigger] after[e]).0 == c by {
        let f = choose|f: int| 0 <= f < before.len() && (#[trigger] before[f]).0 == c;
        let e = if f < o {
            f
        } else if f == o + m {
            o
        } else if f < o + m {
            f + 1
        } else {
            f
        };
        assert(after[e] == before[f]);
    }
}

/// Counts the characters: each one that occurs, once, with how many times it occurs, in the
/// order of their first occurrence.
fn count_chars(chars: &[char]) -> (r: Vec<(char, u64)>)
    ensures
        is_char_count(r@, chars@, chars@.len() as int),
        count_total(r@) == chars@.len(),
{
    let mut counts: Vec<(char, u64)> = Vec::new();
    let n = chars.len();
    let mut i: usize = 0;
    while i < n
        invariant
            n == chars@.len(),
            i <= n,
            is_char_count(counts@, chars@, i as int),
            count_total(counts@) == i,
        decreases n - i,
    {
        let c = chars[i];
        let ghost s = chars@;
        let ghost before = counts@;
        let m = counts.len();
        let mut e: usize = 0;
        while e < m && counts[e].0 != c
            invariant
                m == counts@.len(),
                counts@ == before,
                e <= m,
                forall|f: int| 0 <= f < e ==> (#[trigger] before[f]).0 != c,
            decreases m - e,
        {
            e += 1;
        }
        proof {
            lemma_occurrences_bound(s, c, i as int);
            assert forall|d: char| #[trigger] occurrences(s, d, i + 1) == occurrences(s, d, i as int) + if d == c {
                1nat
            } else {
                0nat
            } by {}
        }
        if e < m {
            let (d, k) = counts[e];
            assert(k as int == occurrences(s, c, i as int));
            assert(k < u64::MAX);
            counts.set(e, (d, k + 1));
            proof {
                let after = counts@;
                lemma_total_update(before, e as int, (d, (k + 1) as u64));
                assert forall|f: int| 0 <= f < after.len() implies (#[trigger] after[f]).1 == occurrences(s, after[f].0, i + 1)
                    && after[f].1 > 0 by {
                    if f != e {
                        assert(before[f].0 != c);
                    }
                }
                assert forall|x: char| #[trigger] occurrences(s, x, i + 1) > 0 implies exists|f: int| 0 <= f < after.len() && (#[trigger] after[f]).0 == x by {
                    if x == c {
                        assert(after[e as int].0 == x);
                    } else {
                        let f = choose|f: int| 0 <= f < before.len() && (#[trigger] before[f]).0 == x;
                        assert(after[f].0 == x);
                    }
                }
            }
        } else {
            proof {
                if occurrences(s, c, i as int) > 0 {
                    let f = choose|f: int| 0 <= f < before.len() && (#[trigger] before[f]).0 == c;
                    assert(false);
                }
            }
            counts.push((c, 1));
            proof {
                let after = counts@;
                assert(after.drop_last() =~= before);
                assert forall|f: int| 0 <= f < after.len() implies (#[trigger] after[f]).1 == occurrences(s, after[f].0, i + 1)
                    && after[f].1 > 0 by {
                    if f < m {
                        assert(after[f] == before[f]);
                    }
                }
                assert forall|x: char| #[trigger] occurrences(s, x, i + 1) > 0 implies exists|f: int| 0 <= f < after.len() && (#[trigger] after[f]).0 == x by {
                    if x == c {
                        assert(after[m as int].0 == x);
                    } else {
                        let f = choose|f: int| 0 <= f < before.len() && (#[trigger] before[f]).0 == x;
                        assert(after[f].0 == x);
                    }
                }
            }
        }
        i += 1;
    }
    counts
}

/// How often each character of `chars` occurs: each character that occurs, once, with how many
/// times it occurs, the most frequent first (the order between characters that occur equally
/// often is left open). The numbers add up to the number of characters.
pub fn char_frequency(chars: &[char]) -> (r: Vec<(char, u64)>)
    ensures
        is_char_count(r@, chars@, chars@.len() as int),
        forall|a: int, b: int| 0 <= a < b < r@.len() ==> (#[trigger] r@[a]).1 >= (#[trigger] r@[b]).1,
        count_total(r@) == chars@.len(),
{
    let ghost s = chars@;
    let ghost n = s.len() as int;
    let mut rest = count_chars(chars);
    let mut out: Vec<(char, u64)> = Vec::new();
    proof {
        assert(out@ + rest@ =~= rest@);
        assert(count_total(out@) == 0);
    }
    while rest.len() > 0
        invariant
            is_char_count(out@ + rest@, s, n),
            count_total(out@) + count_total(rest@) == n,
            forall|a: int, b: int| 0 <= a < b < out@.len() ==> (#[trigger] out@[a]).1 >= (#[trigger] out@[b]).1,
            forall|a: int, b: int| 0 <= a < out@.len() && 0 <= b < rest@.len() ==> (#[trigger] out@[a]).1 >= (#[trigger] rest@[b]).1,
        decreases rest@.len(),
    {
        let len = rest.len();
        let mut m: usize = 0;
        let mut j: usize = 1;
        while j < len
            invariant
                len == rest@.len(),
                1 <= j <= len,
                m < j,
                forall|f: int| 0 <= f < j ==> (#[trigger] rest@[f]).1 <= rest@[m as int].1,
            decreases len - j,
        {
            if rest[j].1 > rest[m].1 {
                m = j;
            }
            j += 1;
        }
        let ghost old_out = out@;
        let ghost old_rest = rest@;
        proof {
            lemma_move_entry(old_out, old_rest, m as int, s, n);
            old_rest.remove_ensures(m as int);
            lemma_total_remove(old_rest, m as int);
            assert(old_out.push(old_rest[m as int]).drop_last() =~= old_out);
        }
        let v = rest.remove(m);
        out.push(v);
        proof {
            assert(out@ == old_out.push(old_rest[m as int]));
            assert forall|a: int, b: int| 0 <= a < out@.len() && 0 <= b < rest@.len() implies (#[trigger] out@[a]).1 >= (#[trigger] rest@[b]).1 by {
                if b < m {
                    assert(rest@[b] == old_rest[b]);
                } else {
                    assert(rest@[b] == old_rest[b + 1]);
                }
                if a < old_out.len() {
                    assert(out@[a] == old_out[a]);
                }
            }
            assert forall|a: int, b: int| 0 <= a < b < out@.len() implies (#[trigger] out@[a]).1 >= (#[trigger] out@[b]).1 by {
                if b < old_out.len() {
                    assert(out@[a] == old_out[a] && out@[b] == old_out[b]);
                } else {
                    assert(out@[a] == old_out[a]);
                    assert(out@[b] == old_rest[m as int]);
                }
            }
        }
    }
    proof {
        assert(out@ + rest@ =~= out@);
    }
    out
}

} // verus!
