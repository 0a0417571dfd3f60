//! Every proper part of a sequence, shortest first.
use vstd::prelude::*;
use vstd::string::*;

verus! {

/// The runs of `l` consecutive items of `s`, from left to right.
pub open spec fn subs_of_len<A>(s: Seq<A>, l: int) -> Seq<Seq<A>> {
    Seq::new((s.len() - l + 1) as nat, |st: int| s.subrange(st, st + l))
}

/// The runs of `1`, then `2`, ... then `l - 1` consecutive items of `s`.
pub open spec fn subs_upto<A>(s: Seq<A>, l: int) -> Seq<Seq<A>>
    decreases l,
{
    if l <= 1 {
        Seq::empty()
    } else {
        subs_upto(s, l - 1) + subs_of_len(s, l - 1)
    }
}

/// Every run of consecutive items of `s` but the whole of it, shortest first, then from left
/// to right.
pub open spec fn all_subs<A>(s: Seq<A>) -> Seq<Seq<A>> {
    subs_upto(s, s.len() as int)
}

/// `t` is a run of consecutive items of `s`, at least one and fewer than `l` of them.
pub open spec fn is_run_below<A>(s: Seq<A>, t: Seq<A>, l: int) -> bool {
    exists|a: int, b: int| 0 <= a < b <= s.len() && b - a < l && t == s.subrange(a, b)
}

proof fn lemma_subs_upto<A>(s: Seq<A>, l: int)
    requires
        1 <= l <= s.len() + 1,
    ensures
        2 * subs_upto(s, l).len() == (l - 1) * (2 * s.len() + 2 - l),
        forall|a: int, b: int| 0 <= a < b <= s.len() && b - a < l ==> subs_upto(s, l).contains(#[trigger] s.subrange(a, b)),
        forall|k: int| 0 <= k < subs_upto(s, l).len() ==> is_run_below(s, #[trigger] subs_upto(s, l)[k], l),
        forall|i: int, j: int| 0 <= i <= j < subs_upto(s, l).len() ==> (#[trigger] subs_upto(s, l)[i]).len() <= (
        #[trigger] subs_upto(s, l)[j]).len(),
        forall|k: int| 0 <= k < subs_upto(s, l).len() ==> (#[trigger] subs_upto(s, l)[k]).len() < l,
    decreases l,
{
    let n = s.len() as int;
    if l > 1 {
        lemma_subs_upto(s, l - 1);
        let p = subs_upto(s, l - 1);
        let q = subs_of_len(s, l - 1);
        let r = subs_upto(s, l);
        assert(r == p + q);
        assert(q.len() == n - l + 2);
        assert(2 * r.len() == (l - 1) * (2 * n + 2 - l)) by (nonlinear_arith)
            requires
                2 * p.len() == (l - 2) * (2 * n + 3 - l),
                r.len() == p.len() + q.len(),
                q.len() == n - l + 2,
        ;
        assert forall|k: int| 0 <= k < q.len() implies (#[trigger] q[k]).len() == l - 1 by {}
        assert forall|a: int, b: int| 0 <= a < b <= n && b - a < l implies r.contains(#[trigger] s.subrange(a, b)) by {
            if b - a < l - 1 {
                let k = choose|k: int| 0 <= k < p.len() && p[k] == s.subrange(a, b);
                assert(r[k] == p[k]);
            } else {
                assert(q[a] == s.subrange(a, b));
                assert(r[p.len() + a] == q[a]);
            }
        }
        assert forall|k: int| 0 <= k < r.len() implies is_run_below(s, #[trigger] r[k], l) by {
            if k < p.len() {
                assert(r[k] == p[k]);
                assert(is_run_below(s, p[k], l - 1));
                let (a, b) = choose|a: int, b: int| 0 <= a < b <= n && b - a < l - 1 && p[k] == s.subrange(a, b);
                assert(r[k] == s.subrange(a, b));
            } else {
                let st = k - p.len();
                assert(r[k] == q[st]);
                assert(q[st] == s.subrange(st, st + l - 1));
            }
        }
        assert forall|k: int| 0 <= k < r.len() implies (#[trigger] r[k]).len() < l by {
            if k < p.len() {
                assert(r[k] == p[k]);
            } else {
                assert(r[k] == q[k - p.len()]);
            }
        }
        assert forall|i: int, j: int| 0 <= i <= j < r.len() implies (#[trigger] r[i]).len() <= (#[trigger] r[j]).len() by {
            if j < p.len() {
                assert(r[i] == p[i] && r[j] == p[j]);
            } else if i < p.len() {
                assert(r[i] == p[i]);
                assert(r[j] == q[j - p.len()]);
            } else {
                assert(r[i] == q[i - p.len()]);
                assert(r[j] == q[j - p.len()]);
            }
        }
    }
}

proof fn lemma_subs_upto_prefix<A>(s: Seq<A>, l: int, l2: int)
    requires
        1 <= l <= l2,
    ensures
        subs_upto(s, l).len() <= subs_upto(s, l2).len(),
        forall|k: int| 0 <= k < subs_upto(s, l).len() ==> #[trigger] subs_upto(s, l2)[k] == subs_upto(s, l)[k],
    decreases l2 - l,
{
    if l < l2 {
        lemma_subs_upto_prefix(s, l, l2 - 1);
        let p = subs_upto(s, l2 - 1);
        assert(subs_upto(s, l2) == p + subs_of_len(s, l2 - 1));
        assert forall|k: int| 0 <= k < subs_upto(s, l).len() implies #[trigger] subs_upto(s, l2)[k] == subs_upto(s, l)[k] by {
            assert(subs_upto(s, l2)[k] == p[k]);
        }
    }
}

/// Where each part stands: the parts of length `l` come after all the shorter ones (there are
/// `(l - 1) * (2 * n + 2 - l) / 2` of those), in the order of where they start.
pub proof fn lemma_all_subs_order<A>(s: Seq<A>, l: int, a: int)
    requires
        1 <= l < s.len(),
        0 <= a <= s.len() - l,
    ensures
        (l - 1) * (2 * s.len() + 2 - l) / 2 + a < all_subs(s).len(),
        all_subs(s)[(l - 1) * (2 * s.len() + 2 - l) / 2 + a] == s.subrange(a, a + l),
{
    let n = s.len() as int;
    lemma_subs_upto(s, l);
    lemma_subs_upto(s, l + 1);
    lemma_subs_upto_prefix(s, l + 1, n);
    let p = subs_upto(s, l);
    let i = (l - 1) * (2 * n + 2 - l) / 2 + a;
    assert(p.len() == (l - 1) * (2 * n + 2 - l) / 2);
    assert(subs_upto(s, l + 1) == p + subs_of_len(s, l));
    assert(subs_upto(s, l + 1)[i] == subs_of_len(s, l)[a]);
}

/// The proper parts of a non-empty sequence of length `n` are its `n * (n + 1) / 2 - 1` runs
/// of consecutive items other than the whole: every such run is listed, each item listed is
/// such a run, and they come shortest first.
pub proof fn lemma_all_subs<A>(s: Seq<A>)
    requires
        s.len() > 0,
    ensures
        2 * all_subs(s).len() + 2 == s.len() * (s.len() + 1),
        forall|a: int, b: int| 0 <= a < b <= s.len() && b - a < s.len() ==> all_subs(s).contains(#[trigger] s.subrange(a, b)),
        forall|k: int| 0 <= k < all_subs(s).len() ==> is_run_below(s, #[trigger] all_subs(s)[k], s.len() as int),
        forall|i: int, j: int| 0 <= i <= j < all_subs(s).len() ==> (#[trigger] all_subs(s)[i]).len() <= (
        #[trigger] all_subs(s)[j]).len(),
{
    let n = s.len() as int;
    lemma_subs_upto(s, n);
    assert(2 * all_subs(s).len() + 2 == n * (n + 1)) by (nonlinear_arith)
        requires
            2 * all_subs(s).len() == (n - 1) * (2 * n + 2 - n),
    ;
}

/// Every proper part of a sequence.
pub trait AllSubSlice {
    /// The inputs on which `all_sub_slice` can run.
    spec fn sub_slice_ok(&self) -> bool;

    fn all_sub_slice(&self) -> Vec<&Self>
        requires
            self.sub_slice_ok(),
    ;
}

impl<T> AllSubSlice for [T] {
    /// Not empty, and small enough for the size of the result to be computed.
    open spec fn sub_slice_ok(&self) -> bool {
        0 < self@.len() && self@.len() * (self@.len() + 1) <= usize::MAX
    }

    /// Every run of consecutive items but the whole slice, shortest first, then from left to
    /// right.
    fn all_sub_slice(&self) -> (result: Vec<&[T]>)
        ensures
            result@.len() == all_subs(self@).len(),
            forall|k: int| 0 <= k < result@.len() ==> (#[trigger] result@[k])@ == all_subs(self@)[k],
    {
        let len = self.len();
        proof {
            assert(len + 1 <= len * (len + 1) && 2 <= len * (len + 1)) by (nonlinear_arith)
                requires
                    len >= 1,
            ;
        }
        let mut result: Vec<&[T]> = Vec::with_capacity(len * (len + 1) / 2 - 1);
        let mut length: usize = 1;
        while length < len
            invariant
                len == self@.len(),
                1 <= length <= len,
                result@.len() == subs_upto(self@, length as int).len(),
                forall|k: int| 0 <= k < result@.len() ==> (#[trigger] result@[k])@ == subs_upto(self@, length as int)[k],
            decreases len - length,
        {
            let ghost before = result@;
            let mut start: usize = 0;
            while start <= len - length
                invariant
                    len == self@.len(),
                    1 <= length < len,
                    start <= len - length + 1,
                    result@.len() == before.len() + start,
                    forall|k: int| 0 <= k < before.len() ==> (#[trigger] result@[k]) == before[k],
                    forall|k: int| 0 <= k < start ==> (#[trigger] result@[before.len() + k])@ == self@.subrange(k, k + length),
                decreases len - length + 1 - start,
            {
                let end = start + length;
                if length == len {
                    start += 1;
                    continue;
                }
                result.push(vstd::slice::slice_subrange(self, start, end));
                start += 1;
            }
            proof {
                let next = subs_upto(self@, length + 1);
                assert(next == subs_upto(self@, length as int) + subs_of_len(self@, length as int));
                assert forall|k: int| 0 <= k < result@.len() implies (#[trigger] result@[k])@ == next[k] by {
                    if k >= before.len() {
                        assert(result@[before.len() + (k - before.len())] == result@[k]);
                    }
                }
            }
            length += 1;
        }
        result
    }
}

impl AllSubSlice for str {
    open spec fn sub_slice_ok(&self) -> bool {
        self@.len() * (self@.len() + 1) <= usize::MAX
    }

    /// Every run of consecutive characters but the whole string, shortest first, then from
    /// left to right; nothing for the empty string.
    fn all_sub_slice(&self) -> (result: Vec<&str>)
        ensures
            result@.len() == all_subs(self@).len(),
            forall|k: int| 0 <= k < result@.len() ==> (#[trigger] result@[k])@ == all_subs(self@)[k],
    {
        let char_count = self.unicode_len();
        if char_count == 0 {
            return Vec::new();
        }
        proof {
            assert(char_count + 1 <= char_count * (char_count + 1) && 2 <= char_count * (char_count + 1)) by (nonlinear_arith)
                requires
                    char_count >= 1,
            ;
        }
        let mut result: Vec<&str> = Vec::with_capacity(char_count * (char_count + 1) / 2 - 1);
        let mut length: usize = 1;
        while length <= char_count
            invariant
                char_count == self@.len(),
                char_count > 0,
                char_count + 1 <= usize::MAX,
                1 <= length <= char_count + 1,
                result@.len() == subs_upto(self@, if length <= char_count { length as int } else { char_count as int }).len(),
                forall|k: int| 0 <= k < result@.len() ==> (#[trigger] result@[k])@ == subs_upto(self@, if length <= char_count { length as int } else { char_count as int })[k],
            decreases char_count + 1 - length,
        {
            if length == char_count {
                length += 1;
                continue;
            }
            let ghost before = result@;
            let mut start_char: usize = 0;
            while start_char <= char_count - length
                invariant
                    char_count == self@.len(),
                    1 <= length < char_count,
                    start_char <= char_count - length + 1,
                    result@.len() == before.len() + start_char,
                    forall|k: int| 0 <= k < before.len() ==> (#[trigger] result@[k]) == before[k],
                    forall|k: int| 0 <= k < start_char ==> (#[trigger] result@[before.len() + k])@ == self@.subrange(k, k + length),
                decreases char_count - length + 1 - start_char,
            {
                let end_char = start_char + length;
                result.push(self.substring_char(start_char, end_char));
                start_char += 1;
            }
            proof {
                let next = subs_upto(self@, length + 1);
                assert(next == subs_upto(self@, length as int) + subs_of_len(self@, length as int));
                assert forall|k: int| 0 <= k < result@.len() implies (#[trigger] result@[k])@ == next[k] by {
                    if k >= before.len() {
                        assert(result@[before.len() + (k - before.len())] == result@[k]);
                    }
                }
            }
            length += 1;
        }
        result
    }
}

} // verus!
