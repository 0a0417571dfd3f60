//! The table of candidate pairs: for each pair of adjacent morphemes (by its bytes), the spans
//! where it starts.
use vstd::prelude::*;
use crate::byte_str::{ByteStr, bytes_eq};

verus! {

/// The spans (by index) where one pair of morphemes starts, in increasing order.
#[derive(Clone, PartialEq, Eq, Debug)]
pub struct MorphenePairEntry {
    pub suffix_spans_id: Vec<usize>,
}

impl Default for MorphenePairEntry {
    fn default() -> (r: MorphenePairEntry)
        ensures
            r.ids() == Seq::<usize>::empty(),
    {
        MorphenePairEntry { suffix_spans_id: Vec::new() }
    }
}

/// A sequence of indices in strictly increasing order (so without repetition).
pub open spec fn strictly_sorted(s: Seq<usize>) -> bool {
    forall|i: int, j: int| 0 <= i < j < s.len() ==> s[i] < s[j]
}

impl MorphenePairEntry {
    pub open spec fn ids(&self) -> Seq<usize> {
        self.suffix_spans_id@
    }

    pub open spec fn wf(&self) -> bool {
        strictly_sorted(self.ids())
    }

    /// An entry with no span.
    pub fn new() -> (r: MorphenePairEntry)
        ensures
            r.ids() == Seq::<usize>::empty(),
            r.wf(),
    {
        MorphenePairEntry { suffix_spans_id: Vec::new() }
    }

    /// How many spans the pair starts at.
    pub fn nb(&self) -> (r: usize)
        ensures
            r == self.ids().len(),
    {
        self.suffix_spans_id.len()
    }

    /// Adds a span; returns whether it was not there yet.
    pub fn insert(&mut self, id: usize) -> (r: bool)
        requires
            old(self).wf(),
        ensures
            final(self).wf(),
            r == !old(self).ids().contains(id),
            forall|x: usize| #[trigger] final(self).ids().contains(x) <==> (old(self).ids().contains(x) || x == id),
            final(self).ids().len() == old(self).ids().len() + if r { 1int } else { 0int },
    {
        let ghost old_ids = self.ids();
        let n = self.suffix_spans_id.len();
        let mut i: usize = 0;
        while i < n && self.suffix_spans_id[i] < id
            invariant
                n == self.ids().len(),
                self.ids() == old_ids,
                i <= n,
                forall|j: int| 0 <= j < i ==> self.ids()[j] < id,
            decreases n - i,
        {
            i += 1;
        }
        if i < n && self.suffix_spans_id[i] == id {
            return false;
        }
        assert(!old_ids.contains(id)) by {
            if old_ids.contains(id) {
                let j = choose|j: int| 0 <= j < old_ids.len() && old_ids[j] == id;
                if j < i {
                } else {
                    assert(old_ids[i as int] <= old_ids[j]);
                }
            }
        }
        self.suffix_spans_id.insert(i, id);
        assert forall|x: usize| #[trigger] self.ids().contains(x) <==> (old_ids.contains(x) || x == id) by {
            if self.ids().contains(x) {
                let j = choose|j: int| 0 <= j < self.ids().len() && self.ids()[j] == x;
                if j < i {
                    assert(old_ids[j] == x);
                } else if j > i {
                    assert(old_ids[j - 1] == x);
                }
            }
            if old_ids.contains(x) {
                let j = choose|j: int| 0 <= j < old_ids.len() && old_ids[j] == x;
                if j < i {
                    assert(self.ids()[j] == x);
                } else {
                    assert(self.ids()[j + 1] == x);
                }
            }
            if x == id {
                assert(self.ids()[i as int] == x);
            }
        }
        true
    }

    /// Removes a span; returns whether it was there.
    pub fn remove(&mut self, id: usize) -> (r: bool)
        requires
            old(self).wf(),
        ensures
            final(self).wf(),
            r == old(self).ids().contains(id),
            forall|x: usize| #[trigger] final(self).ids().contains(x) <==> (old(self).ids().contains(x) && x != id),
    {
        let ghost old_ids = self.ids();
        let n = self.suffix_spans_id.len();
        let mut i: usize = 0;
        while i < n && self.suffix_spans_id[i] < id
            invariant
                n == self.ids().len(),
                self.ids() == old_ids,
                i <= n,
                forall|j: int| 0 <= j < i ==> self.ids()[j] < id,
            decreases n - i,
        {
            i += 1;
        }
        if i < n && self.suffix_spans_id[i] == id {
            self.suffix_spans_id.remove(i);
            assert forall|x: usize| #[trigger] self.ids().contains(x) <==> (old_ids.contains(x) && x != id) by {
                if self.ids().contains(x) {
                    let j = choose|j: int| 0 <= j < self.ids().len() && self.ids()[j] == x;
                    if j < i {
                        assert(old_ids[j] == x);
                    } else {
                        assert(old_ids[j + 1] == x);
                        assert(old_ids[i as int] < old_ids[j + 1]);
                    }
                }
                if old_ids.contains(x) && x != id {
                    let j = choose|j: int| 0 <= j < old_ids.len() && old_ids[j] == x;
                    if j < i {
                        assert(self.ids()[j] == x);
                    } else {
                        assert(j != i);
                        assert(self.ids()[j - 1] == x);
                    }
                }
            }
            true
        } else {
            assert(!old_ids.contains(id)) by {
                if old_ids.contains(id) {
                    let j = choose|j: int| 0 <= j < old_ids.len() && old_ids[j] == id;
                    if j >= i {
                        assert(old_ids[i as int] <= old_ids[j]);
                    }
                }
            }
            false
        }
    }
}

/// The map that a list of (key, spans) entries stands for.
pub open spec fn table_map(t: Seq<(Seq<u8>, Seq<usize>)>) -> Map<Seq<u8>, Seq<usize>>
    decreases t.len(),
{
    if t.len() == 0 {
        Map::empty()
    } else {
        table_map(t.drop_last()).insert(t.last().0, t.last().1)
    }
}

pub open spec fn distinct_keys(t: Seq<(Seq<u8>, Seq<usize>)>) -> bool {
    forall|i: int, j: int| 0 <= i < t.len() && 0 <= j < t.len() && i != j ==> t[i].0 != t[j].0
}

pub proof fn lemma_table_map(t: Seq<(Seq<u8>, Seq<usize>)>, k: Seq<u8>)
    ensures
        table_map(t).dom().contains(k) <==> exists|i: int| 0 <= i < t.len() && t[i].0 == k,
        forall|i: int| 0 <= i < t.len() && t[i].0 == k && distinct_keys(t) ==> table_map(t)[k] == t[i].1,
    decreases t.len(),
{
    if t.len() > 0 {
        let u = t.drop_last();
        lemma_table_map(u, k);
        assert(distinct_keys(t) ==> distinct_keys(u));
        if table_map(t).dom().contains(k) {
            if t.last().0 != k {
                let i = choose|i: int| 0 <= i < u.len() && u[i].0 == k;
                assert(t[i].0 == k);
            } else {
                assert(t[t.len() - 1].0 == k);
            }
        }
        if exists|i: int| 0 <= i < t.len() && t[i].0 == k {
            let i = choose|i: int| 0 <= i < t.len() && t[i].0 == k;
            if i < t.len() - 1 {
                assert(u[i].0 == k);
            }
        }
    }
}

/// Span `b` is listed under key `k` in the map `m`.
pub open spec fn registered(m: Map<Seq<u8>, Seq<usize>>, k: Seq<u8>, b: usize) -> bool {
    m.dom().contains(k) && m[k].contains(b)
}

/// The table of candidate pairs: distinct keys, each with its entry.
pub struct MorphenePairs<'a> {
    pub entries: Vec<(ByteStr<'a>, MorphenePairEntry)>,
}

impl<'a> MorphenePairs<'a> {
    pub open spec fn entries_view(&self) -> Seq<(Seq<u8>, Seq<usize>)> {
        Seq::new(self.entries@.len(), |i: int| (self.entries@[i].0@, self.entries@[i].1.ids()))
    }

    pub open spec fn view(&self) -> Map<Seq<u8>, Seq<usize>> {
        table_map(self.entries_view())
    }

    pub open spec fn wf(&self) -> bool {
        &&& distinct_keys(self.entries_view())
        &&& forall|i: int| 0 <= i < self.entries@.len() ==> (#[trigger] self.entries@[i]).1.wf()
    }

    /// A table with no entry.
    pub fn new() -> (r: MorphenePairs<'a>)
        ensures
            r.wf(),
            r.view() == Map::<Seq<u8>, Seq<usize>>::empty(),
            r.entries@.len() == 0,
    {
        let r = MorphenePairs { entries: Vec::new() };
        assert(r.entries_view().len() == 0);
        r
    }

    /// Empties the table.
    pub fn clear(&mut self)
        ensures
            final(self).wf(),
            final(self).view() == Map::<Seq<u8>, Seq<usize>>::empty(),
            final(self).entries@.len() == 0,
    {
        self.entries.clear();
        assert(self.entries_view().len() == 0);
    }

    /// Number of keys.
    pub fn len(&self) -> (r: usize)
        ensures
            r == self.entries@.len(),
    {
        self.entries.len()
    }

    /// The position of `key` in the table.
    pub fn find(&self, key: &[u8]) -> (r: Option<usize>)
        requires
            self.wf(),
        ensures
            r is Some <==> self.view().dom().contains(key@),
            r matches Some(i) ==> i < self.entries@.len() && self.entries_view()[i as int].0 == key@,
    {
        proof {
            lemma_table_map(self.entries_view(), key@);
        }
        let n = self.entries.len();
        let mut i: usize = 0;
        while i < n
            invariant
                n == self.entries@.len(),
                i <= n,
                forall|j: int| 0 <= j < i ==> self.entries_view()[j].0 != key@,
            decreases n - i,
        {
            if self.entries[i].0.eq_bytes(key) {
                assert(self.entries_view()[i as int].0 == key@);
                proof {
                    lemma_table_map(self.entries_view(), key@);
                }
                return Some(i);
            }
            i += 1;
        }
        proof {
            lemma_table_map(self.entries_view(), key@);
        }
        None
    }

    /// Takes the entry of `key` out of the table.
    pub fn remove(&mut self, key: &[u8]) -> (r: Option<MorphenePairEntry>)
        requires
            old(self).wf(),
        ensures
            final(self).wf(),
            final(self).view() == old(self).view().remove(key@),
            r is Some <==> old(self).view().dom().contains(key@),
            r matches Some(e) ==> e.wf() && e.ids() == old(self).view()[key@],
    {
        let ghost t = self.entries_view();
        match self.find(key) {
            None => {
                proof {
                    lemma_table_map(t, key@);
                    assert(self.view() =~= old(self).view().remove(key@));
                }
                None
            },
            Some(i) => {
                let (_, e) = self.entries.remove(i);
                proof {
                    let u = self.entries_view();
                    assert(u =~= t.remove(i as int));
                    lemma_table_map(t, key@);
                    let target = old(self).view().remove(key@);
                    assert forall|k: Seq<u8>| self.view().dom().contains(k) <==> #[trigger] target.dom().contains(k) by {
                        lemma_table_map(t, k);
                        lemma_table_map(u, k);
                        if self.view().dom().contains(k) {
                            let j = choose|j: int| 0 <= j < u.len() && u[j].0 == k;
                            if j < i {
                                assert(t[j].0 == k);
                            } else {
                                assert(t[j + 1].0 == k);
                            }
                        }
                        if target.dom().contains(k) {
                            let j = choose|j: int| 0 <= j < t.len() && t[j].0 == k;
                            if j < i {
                                assert(u[j].0 == k);
                            } else {
                                assert(u[j - 1].0 == k);
                            }
                        }
                    }
                    assert(self.view().dom() =~= target.dom());
                    assert forall|k: Seq<u8>| #[trigger] self.view().dom().contains(k) implies self.view()[k] == target[k] by {
                        lemma_table_map(t, k);
                        lemma_table_map(u, k);
                        let j = choose|j: int| 0 <= j < u.len() && u[j].0 == k;
                        if j < i {
                            assert(t[j].0 == k);
                        } else {
                            assert(t[j + 1].0 == k);
                        }
                    }
                    assert(self.view() =~= target);
                    assert(old(self).entries@[i as int].1.wf());
                }
                Some(e)
            },
        }
    }

    /// Removes span `id` from the entry of `key`, if the table has that key.
    pub fn remove_id(&mut self, key: &[u8], id: usize) -> (r: bool)
        requires
            old(self).wf(),
        ensures
            final(self).wf(),
            r == old(self).view().dom().contains(key@),
            final(self).view().dom() == old(self).view().dom(),
            forall|k: Seq<u8>| k != key@ && #[trigger] old(self).view().dom().contains(k) ==> final(self).view()[k] == old(self).view()[k],
            r ==> forall|x: usize| #[trigger] final(self).view()[key@].contains(x) <==> (old(self).view()[key@].contains(x) && x != id),
            forall|k: Seq<u8>, b: usize| #[trigger] registered(final(self).view(), k, b) <==> (registered(old(self).view(), k, b) && !(k == key@ && b == id)),
    {
        let ghost t = self.entries_view();
        match self.find(key) {
            None => {
                false
            },
            Some(i) => {
                let mut e = self.entries[i].1.clone_entry();
                let k = self.entries[i].0;
                assert(self.entries@[i as int].1.wf());
                e.remove(id);
                self.entries.set(i, (k, e));
                proof {
                    let u = self.entries_view();
                    assert(u =~= t.update(i as int, (key@, e.ids())));
                    self.lemma_update_entry(t, i as int, key@, e.ids());
                    lemma_table_map(t, key@);
                }
                true
            },
        }
    }

    /// Adds span `id` to the entry of `key`, making the entry when the key is new.
    pub fn insert_id(&mut self, key: ByteStr<'a>, id: usize)
        requires
            old(self).wf(),
        ensures
            final(self).wf(),
            final(self).view().dom() == old(self).view().dom().insert(key@),
            forall|k: Seq<u8>| k != key@ && #[trigger] old(self).view().dom().contains(k) ==> final(self).view()[k] == old(self).view()[k],
            forall|x: usize| #[trigger] final(self).view()[key@].contains(x) <==> (
                (old(self).view().dom().contains(key@) && old(self).view()[key@].contains(x)) || x == id),
            forall|k: Seq<u8>, b: usize| #[trigger] registered(final(self).view(), k, b) <==> (registered(old(self).view(), k, b) || (k == key@ && b == id)),
            !registered(old(self).view(), key@, id) ==> listing_count(final(self).entries_view()) == listing_count(
                old(self).entries_view(),
            ) + 1,
    {
        let ghost t = self.entries_view();
        match self.find(key.as_bytes()) {
            None => {
                let mut e = MorphenePairEntry::new();
                e.insert(id);
                self.entries.push((key, e));
                proof {
                    let u = self.entries_view();
                    assert(u =~= t.push((key@, e.ids())));
                    assert(u.drop_last() =~= t);
                    assert(e.ids().len() == 1);
                    assert(self.view() == old(self).view().insert(key@, e.ids()));
                    lemma_table_map(t, key@);
                    assert forall|a: int, b: int| 0 <= a < u.len() && 0 <= b < u.len() && a != b implies u[a].0 != u[b].0 by {
                        if a < t.len() && b < t.len() {
                            assert(t[a].0 != t[b].0);
                        }
                    }
                    assert forall|j: int| 0 <= j < self.entries@.len() implies (#[trigger] self.entries@[j]).1.wf() by {
                        if j < t.len() {
                            assert(self.entries@[j] == old(self).entries@[j]);
                        }
                    }
                }
            },
            Some(i) => {
                let mut e = self.entries[i].1.clone_entry();
                assert(self.entries@[i as int].1.wf());
                e.insert(id);
                self.entries.set(i, (key, e));
                proof {
                    let u = self.entries_view();
                    assert(u =~= t.update(i as int, (key@, e.ids())));
                    self.lemma_update_entry(t, i as int, key@, e.ids());
                    lemma_table_map(t, key@);
                    lemma_listing_count_update(t, i as int, (key@, e.ids()));
                }
            },
        }
    }

    proof fn lemma_update_entry(&self, t: Seq<(Seq<u8>, Seq<usize>)>, i: int, k0: Seq<u8>, v: Seq<usize>)
        requires
            distinct_keys(t),
            0 <= i < t.len(),
            t[i].0 == k0,
            self.entries_view() == t.update(i, (k0, v)),
            forall|j: int| 0 <= j < self.entries@.len() && j != i ==> (#[trigger] self.entries@[j]).1.wf(),
            0 <= i < self.entries@.len(),
            self.entries@[i].1.wf(),
        ensures
            self.wf(),
            self.view() == table_map(t).insert(k0, v),
    {
        let u = self.entries_view();
        assert forall|a: int, b: int| 0 <= a < u.len() && 0 <= b < u.len() && a != b implies u[a].0 != u[b].0 by {
            assert(t[a].0 != t[b].0);
        }
        assert forall|j: int| 0 <= j < self.entries@.len() implies (#[trigger] self.entries@[j]).1.wf() by {
            if j != i {
            }
        }
        let target = table_map(t).insert(k0, v);
        assert forall|k: Seq<u8>| self.view().dom().contains(k) <==> #[trigger] target.dom().contains(k) by {
            lemma_table_map(t, k);
            lemma_table_map(u, k);
            if self.view().dom().contains(k) {
                let j = choose|j: int| 0 <= j < u.len() && u[j].0 == k;
                assert(t[j].0 == k);
            }
            if table_map(t).dom().contains(k) {
                let j = choose|j: int| 0 <= j < t.len() && t[j].0 == k;
                assert(u[j].0 == k);
            }
            if k == k0 {
                assert(u[i].0 == k);
            }
        }
        assert(self.view().dom() =~= target.dom());
        assert forall|k: Seq<u8>| #[trigger] self.view().dom().contains(k) implies self.view()[k] == target[k] by {
            lemma_table_map(t, k);
            lemma_table_map(u, k);
            let j = choose|j: int| 0 <= j < u.len() && u[j].0 == k;
            assert(t[j].0 == k);
        }
        assert(self.view() =~= table_map(t).insert(k0, v));
    }
}

impl MorphenePairEntry {
    /// A copy of the entry.
    pub fn clone_entry(&self) -> (r: MorphenePairEntry)
        ensures
            r.ids() == self.ids(),
    {
        MorphenePairEntry { suffix_spans_id: self.suffix_spans_id.clone() }
    }
}


/// Two strictly increasing sequences with the same elements are equal.
proof fn lemma_sorted_same_elements(a: Seq<usize>, b: Seq<usize>)
    requires
        strictly_sorted(a),
        strictly_sorted(b),
        forall|v: usize| a.contains(v) <==> b.contains(v),
    ensures
        a == b,
    decreases a.len(),
{
    if a.len() == 0 {
        if b.len() > 0 {
            assert(b.contains(b[0]));
        }
        assert(a =~= b);
    } else {
        assert(a.contains(a[0]));
        assert(b.len() > 0);
        assert(b.contains(b[0]));
        let i = choose|i: int| 0 <= i < b.len() && b[i] == a[0];
        let j = choose|j: int| 0 <= j < a.len() && a[j] == b[0];
        assert(a[0] == b[0]) by {
            if i > 0 {
                assert(b[0] < b[i]);
            }
            if j > 0 {
                assert(a[0] < a[j]);
            }
        }
        let a2 = a.subrange(1, a.len() as int);
        let b2 = b.subrange(1, b.len() as int);
        assert forall|v: usize| a2.contains(v) <==> b2.contains(v) by {
            if a2.contains(v) {
                let k = choose|k: int| 0 <= k < a2.len() && a2[k] == v;
                assert(a[k + 1] == v && a[0] < v);
                assert(b.contains(v));
                let l = choose|l: int| 0 <= l < b.len() && b[l] == v;
                assert(l != 0);
                assert(b2[l - 1] == v);
            }
            if b2.contains(v) {
                let k = choose|k: int| 0 <= k < b2.len() && b2[k] == v;
                assert(b[k + 1] == v && b[0] < v);
                assert(a.contains(v));
                let l = choose|l: int| 0 <= l < a.len() && a[l] == v;
                assert(l != 0);
                assert(a2[l - 1] == v);
            }
        }
        lemma_sorted_same_elements(a2, b2);
        assert(a =~= b) by {
            assert forall|n: int| 0 <= n < a.len() implies a[n] == b[n] by {
                if n > 0 {
                    assert(a[n] == a2[n - 1]);
                    assert(b[n] == b2[n - 1]);
                }
            }
        }
    }
}

impl<'a> MorphenePairs<'a> {
    /// The spans of each key of a well-formed table are in increasing order.
    pub proof fn lemma_entries_sorted(&self, k: Seq<u8>)
        requires
            self.wf(),
            self.view().dom().contains(k),
        ensures
            strictly_sorted(self.view()[k]),
    {
        let t = self.entries_view();
        lemma_table_map(t, k);
        let i = choose|i: int| 0 <= i < t.len() && t[i].0 == k;
        assert(self.entries@[i].1.wf());
    }

    /// A table whose every key lists at least one span is fixed by which spans it lists under
    /// which bytes: two such tables that list the same spans under the same bytes are equal.
    pub proof fn lemma_same_listing(&self, other: &MorphenePairs<'a>)
        requires
            self.wf(),
            other.wf(),
            forall|k: Seq<u8>, b: usize| #[trigger] registered(self.view(), k, b) <==> registered(other.view(), k, b),
            forall|k: Seq<u8>| #[trigger] self.view().dom().contains(k) ==> self.view()[k].len() > 0,
            forall|k: Seq<u8>| #[trigger] other.view().dom().contains(k) ==> other.view()[k].len() > 0,
        ensures
            self.view() == other.view(),
    {
        assert forall|k: Seq<u8>| #[trigger] self.view().dom().contains(k) implies strictly_sorted(self.view()[k]) by {
            self.lemma_entries_sorted(k);
        }
        assert forall|k: Seq<u8>| #[trigger] other.view().dom().contains(k) implies strictly_sorted(other.view()[k]) by {
            other.lemma_entries_sorted(k);
        }
        lemma_same_listing_maps(self.view(), other.view());
    }
}

/// A map whose every key lists at least one span, in increasing order, is fixed by which spans
/// it lists under which bytes.
pub proof fn lemma_same_listing_maps(m1: Map<Seq<u8>, Seq<usize>>, m2: Map<Seq<u8>, Seq<usize>>)
    requires
        forall|k: Seq<u8>, b: usize| #[trigger] registered(m1, k, b) <==> registered(m2, k, b),
        forall|k: Seq<u8>| #[trigger] m1.dom().contains(k) ==> m1[k].len() > 0 && strictly_sorted(m1[k]),
        forall|k: Seq<u8>| #[trigger] m2.dom().contains(k) ==> m2[k].len() > 0 && strictly_sorted(m2[k]),
    ensures
        m1 == m2,
{
    assert forall|k: Seq<u8>| m1.dom().contains(k) <==> m2.dom().contains(k) by {
        if m1.dom().contains(k) {
            assert(m1[k].len() > 0);
            assert(m1[k].contains(m1[k][0]));
            assert(registered(m1, k, m1[k][0]));
            assert(registered(m2, k, m1[k][0]));
        }
        if m2.dom().contains(k) {
            assert(m2[k].len() > 0);
            assert(m2[k].contains(m2[k][0]));
            assert(registered(m2, k, m2[k][0]));
            assert(registered(m1, k, m2[k][0]));
        }
    }
    assert forall|k: Seq<u8>| m1.dom().contains(k) implies m1[k] == m2[k] by {
        assert forall|v: usize| m1[k].contains(v) <==> m2[k].contains(v) by {
            assert(registered(m1, k, v) <==> registered(m2, k, v));
        }
        lemma_sorted_same_elements(m1[k], m2[k]);
    }
    assert(m1 =~= m2);
}

/// How many (bytes, span) listings the entries hold: their numbers of spans, added up.
pub open spec fn listing_count(t: Seq<(Seq<u8>, Seq<usize>)>) -> nat
    decreases t.len(),
{
    if t.len() == 0 {
        0
    } else {
        listing_count(t.drop_last()) + t.last().1.len()
    }
}

proof fn lemma_listing_count_update(t: Seq<(Seq<u8>, Seq<usize>)>, i: int, v: (Seq<u8>, Seq<usize>))
    requires
        0 <= i < t.len(),
    ensures
        listing_count(t.update(i, v)) + t[i].1.len() == listing_count(t) + v.1.len(),
    decreases t.len(),
{
    if i < t.len() - 1 {
        lemma_listing_count_update(t.drop_last(), i, v);
        assert(t.update(i, v).drop_last() =~= t.drop_last().update(i, v));
    } else {
        assert(t.update(i, v).drop_last() =~= t.drop_last());
    }
}

} // verus!
