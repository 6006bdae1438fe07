//! An association container keyed by `u64` identifiers.
//!
//! Batch keys, resource identities and entity identifiers are all plain
//! integers, so one small verified container serves every cache in the
//! engine: instance-buffer tables, mesh and texture storage, and the
//! per-entity UI resource table. Entries keep insertion order, which gives
//! every per-frame walk over a cache a stable order.

use vstd::prelude::*;

verus! {

/// An insertion-ordered map from `u64` keys to values, with unique keys.
pub struct KeyMap<V> {
    entries: Vec<(u64, V)>,
}

impl<V> KeyMap<V> {
    /// The entries in insertion order.
    pub closed spec fn view(self) -> Seq<(u64, V)> {
        self.entries@
    }

    /// The keys in insertion order.
    pub open spec fn spec_keys(self) -> Seq<u64> {
        Seq::new(self@.len(), |i: int| self@[i].0)
    }

    /// No key occurs twice.
    pub open spec fn wf(self) -> bool {
        forall|i: int, j: int|
            0 <= i < j < self@.len() ==> (#[trigger] self@[i]).0 != (#[trigger] self@[j]).0
    }

    /// Whether some entry has key `k`.
    pub open spec fn spec_contains(self, k: u64) -> bool {
        exists|i: int| 0 <= i < self@.len() && (#[trigger] self@[i]).0 == k
    }

    /// The value stored at key `k` (meaningful only when `spec_contains(k)`).
    pub open spec fn spec_get(self, k: u64) -> V {
        self@[self.index_of(k)].1
    }

    /// The index of the entry with key `k` (meaningful only when present).
    pub open spec fn index_of(self, k: u64) -> int {
        choose|i: int| 0 <= i < self@.len() && (#[trigger] self@[i]).0 == k
    }

    pub fn new() -> (r: KeyMap<V>)
        ensures
            r@ =~= Seq::<(u64, V)>::empty(),
            r.wf(),
    {
        KeyMap { entries: Vec::new() }
    }

    pub fn len(&self) -> (n: usize)
        ensures
            n == self@.len(),
    {
        self.entries.len()
    }

    /// Read the entry at position `i` in insertion order.
    pub fn entry_at(&self, i: usize) -> (r: &(u64, V))
        requires
            i < self@.len(),
        ensures
            *r == self@[i as int],
    {
        &self.entries[i]
    }

    /// Linear scan for the position of key `k`.
    pub fn find(&self, k: u64) -> (r: Option<usize>)
        requires
            self.wf(),
        ensures
            match r {
                Some(i) => i < self@.len() && self@[i as int].0 == k && self.spec_contains(k)
                    && i == self.index_of(k),
                None => !self.spec_contains(k),
            },
    {
        let mut i: usize = 0;
        while i < self.entries.len()
            invariant
                i <= self@.len(),
                self.wf(),
                forall|j: int| 0 <= j < i ==> (#[trigger] self@[j]).0 != k,
            decreases self@.len() - i,
        {
            if self.entries[i].0 == k {
                proof {
                    assert(self@[i as int].0 == k);
                    let w = self.index_of(k);
                    assert(self@[w].0 == k);
                    if w != i as int {
                        if w < i as int {
                            assert(self@[w].0 != k);
                        } else {
                            assert(self@[i as int].0 != self@[w].0);
                        }
                        assert(false);
                    }
                }
                return Some(i);
            }
            i += 1;
        }
        None
    }

    pub fn contains(&self, k: u64) -> (r: bool)
        requires
            self.wf(),
        ensures
            r == self.spec_contains(k),
    {
        self.find(k).is_some()
    }

    /// Borrow the value stored at `k`, if any.
    pub fn get(&self, k: u64) -> (r: Option<&V>)
        requires
            self.wf(),
        ensures
            match r {
                Some(v) => self.spec_contains(k) && *v == self.spec_get(k),
                None => !self.spec_contains(k),
            },
    {
        match self.find(k) {
            Some(i) => Some(&self.entries[i].1),
            None => None,
        }
    }

    /// Insert a fresh key at the end, or overwrite the value of a present key.
    pub fn set(&mut self, k: u64, v: V)
        requires
            old(self).wf(),
        ensures
            final(self).wf(),
            old(self).spec_contains(k) ==> final(self)@ =~= old(self)@.update(
                old(self).index_of(k),
                (k, v),
            ),
            !old(self).spec_contains(k) ==> final(self)@ =~= old(self)@.push((k, v)),
            forall|x: u64|
                #[trigger] final(self).spec_contains(x) <==> (x == k || old(self).spec_contains(
                    x,
                )),
    {
        match self.find(k) {
            Some(i) => {
                self.entries[i] = (k, v);
                proof {
                    let u = old(self)@.update(i as int, (k, v));
                    assert(self@ =~= u);
                    assert forall|p: int, q: int|
                        0 <= p < q < u.len() implies (#[trigger] u[p]).0 != (#[trigger] u[q]).0 by {
                        assert((old(self)@[p]).0 != (old(self)@[q]).0);
                        assert(old(self)@[i as int].0 == k);
                    }
                }
            },
            None => {
                self.entries.push((k, v));
                proof {
                    let u = old(self)@.push((k, v));
                    assert(self@ =~= u);
                    assert forall|p: int, q: int|
                        0 <= p < q < u.len() implies (#[trigger] u[p]).0 != (#[trigger] u[q]).0 by {
                        if q < u.len() - 1 {
                            assert((old(self)@[p]).0 != (old(self)@[q]).0);
                        } else {
                            assert(!old(self).spec_contains(k));
                            assert((old(self)@[p]).0 != k);
                        }
                    }
                }
            },
        }
        proof {
            assert forall|x: u64|
                #[trigger] self.spec_contains(x) <==> (x == k || old(self).spec_contains(x)) by {
                if self.spec_contains(x) {
                    let ii = choose|ii: int|
                        0 <= ii < self@.len() && (#[trigger] self@[ii]).0 == x;
                    if old(self).spec_contains(k) {
                        if ii != old(self).index_of(k) {
                            assert(old(self)@[ii].0 == x);
                        }
                    } else {
                        if ii < self@.len() - 1 {
                            assert(old(self)@[ii].0 == x);
                        }
                    }
                }
                if x == k {
                    if old(self).spec_contains(k) {
                        assert(self@[old(self).index_of(k)].0 == k);
                    } else {
                        assert(self@[self@.len() - 1].0 == k);
                    }
                } else if old(self).spec_contains(x) {
                    let jj = choose|jj: int|
                        0 <= jj < old(self)@.len() && (#[trigger] old(self)@[jj]).0 == x;
                    assert(self@[jj].0 == x);
                }
            }
        }
    }

    /// With unique keys, any index holding key `k` is the index of `k`.
    pub proof fn lemma_index_unique(self, k: u64, i: int)
        requires
            self.wf(),
            0 <= i < self@.len(),
            self@[i].0 == k,
        ensures
            self.spec_contains(k),
            i == self.index_of(k),
    {
        assert(self.spec_contains(k));
        let w = self.index_of(k);
        if w != i {
            if w < i {
                assert(self@[w].0 != self@[i].0);
            } else {
                assert(self@[i].0 != self@[w].0);
            }
        }
    }

    /// Drop every entry whose key is not in `used`, keeping the order and
    /// values of the others.
    pub fn retain_keys(&mut self, used: &Vec<u64>)
        requires
            old(self).wf(),
        ensures
            final(self).wf(),
            forall|k: u64|
                #[trigger] final(self).spec_contains(k) <==> (old(self).spec_contains(k)
                    && used@.contains(k)),
            forall|k: u64|
                #[trigger] final(self).spec_contains(k) ==> final(self).spec_get(k) == old(
                    self,
                ).spec_get(k),
    {
        let mut i: usize = 0;
        while i < self.entries.len()
            invariant
                i <= self@.len(),
                self.wf(),
                forall|m: int| 0 <= m < i ==> used@.contains((#[trigger] self@[m]).0),
                forall|k: u64|
                    #[trigger] self.spec_contains(k) ==> old(self).spec_contains(k)
                        && self.spec_get(k) == old(self).spec_get(k),
                forall|k: u64|
                    old(self).spec_contains(k) && used@.contains(k)
                        ==> #[trigger] self.spec_contains(k),
                forall|k: u64|
                    old(self).spec_contains(k) && !used@.contains(k) && #[trigger] self.spec_contains(
                        k,
                    ) ==> exists|m: int| i <= m < self@.len() && (#[trigger] self@[m]).0 == k,
            decreases self@.len() - i,
        {
            let ghost prev = *self;
            let key = self.entries[i].0;
            if member_u64(used, key) {
                i += 1;
                proof {
                    assert forall|k: u64|
                        old(self).spec_contains(k) && !used@.contains(k)
                            && #[trigger] self.spec_contains(k) implies exists|m: int|
                        i <= m < self@.len() && (#[trigger] self@[m]).0 == k by {
                        let m = choose|m: int|
                            i - 1 <= m < self@.len() && (#[trigger] self@[m]).0 == k;
                        assert(k != key);
                        assert(i <= m < self@.len() && self@[m].0 == k);
                    }
                }
            } else {
                self.entries.remove(i);
                proof {
                    assert(self@ =~= prev@.remove(i as int));
                    assert forall|p: int, q: int|
                        0 <= p < q < self@.len() implies (#[trigger] self@[p]).0 != (
                        #[trigger] self@[q]).0 by {
                        let pp = if p < i { p } else { p + 1 };
                        let qq = if q < i { q } else { q + 1 };
                        assert((prev@[pp]).0 != (prev@[qq]).0);
                    }
                    assert forall|k: u64| #[trigger] self.spec_contains(k) implies prev.spec_contains(
                        k,
                    ) && self.spec_get(k) == prev.spec_get(k) by {
                        let m = choose|m: int| 0 <= m < self@.len() && (#[trigger] self@[m]).0 == k;
                        let mm = if m < i { m } else { m + 1 };
                        assert(prev@[mm].0 == k);
                        prev.lemma_index_unique(k, mm);
                        self.lemma_index_unique(k, m);
                    }
                    assert forall|k: u64|
                        prev.spec_contains(k) && used@.contains(k) implies #[trigger] self.spec_contains(
                        k,
                    ) by {
                        let m = choose|m: int| 0 <= m < prev@.len() && (#[trigger] prev@[m]).0 == k;
                        assert(k != key) by {
                            prev.lemma_index_unique(key, i as int);
                            if k == key {
                                assert(m == i);
                            }
                        }
                        if m < i {
                            assert(self@[m].0 == k);
                        } else {
                            assert(self@[m - 1].0 == k);
                        }
                    }
                    assert forall|k: u64|
                        old(self).spec_contains(k) && !used@.contains(k)
                            && #[trigger] self.spec_contains(k) implies exists|m: int|
                        i <= m < self@.len() && (#[trigger] self@[m]).0 == k by {
                        assert(prev.spec_contains(k));
                        let m = choose|m: int|
                            i <= m < prev@.len() && (#[trigger] prev@[m]).0 == k;
                        assert(k != key) by {
                            prev.lemma_index_unique(key, i as int);
                            prev.lemma_index_unique(k, m);
                        }
                        assert(m > i);
                        assert(self@[m - 1].0 == k);
                    }
                }
            }
        }
    }

    /// Remove the entry with key `k`, keeping the order of the others.
    pub fn remove(&mut self, k: u64)
        requires
            old(self).wf(),
        ensures
            final(self).wf(),
            old(self).spec_contains(k) ==> final(self)@ =~= old(self)@.remove(
                old(self).index_of(k),
            ),
            !old(self).spec_contains(k) ==> final(self)@ =~= old(self)@,
    {
        match self.find(k) {
            Some(i) => {
                self.entries.remove(i);
            },
            None => {},
        }
    }
}

impl<T> KeyMap<Vec<T>> {
    /// Append `x` to the list stored at `k`, starting a new list for a
    /// fresh key.
    pub fn push_at(&mut self, k: u64, x: T)
        requires
            old(self).wf(),
        ensures
            final(self).wf(),
            old(self).spec_contains(k) ==> {
                &&& final(self)@.len() == old(self)@.len()
                &&& forall|j: int|
                    0 <= j < old(self)@.len() && j != old(self).index_of(k)
                        ==> final(self)@[j] == old(self)@[j]
                &&& final(self)@[old(self).index_of(k)].0 == k
                &&& final(self)@[old(self).index_of(k)].1@ == old(self).spec_get(k)@.push(x)
            },
            !old(self).spec_contains(k) ==> {
                &&& final(self)@.len() == old(self)@.len() + 1
                &&& final(self)@.subrange(0, old(self)@.len() as int) =~= old(self)@
                &&& final(self)@.last().0 == k
                &&& final(self)@.last().1@ =~= seq![x]
            },
            forall|y: u64|
                #[trigger] final(self).spec_contains(y) <==> (y == k || old(self).spec_contains(
                    y,
                )),
    {
        match self.find(k) {
            Some(i) => {
                let mut pair = self.entries.remove(i);
                pair.1.push(x);
                self.entries.insert(i, pair);
                proof {
                    assert(self@ =~= old(self)@.update(i as int, self@[i as int]));
                    assert(self@[i as int].0 == k);
                    assert forall|p: int, q: int|
                        0 <= p < q < self@.len() implies (#[trigger] self@[p]).0 != (
                        #[trigger] self@[q]).0 by {
                        assert((old(self)@[p]).0 != (old(self)@[q]).0);
                        assert(old(self)@[i as int].0 == k);
                    }
                }
            },
            None => {
                let mut l: Vec<T> = Vec::new();
                l.push(x);
                self.entries.push((k, l));
                proof {
                    let u = old(self)@.push(self@.last());
                    assert(self@ =~= u);
                    assert(self@.subrange(0, old(self)@.len() as int) =~= old(self)@);
                    assert forall|p: int, q: int|
                        0 <= p < q < self@.len() implies (#[trigger] self@[p]).0 != (
                        #[trigger] self@[q]).0 by {
                        if q < self@.len() - 1 {
                            assert((old(self)@[p]).0 != (old(self)@[q]).0);
                        } else {
                            assert(!old(self).spec_contains(k));
                            assert((old(self)@[p]).0 != k);
                        }
                    }
                }
            },
        }
        proof {
            assert forall|x: u64|
                #[trigger] self.spec_contains(x) <==> (x == k || old(self).spec_contains(x)) by {
                if self.spec_contains(x) {
                    let ii = choose|ii: int|
                        0 <= ii < self@.len() && (#[trigger] self@[ii]).0 == x;
                    if old(self).spec_contains(k) {
                        if ii != old(self).index_of(k) {
                            assert(old(self)@[ii].0 == x);
                        }
                    } else {
                        if ii < self@.len() - 1 {
                            assert(old(self)@[ii].0 == x);
                        }
                    }
                }
                if x == k {
                    if old(self).spec_contains(k) {
                        assert(self@[old(self).index_of(k)].0 == k);
                    } else {
                        assert(self@[self@.len() - 1].0 == k);
                    }
                } else if old(self).spec_contains(x) {
                    let jj = choose|jj: int|
                        0 <= jj < old(self)@.len() && (#[trigger] old(self)@[jj]).0 == x;
                    assert(self@[jj].0 == x);
                }
            }
        }
    }
}

/// Linear membership test on a plain key list.
pub fn member_u64(v: &Vec<u64>, k: u64) -> (r: bool)
    ensures
        r == v@.contains(k),
{
    let mut i: usize = 0;
    while i < v.len()
        invariant
            i <= v@.len(),
            forall|j: int| 0 <= j < i ==> v@[j] != k,
        decreases v@.len() - i,
    {
        if v[i] == k {
            return true;
        }
        i += 1;
    }
    false
}

} // verus!
