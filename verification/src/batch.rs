//! The instance batcher.
//!
//! Each frame a pipeline scans its renderable entities into a flat list of
//! `(batch key, packed record)` items and hands it to `rebatch`, which
//! reconciles the table of live instance buffers against it: a key seen for
//! the first time gets a fresh buffer sized to its records, a surviving key
//! is rewritten in place while its records still fit the buffer's capacity
//! and reallocated when they no longer do, and a key that vanished has its
//! buffer dropped. The returned plan lists exactly which keys were created,
//! resized, updated in place and removed, so the device-side mirror can
//! replay the same actions.

use vstd::prelude::*;

use crate::keymap::KeyMap;

verus! {

/// One live instance buffer: the packed records it currently holds and the
/// record capacity it was last allocated with.
pub struct Slot<R> {
    pub records: Vec<R>,
    pub capacity: usize,
}

/// What one `rebatch` run did, key by key.
pub struct BatchPlan {
    pub created: Vec<u64>,
    pub resized: Vec<u64>,
    pub updated: Vec<u64>,
    pub removed: Vec<u64>,
}

/// The table of live instance buffers of one pipeline, keyed by batch key.
pub struct Batcher<R> {
    pub slots: KeyMap<Slot<R>>,
}

/// Whether some item carries batch key `k`.
pub open spec fn has_key<R>(items: Seq<(u64, R)>, k: u64) -> bool {
    exists|j: int| 0 <= j < items.len() && (#[trigger] items[j]).0 == k
}

/// The records carried by the items with batch key `k`, in item order.
pub open spec fn recs_for<R>(items: Seq<(u64, R)>, k: u64) -> Seq<R>
    decreases items.len(),
{
    if items.len() == 0 {
        Seq::empty()
    } else {
        let rest = recs_for(items.drop_last(), k);
        if items.last().0 == k {
            rest.push(items.last().1)
        } else {
            rest
        }
    }
}

/// Appending one item extends exactly its own key's record list.
pub proof fn lemma_recs_for_push<R>(items: Seq<(u64, R)>, x: (u64, R), k: u64)
    ensures
        recs_for(items.push(x), k) == if x.0 == k {
            recs_for(items, k).push(x.1)
        } else {
            recs_for(items, k)
        },
{
    assert(items.push(x).drop_last() =~= items);
}

impl<R> Batcher<R> {
    /// The live keys and their buffers, in insertion order.
    pub open spec fn view(self) -> Seq<(u64, Slot<R>)> {
        self.slots@
    }

    pub open spec fn wf(self) -> bool {
        self.slots.wf()
    }

    /// Whether a buffer for key `k` is live.
    pub open spec fn live(self, k: u64) -> bool {
        self.slots.spec_contains(k)
    }

    /// The records held for live key `k`.
    pub open spec fn spec_records(self, k: u64) -> Seq<R> {
        self.slots.spec_get(k).records@
    }

    /// The record capacity allocated for live key `k`.
    pub open spec fn spec_cap(self, k: u64) -> int {
        self.slots.spec_get(k).capacity as int
    }
}

/// What one `rebatch` run guarantees: the table afterwards holds exactly
/// the keys of the items, each with its records in item order; a buffer's
/// capacity is kept while the records fit and grown to the record count
/// otherwise; and the plan lists each kind of action exactly once per key
/// it applies to.
pub open spec fn rebatch_post<R>(
    pre: Batcher<R>,
    items: Seq<(u64, R)>,
    post: Batcher<R>,
    plan: BatchPlan,
) -> bool {
    &&& post.wf()
    &&& forall|k: u64| #[trigger] post.live(k) <==> has_key(items, k)
    &&& forall|k: u64| #[trigger] has_key(items, k) ==> post.spec_records(k) == recs_for(items, k)
    &&& forall|k: u64|
        #[trigger] has_key(items, k) ==> post.spec_cap(k) == if pre.live(k) && recs_for(items, k).len()
            <= pre.spec_cap(k) {
            pre.spec_cap(k)
        } else {
            recs_for(items, k).len() as int
        }
    &&& plan.created@.no_duplicates()
    &&& plan.resized@.no_duplicates()
    &&& plan.updated@.no_duplicates()
    &&& plan.removed@.no_duplicates()
    &&& forall|k: u64|
        #[trigger] plan.created@.contains(k) <==> (has_key(items, k) && !pre.live(k))
    &&& forall|k: u64|
        #[trigger] plan.resized@.contains(k) <==> (has_key(items, k) && pre.live(k) && recs_for(
            items,
            k,
        ).len() > pre.spec_cap(k))
    &&& forall|k: u64|
        #[trigger] plan.updated@.contains(k) <==> (has_key(items, k) && pre.live(k) && recs_for(
            items,
            k,
        ).len() <= pre.spec_cap(k))
    &&& forall|k: u64|
        #[trigger] plan.removed@.contains(k) <==> (pre.live(k) && !has_key(items, k))
}

/// Running the batcher twice over an unchanged item list creates, resizes
/// and destroys nothing the second time: every surviving buffer is updated
/// in place.
pub proof fn lemma_rebatch_idempotent<R>(
    s0: Batcher<R>,
    items: Seq<(u64, R)>,
    s1: Batcher<R>,
    p1: BatchPlan,
    s2: Batcher<R>,
    p2: BatchPlan,
)
    requires
        rebatch_post(s0, items, s1, p1),
        rebatch_post(s1, items, s2, p2),
    ensures
        p2.created@.len() == 0,
        p2.resized@.len() == 0,
        p2.removed@.len() == 0,
        forall|k: u64| #[trigger] has_key(items, k) ==> p2.updated@.contains(k),
{
    if p2.created@.len() > 0 {
        assert(p2.created@.contains(p2.created@[0]));
    }
    if p2.resized@.len() > 0 {
        assert(p2.resized@.contains(p2.resized@[0]));
    }
    if p2.removed@.len() > 0 {
        assert(p2.removed@.contains(p2.removed@[0]));
    }
}

/// Eviction: a key whose last item disappeared has no buffer afterwards,
/// and the plan records its removal.
pub proof fn lemma_eviction<R>(
    s0: Batcher<R>,
    items: Seq<(u64, R)>,
    s1: Batcher<R>,
    p1: BatchPlan,
    k: u64,
)
    requires
        rebatch_post(s0, items, s1, p1),
        s0.live(k),
        !has_key(items, k),
    ensures
        !s1.live(k),
        p1.removed@.contains(k),
{
}

/// Copy a record list element by element.
fn copy_recs<R: Copy>(src: &Vec<R>) -> (r: Vec<R>)
    ensures
        r@ == src@,
{
    let mut r: Vec<R> = Vec::new();
    let mut i: usize = 0;
    while i < src.len()
        invariant
            i <= src@.len(),
            r@ =~= src@.subrange(0, i as int),
        decreases src@.len() - i,
    {
        r.push(src[i]);
        i += 1;
        proof {
            assert(r@ =~= src@.subrange(0, i as int));
        }
    }
    proof {
        assert(r@ =~= src@);
    }
    r
}

impl<R: Copy> Batcher<R> {
    pub fn new() -> (r: Batcher<R>)
        ensures
            r.wf(),
            r@ =~= Seq::<(u64, Slot<R>)>::empty(),
    {
        Batcher { slots: KeyMap::new() }
    }

    /// Reconcile the buffer table against this frame's items; see
    /// `rebatch_post` for the full guarantee.
    #[verifier::loop_isolation(false)]
    #[verifier::rlimit(100)]
    pub fn rebatch(&mut self, items: &Vec<(u64, R)>) -> (plan: BatchPlan)
        requires
            old(self).wf(),
        ensures
            rebatch_post(*old(self), items@, *final(self), plan),
    {
        let ni = items.len();

        // Group the items by key, keeping item order within each key.
        let mut groups: KeyMap<Vec<R>> = KeyMap::new();
        let mut i: usize = 0;
        while i < ni
            invariant
                i <= ni,
                groups.wf(),
                forall|k: u64|
                    #[trigger] groups.spec_contains(k) <==> has_key(
                        items@.subrange(0, i as int),
                        k,
                    ),
                forall|k: u64|
                    #[trigger] groups.spec_contains(k) ==> groups.spec_get(k)@ == recs_for(
                        items@.subrange(0, i as int),
                        k,
                    ),
            decreases ni - i,
        {
            let key = items[i].0;
            let rec = items[i].1;
            let ghost g0 = groups;
            let ghost prefix = items@.subrange(0, i as int);
            groups.push_at(key, rec);
            i += 1;
            proof {
                let prefix1 = items@.subrange(0, i as int);
                assert(prefix1 =~= prefix.push((key, rec)));
                assert forall|k: u64| #[trigger] groups.spec_contains(k) <==> has_key(
                    prefix1,
                    k,
                ) by {
                    lemma_recs_for_push(prefix, (key, rec), k);
                    if k == key {
                        assert(prefix1[prefix.len() as int].0 == k);
                        assert(has_key(prefix1, k));
                    } else {
                        if has_key(prefix1, k) {
                            let j = choose|j: int|
                                0 <= j < prefix1.len() && (#[trigger] prefix1[j]).0 == k;
                            assert(prefix[j].0 == k);
                        }
                        if has_key(prefix, k) {
                            let j = choose|j: int|
                                0 <= j < prefix.len() && (#[trigger] prefix[j]).0 == k;
                            assert(prefix1[j].0 == k);
                        }
                    }
                }
                assert forall|k: u64| #[trigger] groups.spec_contains(k) implies groups.spec_get(
                    k,
                )@ == recs_for(prefix1, k) by {
                    lemma_recs_for_push(prefix, (key, rec), k);
                    if k == key {
                        if g0.spec_contains(key) {
                            let w = g0.index_of(key);
                            groups.lemma_index_unique(key, w);
                        } else {
                            groups.lemma_index_unique(key, groups@.len() - 1);
                            assert(recs_for(prefix, k) =~= Seq::<R>::empty()) by {
                                if recs_for(prefix, k).len() > 0 {
                                    lemma_recs_nonempty_has_key(prefix, k);
                                }
                            }
                            assert(groups.spec_get(k)@ =~= recs_for(prefix, k).push(rec));
                        }
                    } else {
                        let w = choose|w: int|
                            0 <= w < g0@.len() && (#[trigger] g0@[w]).0 == k;
                        g0.lemma_index_unique(k, w);
                        if g0.spec_contains(key) {
                            assert(groups@[w] == g0@[w]);
                        } else {
                            assert(groups@.subrange(0, g0@.len() as int)[w] == groups@[w]);
                        }
                        groups.lemma_index_unique(k, w);
                    }
                }
            }
        }
        proof {
            assert(items@.subrange(0, ni as int) =~= items@);
        }

        // Snapshot the previously live keys.
        let mut prev: Vec<u64> = Vec::new();
        let nslots = self.slots.len();
        let mut i: usize = 0;
        while i < nslots
            invariant
                i <= nslots,
                prev@.len() == i,
                forall|j: int| 0 <= j < i ==> (#[trigger] prev@[j]) == self@[j].0,
            decreases nslots - i,
        {
            prev.push(self.slots.entry_at(i).0);
            i += 1;
        }
        proof {
            assert forall|k: u64| prev@.contains(k) implies old(self).live(k) by {
                let j = choose|j: int| 0 <= j < prev@.len() && prev@[j] == k;
                assert(self@[j].0 == k);
            }
            assert forall|k: u64| #[trigger] old(self).live(k) implies prev@.contains(k) by {
                let j = choose|j: int| 0 <= j < self@.len() && (#[trigger] self@[j]).0 == k;
                assert(prev@[j] == k);
            }
            assert(prev@.no_duplicates());
        }

        // Apply the new groups: create, resize or update in place.
        let mut created: Vec<u64> = Vec::new();
        let mut resized: Vec<u64> = Vec::new();
        let mut updated: Vec<u64> = Vec::new();
        let ng = groups.len();
        let mut gi: usize = 0;
        while gi < ng
            invariant
                gi <= ng,
                ng == groups@.len(),
                self.wf(),
                groups.wf(),
                forall|k: u64|
                    #[trigger] groups.spec_contains(k) <==> has_key(items@, k),
                forall|k: u64|
                    #[trigger] groups.spec_contains(k) ==> groups.spec_get(k)@ == recs_for(
                        items@,
                        k,
                    ),
                created@.no_duplicates(),
                resized@.no_duplicates(),
                updated@.no_duplicates(),
                forall|k: u64|
                    #[trigger] created@.contains(k) <==> ((exists|j: int|
                        0 <= j < gi && (#[trigger] groups@[j]).0 == k) && !old(self).live(k)),
                forall|k: u64|
                    #[trigger] resized@.contains(k) <==> ((exists|j: int|
                        0 <= j < gi && (#[trigger] groups@[j]).0 == k) && old(self).live(k)
                        && recs_for(items@, k).len() > old(self).spec_cap(k)),
                forall|k: u64|
                    #[trigger] updated@.contains(k) <==> ((exists|j: int|
                        0 <= j < gi && (#[trigger] groups@[j]).0 == k) && old(self).live(k)
                        && recs_for(items@, k).len() <= old(self).spec_cap(k)),
                forall|k: u64|
                    #[trigger] self.live(k) <==> (old(self).live(k) || (exists|j: int|
                        0 <= j < gi && (#[trigger] groups@[j]).0 == k)),
                forall|k: u64|
                    ((exists|j: int| 0 <= j < gi && (#[trigger] groups@[j]).0 == k))
                        ==> self.live(k) && (#[trigger] self.spec_records(k)) == recs_for(
                        items@,
                        k,
                    ) && self.spec_cap(k) == (if old(self).live(k) && recs_for(items@, k).len()
                        <= old(self).spec_cap(k) {
                        old(self).spec_cap(k)
                    } else {
                        recs_for(items@, k).len() as int
                    }),
                forall|k: u64|
                    !((exists|j: int| 0 <= j < gi && (#[trigger] groups@[j]).0 == k)) && old(
                        self,
                    ).live(k) ==> self.live(k) && (#[trigger] self.spec_records(k)) == old(
                        self,
                    ).spec_records(k) && self.spec_cap(k) == old(self).spec_cap(k),
            decreases ng - gi,
        {
            let gentry = groups.entry_at(gi);
            let k = gentry.0;
            let recs = copy_recs(&gentry.1);
            let nrecs = recs.len();
            proof {
                groups.lemma_index_unique(k, gi as int);
                assert(groups.spec_contains(k));
                assert(recs@ == recs_for(items@, k));
            }
            let ghost sprev = *self;
            let ghost cin = created@;
            let ghost zin = resized@;
            let ghost uin = updated@;
            match self.slots.find(k) {
                Some(_) => {
                    let cap = self.slots.get(k).unwrap().capacity;
                    if nrecs <= cap {
                        self.slots.set(k, Slot { records: recs, capacity: cap });
                        updated.push(k);
                    } else {
                        self.slots.set(k, Slot { records: recs, capacity: nrecs });
                        resized.push(k);
                    }
                },
                None => {
                    self.slots.set(k, Slot { records: recs, capacity: nrecs });
                    created.push(k);
                },
            }
            gi += 1;
            proof {
                let g0 = gi - 1;
                assert(groups@[g0 as int].0 == k);
                assert(!cin.contains(k) && !zin.contains(k) && !uin.contains(k)) by {
                    if exists|j: int| 0 <= j < g0 && (#[trigger] groups@[j]).0 == k {
                        let j = choose|j: int| 0 <= j < g0 && (#[trigger] groups@[j]).0 == k;
                        assert(groups@[j].0 == groups@[g0 as int].0);
                        assert(false);
                    }
                }
                assert(created@.no_duplicates() && resized@.no_duplicates()
                    && updated@.no_duplicates()) by {
                    assert forall|p: int, q: int|
                        0 <= p < q < created@.len() implies created@[p] != created@[q] by {
                        if q < cin.len() {
                            assert(cin[p] != cin[q]);
                        } else {
                            assert(created@[q] == k);
                            assert(cin.contains(cin[p]));
                        }
                    }
                    assert forall|p: int, q: int|
                        0 <= p < q < resized@.len() implies resized@[p] != resized@[q] by {
                        if q < zin.len() {
                            assert(zin[p] != zin[q]);
                        } else {
                            assert(resized@[q] == k);
                            assert(zin.contains(zin[p]));
                        }
                    }
                    assert forall|p: int, q: int|
                        0 <= p < q < updated@.len() implies updated@[p] != updated@[q] by {
                        if q < uin.len() {
                            assert(uin[p] != uin[q]);
                        } else {
                            assert(updated@[q] == k);
                            assert(uin.contains(uin[p]));
                        }
                    }
                }
                assert forall|kk: u64| #[trigger] self.live(kk) <==> (sprev.live(kk) || kk
                    == k) by {
                }
                assert forall|kk: u64|
                    kk != k && sprev.live(kk) implies #[trigger] self.live(kk)
                        && self.spec_records(kk) == sprev.spec_records(kk) && self.spec_cap(kk)
                        == sprev.spec_cap(kk) by {
                    let w = choose|w: int| 0 <= w < sprev@.len() && (#[trigger] sprev@[w]).0 == kk;
                    sprev.slots.lemma_index_unique(kk, w);
                    if sprev.live(k) {
                        assert(self@[w] == sprev@[w]);
                    } else {
                        assert(self@.subrange(0, sprev@.len() as int)[w] == self@[w]);
                    }
                    self.slots.lemma_index_unique(kk, w);
                }
                assert(sprev.live(k) ==> sprev.spec_records(k) == old(self).spec_records(k)
                    && sprev.spec_cap(k) == old(self).spec_cap(k) && old(self).live(k)) by {
                    if sprev.live(k) {
                        if exists|j: int| 0 <= j < g0 && (#[trigger] groups@[j]).0 == k {
                            let j = choose|j: int|
                                0 <= j < g0 && (#[trigger] groups@[j]).0 == k;
                            assert(groups@[j].0 == groups@[g0 as int].0);
                            assert(false);
                        }
                        let r = sprev.spec_records(k);
                        let c = sprev.spec_cap(k);
                        assert(sprev.live(k) && r == old(self).spec_records(k) && c == old(
                            self,
                        ).spec_cap(k) && old(self).live(k));
                    }
                }
                assert(!sprev.live(k) ==> !old(self).live(k));
                assert(self.live(k) && self.spec_records(k) == recs_for(items@, k)
                    && self.spec_cap(k) == (if old(self).live(k) && recs_for(items@, k).len()
                    <= old(self).spec_cap(k) {
                    old(self).spec_cap(k)
                } else {
                    recs_for(items@, k).len() as int
                })) by {
                    if sprev.live(k) {
                        let w = sprev.slots.index_of(k);
                        self.slots.lemma_index_unique(k, w);
                    } else {
                        self.slots.lemma_index_unique(k, self@.len() - 1);
                    }
                }
                assert forall|kk: u64|
                    (exists|j: int| 0 <= j < gi && (#[trigger] groups@[j]).0 == kk) implies #[trigger] self.live(
                    kk,
                ) && self.spec_records(kk) == recs_for(items@, kk) && self.spec_cap(kk) == (
                if old(self).live(kk) && recs_for(items@, kk).len() <= old(self).spec_cap(kk) {
                    old(self).spec_cap(kk)
                } else {
                    recs_for(items@, kk).len() as int
                }) by {
                    let j = choose|j: int| 0 <= j < gi && (#[trigger] groups@[j]).0 == kk;
                    if j == g0 {
                    } else {
                        assert(kk != k) by {
                            if kk == k {
                                assert(groups@[j].0 == groups@[g0 as int].0);
                            }
                        }
                        assert(exists|jj: int| 0 <= jj < g0 && (#[trigger] groups@[jj]).0 == kk);
                        assert(sprev.spec_records(kk) == recs_for(items@, kk));
                        assert(sprev.live(kk));
                        assert(self.live(kk));
                        assert(self.spec_records(kk) == sprev.spec_records(kk));
                    }
                }
                assert(sprev.live(k) <==> old(self).live(k));
                assert forall|kk: u64| #[trigger] created@.contains(kk) <==> ((exists|j: int|
                    0 <= j < gi && (#[trigger] groups@[j]).0 == kk) && !old(self).live(kk)) by {
                    if created@.contains(kk) {
                        let idx = choose|idx: int|
                            0 <= idx < created@.len() && created@[idx] == kk;
                        if idx < cin.len() {
                            assert(cin[idx] == kk);
                            assert(cin.contains(kk));
                            let j = choose|j: int|
                                0 <= j < g0 && (#[trigger] groups@[j]).0 == kk;
                            assert(0 <= j < gi && groups@[j].0 == kk);
                        } else {
                            assert(created@[idx] == k);
                            assert(0 <= g0 < gi && groups@[g0 as int].0 == kk);
                        }
                    }
                    if (exists|j: int| 0 <= j < gi && (#[trigger] groups@[j]).0 == kk) && !old(
                        self,
                    ).live(kk) {
                        let j = choose|j: int|
                            0 <= j < gi && (#[trigger] groups@[j]).0 == kk;
                        if j == g0 {
                            assert(created@[created@.len() - 1] == kk);
                        } else {
                            assert(cin.contains(kk));
                            let idx = choose|idx: int| 0 <= idx < cin.len() && cin[idx] == kk;
                            assert(created@[idx] == kk);
                        }
                    }
                }
                assert forall|kk: u64| #[trigger] resized@.contains(kk) <==> ((exists|j: int|
                    0 <= j < gi && (#[trigger] groups@[j]).0 == kk) && old(self).live(kk)
                    && recs_for(items@, kk).len() > old(self).spec_cap(kk)) by {
                    if resized@.contains(kk) {
                        let idx = choose|idx: int|
                            0 <= idx < resized@.len() && resized@[idx] == kk;
                        if idx < zin.len() {
                            assert(zin[idx] == kk);
                            assert(zin.contains(kk));
                            let j = choose|j: int|
                                0 <= j < g0 && (#[trigger] groups@[j]).0 == kk;
                            assert(0 <= j < gi && groups@[j].0 == kk);
                        } else {
                            assert(resized@[idx] == k);
                            assert(0 <= g0 < gi && groups@[g0 as int].0 == kk);
                        }
                    }
                    if (exists|j: int| 0 <= j < gi && (#[trigger] groups@[j]).0 == kk) && old(
                        self,
                    ).live(kk) && recs_for(items@, kk).len() > old(self).spec_cap(kk) {
                        let j = choose|j: int|
                            0 <= j < gi && (#[trigger] groups@[j]).0 == kk;
                        if j == g0 {
                            assert(resized@[resized@.len() - 1] == kk);
                        } else {
                            assert(zin.contains(kk));
                            let idx = choose|idx: int| 0 <= idx < zin.len() && zin[idx] == kk;
                            assert(resized@[idx] == kk);
                        }
                    }
                }
                assert forall|kk: u64| #[trigger] updated@.contains(kk) <==> ((exists|j: int|
                    0 <= j < gi && (#[trigger] groups@[j]).0 == kk) && old(self).live(kk)
                    && recs_for(items@, kk).len() <= old(self).spec_cap(kk)) by {
                    if updated@.contains(kk) {
                        let idx = choose|idx: int|
                            0 <= idx < updated@.len() && updated@[idx] == kk;
                        if idx < uin.len() {
                            assert(uin[idx] == kk);
                            assert(uin.contains(kk));
                            let j = choose|j: int|
                                0 <= j < g0 && (#[trigger] groups@[j]).0 == kk;
                            assert(0 <= j < gi && groups@[j].0 == kk);
                        } else {
                            assert(updated@[idx] == k);
                            assert(0 <= g0 < gi && groups@[g0 as int].0 == kk);
                        }
                    }
                    if (exists|j: int| 0 <= j < gi && (#[trigger] groups@[j]).0 == kk) && old(
                        self,
                    ).live(kk) && recs_for(items@, kk).len() <= old(self).spec_cap(kk) {
                        let j = choose|j: int|
                            0 <= j < gi && (#[trigger] groups@[j]).0 == kk;
                        if j == g0 {
                            assert(updated@[updated@.len() - 1] == kk);
                        } else {
                            assert(uin.contains(kk));
                            let idx = choose|idx: int| 0 <= idx < uin.len() && uin[idx] == kk;
                            assert(updated@[idx] == kk);
                        }
                    }
                }
                assert forall|kk: u64|
                    !((exists|j: int| 0 <= j < gi && (#[trigger] groups@[j]).0 == kk)) && old(
                        self,
                    ).live(kk) implies self.live(kk) && (#[trigger] self.spec_records(kk)) == old(
                    self,
                ).spec_records(kk) && self.spec_cap(kk) == old(self).spec_cap(kk) by {
                    assert(kk != k) by {
                        if kk == k {
                            assert(0 <= g0 < gi && groups@[g0 as int].0 == kk);
                        }
                    }
                    assert(!(exists|j: int| 0 <= j < g0 && (#[trigger] groups@[j]).0 == kk)) by {
                        if exists|j: int| 0 <= j < g0 && (#[trigger] groups@[j]).0 == kk {
                            let j = choose|j: int|
                                0 <= j < g0 && (#[trigger] groups@[j]).0 == kk;
                            assert(0 <= j < gi && groups@[j].0 == kk);
                        }
                    }
                    assert(sprev.live(kk));
                    assert(sprev.spec_records(kk) == old(self).spec_records(kk));
                    assert(self.live(kk));
                    assert(self.spec_records(kk) == sprev.spec_records(kk));
                }
            }
        }

        proof {
            assert forall|k: u64| #[trigger] has_key(items@, k) implies (exists|j: int|
                0 <= j < ng && (#[trigger] groups@[j]).0 == k) by {
                assert(groups.spec_contains(k));
                let j = choose|j: int| 0 <= j < groups@.len() && (#[trigger] groups@[j]).0 == k;
                assert(0 <= j < ng && groups@[j].0 == k);
            }
            assert forall|k: u64|
                (exists|j: int| 0 <= j < ng && (#[trigger] groups@[j]).0 == k) implies #[trigger] has_key(
                items@,
                k,
            ) by {
                let j = choose|j: int| 0 <= j < ng && (#[trigger] groups@[j]).0 == k;
                assert(groups.spec_contains(k));
            }
        }

        proof {
            assert forall|k: u64|
                self.live(k) && #[trigger] has_key(items@, k) implies self.spec_records(k)
                    == recs_for(items@, k) && self.spec_cap(k) == (if old(self).live(k)
                    && recs_for(items@, k).len() <= old(self).spec_cap(k) {
                    old(self).spec_cap(k)
                } else {
                    recs_for(items@, k).len() as int
                }) by {
                assert(exists|j: int| 0 <= j < ng && (#[trigger] groups@[j]).0 == k);
            }
        }

        // Drop the buffers of keys that vanished.
        let mut removed: Vec<u64> = Vec::new();
        let np = prev.len();
        let mut pi: usize = 0;
        while pi < np
            invariant
                pi <= np,
                self.wf(),
                removed@.no_duplicates(),
                forall|k: u64|
                    #[trigger] removed@.contains(k) <==> ((exists|j: int|
                        0 <= j < pi && prev@[j] == k) && !has_key(items@, k)),
                forall|k: u64|
                    #[trigger] self.live(k) <==> ((old(self).live(k) || has_key(items@, k))
                        && !((exists|j: int| 0 <= j < pi && prev@[j] == k) && !has_key(
                        items@,
                        k,
                    ))),
                forall|k: u64|
                    self.live(k) && #[trigger] has_key(items@, k) ==> self.spec_records(k)
                        == recs_for(items@, k) && self.spec_cap(k) == (if old(self).live(k)
                        && recs_for(items@, k).len() <= old(self).spec_cap(k) {
                        old(self).spec_cap(k)
                    } else {
                        recs_for(items@, k).len() as int
                    }),
            decreases np - pi,
        {
            let k = prev[pi];
            let ghost sprev = *self;
            let ghost rin = removed@;
            proof {
                if exists|j: int| 0 <= j < pi && prev@[j] == k {
                    let j = choose|j: int| 0 <= j < pi && prev@[j] == k;
                    assert(prev@[j] == prev@[pi as int]);
                    assert(false);
                }
            }
            if !member_in_groups(&groups, k) {
                proof {
                    assert(!has_key(items@, k));
                    assert(sprev.live(k));
                    if removed@.contains(k) {
                        assert(exists|j: int| 0 <= j < pi && prev@[j] == k);
                        assert(false);
                    }
                }
                let ghost removed0 = removed@;
                self.slots.remove(k);
                removed.push(k);
                proof {
                    assert forall|p: int, q: int|
                        0 <= p < q < removed@.len() implies removed@[p] != removed@[q] by {
                        if q < removed@.len() - 1 {
                            assert(removed0[p] != removed0[q]);
                        } else {
                            assert(removed0.contains(removed0[p]));
                        }
                    }
                    assert(removed@.no_duplicates());
                    assert forall|kk: u64| #[trigger] self.live(kk) <==> (sprev.live(kk) && kk
                        != k) by {
                        if sprev.slots.spec_contains(k) {
                            let w = sprev.slots.index_of(k);
                            if self.live(kk) {
                                let m = choose|m: int|
                                    0 <= m < self@.len() && (#[trigger] self@[m]).0 == kk;
                                let mm = if m < w {
                                    m
                                } else {
                                    m + 1
                                };
                                assert(sprev@[mm].0 == kk);
                                if kk == k {
                                    sprev.slots.lemma_index_unique(k, mm);
                                }
                            }
                            if sprev.live(kk) && kk != k {
                                let m = choose|m: int|
                                    0 <= m < sprev@.len() && (#[trigger] sprev@[m]).0 == kk;
                                sprev.slots.lemma_index_unique(kk, m);
                                sprev.slots.lemma_index_unique(k, w);
                                if m < w {
                                    assert(self@[m].0 == kk);
                                } else {
                                    assert(self@[m - 1].0 == kk);
                                }
                            }
                        }
                    }
                    assert forall|kk: u64|
                        self.live(kk) && #[trigger] has_key(items@, kk) implies self.spec_records(
                        kk,
                    ) == recs_for(items@, kk) && self.spec_cap(kk) == (if old(self).live(kk)
                        && recs_for(items@, kk).len() <= old(self).spec_cap(kk) {
                        old(self).spec_cap(kk)
                    } else {
                        recs_for(items@, kk).len() as int
                    }) by {
                        if !self.live(kk) {
                            assert(false) by { assert(self.live(kk)); }
                        }
                        let w = sprev.slots.index_of(k);
                        let m = choose|m: int|
                            0 <= m < self@.len() && (#[trigger] self@[m]).0 == kk;
                        let mm = if m < w {
                            m
                        } else {
                            m + 1
                        };
                        assert(sprev@[mm] == self@[m]);
                        sprev.slots.lemma_index_unique(kk, mm);
                        self.slots.lemma_index_unique(kk, m);
                        assert(sprev.live(kk));
                        assert(sprev.spec_records(kk) == recs_for(items@, kk));
                        assert(self.spec_records(kk) == sprev.spec_records(kk));
                        assert(self.spec_cap(kk) == sprev.spec_cap(kk));
                    }
                }
            } else {
                proof {
                    assert(groups.spec_contains(k));
                    assert(has_key(items@, k));
                    assert forall|kk: u64|
                        self.live(kk) && #[trigger] has_key(items@, kk) implies self.spec_records(
                        kk,
                    ) == recs_for(items@, kk) && self.spec_cap(kk) == (if old(self).live(kk)
                        && recs_for(items@, kk).len() <= old(self).spec_cap(kk) {
                        old(self).spec_cap(kk)
                    } else {
                        recs_for(items@, kk).len() as int
                    }) by {
                        assert(sprev.live(kk) && has_key(items@, kk));
                        assert(sprev.spec_records(kk) == recs_for(items@, kk));
                    }
                }
            }
            pi += 1;
            proof {
                let p0 = pi - 1;
                assert forall|kk: u64| #[trigger] removed@.contains(kk) <==> ((exists|j: int|
                    0 <= j < pi && prev@[j] == kk) && !has_key(items@, kk)) by {
                    if removed@.contains(kk) {
                        if kk == k {
                            assert(0 <= p0 < pi && prev@[p0] == kk);
                            let idx = choose|idx: int|
                                0 <= idx < removed@.len() && removed@[idx] == kk;
                            if idx < rin.len() {
                                assert(rin[idx] == kk);
                                assert(rin.contains(kk));
                                assert(false);
                            }
                        } else {
                            assert(rin.contains(kk)) by {
                                let idx = choose|idx: int|
                                    0 <= idx < removed@.len() && removed@[idx] == kk;
                                if idx < rin.len() {
                                    assert(rin[idx] == kk);
                                } else {
                                    assert(removed@[idx] == k);
                                    assert(false);
                                }
                            }
                            let j = choose|j: int| 0 <= j < p0 && prev@[j] == kk;
                            assert(0 <= j < pi && prev@[j] == kk);
                        }
                    }
                    if (exists|j: int| 0 <= j < pi && prev@[j] == kk) && !has_key(items@, kk) {
                        let j = choose|j: int| 0 <= j < pi && prev@[j] == kk;
                        if j == p0 {
                            assert(kk == k);
                            assert(removed@[removed@.len() - 1] == k);
                        } else {
                            assert(exists|jj: int| 0 <= jj < p0 && prev@[jj] == kk);
                            assert(rin.contains(kk));
                            let idx = choose|idx: int|
                                0 <= idx < rin.len() && rin[idx] == kk;
                            assert(removed@[idx] == kk);
                        }
                    }
                }
            }
        }

        proof {
            assert forall|k: u64| #[trigger] self.live(k) <==> has_key(items@, k) by {
                if self.live(k) && !has_key(items@, k) {
                    assert(old(self).live(k));
                    assert(prev@.contains(k));
                    let j = choose|j: int| 0 <= j < prev@.len() && prev@[j] == k;
                    assert((exists|jj: int| 0 <= jj < np && prev@[jj] == k));
                }
            }
            assert forall|k: u64| #[trigger] has_key(items@, k) implies self.spec_records(k)
                == recs_for(items@, k) && self.spec_cap(k) == (if old(self).live(k) && recs_for(
                items@,
                k,
            ).len() <= old(self).spec_cap(k) {
                old(self).spec_cap(k)
            } else {
                recs_for(items@, k).len() as int
            }) by {
                assert(self.live(k));
            }
        }
        BatchPlan { created, resized, updated, removed }
    }

    /// One draw entry per live buffer, in table order: the batch key and
    /// the instance count to draw it with.
    pub fn draw_list(&self) -> (r: Vec<(u64, usize)>)
        requires
            self.wf(),
        ensures
            r@.len() == self@.len(),
            forall|j: int|
                0 <= j < r@.len() ==> (#[trigger] r@[j]) == (
                    self@[j].0,
                    self@[j].1.records@.len() as usize,
                ),
    {
        let mut r: Vec<(u64, usize)> = Vec::new();
        let n = self.slots.len();
        let mut i: usize = 0;
        while i < n
            invariant
                i <= n,
                n == self@.len(),
                r@.len() == i,
                forall|j: int|
                    0 <= j < i ==> (#[trigger] r@[j]) == (
                        self@[j].0,
                        self@[j].1.records@.len() as usize,
                    ),
            decreases n - i,
        {
            let entry = self.slots.entry_at(i);
            r.push((entry.0, entry.1.records.len()));
            i += 1;
        }
        r
    }
}

/// A record list for a key nobody carries is empty.
proof fn lemma_recs_nonempty_has_key<R>(items: Seq<(u64, R)>, k: u64)
    requires
        recs_for(items, k).len() > 0,
    ensures
        has_key(items, k),
    decreases items.len(),
{
    if items.len() > 0 {
        if items.last().0 == k {
            assert(items[items.len() - 1].0 == k);
        } else {
            lemma_recs_nonempty_has_key(items.drop_last(), k);
            let j = choose|j: int|
                0 <= j < items.drop_last().len() && (#[trigger] items.drop_last()[j]).0 == k;
            assert(items[j].0 == k);
        }
    }
}

/// Membership test against the grouped keys.
fn member_in_groups<R>(groups: &KeyMap<Vec<R>>, k: u64) -> (r: bool)
    requires
        groups.wf(),
    ensures
        r == groups.spec_contains(k),
{
    groups.contains(k)
}

} // verus!
