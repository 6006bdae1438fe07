//! The 3D model pipeline.
//!
//! Each frame it scans every entity holding a world pose and a model, and
//! packs one instance record per mesh-texture part of that model: the
//! pose's homogeneous matrix, the model's color, the normal matrix derived
//! from the pose's rotation alone, and the model's scale. Records are
//! batched under a composite key combining the part's mesh and texture
//! identities. The pipeline also keeps mesh and texture storage tables
//! pruned to exactly the identities referenced this frame.

use vstd::prelude::*;

use crate::batch::{rebatch_post, BatchPlan, Batcher, Slot};
use crate::keymap::{member_u64, KeyMap};
use crate::mathx::{matrix_of, normal_matrix, normal_of, to_matrix};
use crate::registry::{read_models, w_globals, w_models};

verus! {

/// One packed model instance: homogeneous matrix (16 words), color (4
/// words), normal matrix (9 words) and scale (3 words).
#[derive(Clone, Copy)]
pub struct ModelRec {
    pub transform: [u32; 16],
    pub color: [u32; 4],
    pub normal: [u32; 9],
    pub scale: [u32; 3],
}

impl View for ModelRec {
    type V = Seq<u32>;

    open spec fn view(&self) -> Seq<u32> {
        self.transform@ + self.color@ + self.normal@ + self.scale@
    }
}

/// The composite batch key of a mesh-texture part: the mesh identity in
/// the upper half, the texture identity in the lower.
pub open spec fn spec_part_key(mt: (int, int)) -> int {
    mt.0 * 0x1_0000_0000 + mt.1
}

/// Pack a part's mesh and texture identities into one batch key.
pub fn part_key(mesh: u32, texture: u32) -> (k: u64)
    ensures
        k as int == spec_part_key((mesh as int, texture as int)),
{
    let k = ((mesh as u64) << 32u64) | (texture as u64);
    proof {
        assert(((mesh as u64) << 32u64) | (texture as u64) == mesh as u64 * 0x1_0000_0000 + (
        texture as u64)) by (bit_vector);
    }
    k
}

/// Distinct parts get distinct batch keys.
pub proof fn lemma_part_key_injective(a: (int, int), b: (int, int))
    requires
        0 <= a.0 < 0x1_0000_0000,
        0 <= a.1 < 0x1_0000_0000,
        0 <= b.0 < 0x1_0000_0000,
        0 <= b.1 < 0x1_0000_0000,
        spec_part_key(a) == spec_part_key(b),
    ensures
        a == b,
{
    assert(a.0 == b.0) by (nonlinear_arith)
        requires
            0 <= a.1 < 0x1_0000_0000,
            0 <= b.1 < 0x1_0000_0000,
            a.0 * 0x1_0000_0000 + a.1 == b.0 * 0x1_0000_0000 + b.1,
    ;
}

/// The words of the record packed for a model entity: its world pose `g`
/// and its model view's color and scale words `cs`.
pub open spec fn model_rec_words(g: Seq<u32>, cs: Seq<u32>) -> Seq<u32> {
    matrix_of(g) + cs.subrange(0, 4) + normal_of(g) + cs.subrange(4, 7)
}

/// An enumeration of the model parts of `w`: `eps` lists each pair of an
/// entity holding both a world pose and a model, and a part index of that
/// model, exactly once; `items[j]` packs the part `eps[j]`.
pub open spec fn model_items_ok(
    w: hecs::World,
    eps: Seq<(int, int)>,
    items: Seq<(u64, ModelRec)>,
) -> bool {
    &&& eps.no_duplicates()
    &&& items.len() == eps.len()
    &&& forall|j: int|
        0 <= j < eps.len() ==> {
            &&& w_globals(w).contains_key((#[trigger] eps[j]).0)
            &&& w_models(w).contains_key(eps[j].0)
            &&& 0 <= eps[j].1 < w_models(w)[eps[j].0].0.len()
            &&& items[j].1@ == model_rec_words(w_globals(w)[eps[j].0], w_models(w)[eps[j].0].1)
        }
    &&& forall|j: int|
        0 <= j < items.len() ==> (#[trigger] items[j]).0 as int == spec_part_key(
            w_models(w)[eps[j].0].0[eps[j].1],
        )
    &&& forall|e: int, p: int|
        w_globals(w).contains_key(e) && w_models(w).contains_key(e) && 0 <= p
            < w_models(w)[e].0.len() ==> #[trigger] eps.contains((e, p))
}

/// Whether some current model part references mesh identity `m`.
pub open spec fn mesh_used(w: hecs::World, m: int) -> bool {
    exists|e: int, p: int|
        #[trigger] w_globals(w).contains_key(e) && w_models(w).contains_key(e) && 0 <= p
            < w_models(w)[e].0.len() && (#[trigger] w_models(w)[e].0[p]).0 == m
}

/// Whether some current model part references texture identity `t`.
pub open spec fn texture_used(w: hecs::World, t: int) -> bool {
    exists|e: int, p: int|
        #[trigger] w_globals(w).contains_key(e) && w_models(w).contains_key(e) && 0 <= p
            < w_models(w)[e].0.len() && (#[trigger] w_models(w)[e].0[p]).1 == t
}

/// The model pipeline: instance buffers keyed by composite part key, and
/// the mesh and texture storage tables.
pub struct ModelRenderer {
    pub batches: Batcher<ModelRec>,
    pub mesh_storage: KeyMap<()>,
    pub texture_storage: KeyMap<()>,
}

impl ModelRenderer {
    pub open spec fn wf(self) -> bool {
        &&& self.batches.wf()
        &&& self.mesh_storage.wf()
        &&& self.texture_storage.wf()
    }

    pub fn new() -> (r: ModelRenderer)
        ensures
            r.wf(),
            r.batches@ =~= Seq::<(u64, Slot<ModelRec>)>::empty(),
            r.mesh_storage@ =~= Seq::<(u64, ())>::empty(),
            r.texture_storage@ =~= Seq::<(u64, ())>::empty(),
    {
        ModelRenderer {
            batches: Batcher::new(),
            mesh_storage: KeyMap::new(),
            texture_storage: KeyMap::new(),
        }
    }

    /// Rebuild the part-keyed instance buffers from the current model
    /// entities, prune both storage tables to the identities still
    /// referenced, and report what changed.
    #[verifier::loop_isolation(false)]
    #[verifier::rlimit(50)]
    pub fn prep(&mut self, w: &hecs::World) -> (plan: BatchPlan)
        requires
            old(self).wf(),
        ensures
            final(self).wf(),
            exists|eps: Seq<(int, int)>, items: Seq<(u64, ModelRec)>|
                model_items_ok(*w, eps, items) && rebatch_post(
                    old(self).batches,
                    items,
                    #[trigger] final(self).batches,
                    plan,
                ),
            forall|m: u64|
                #[trigger] final(self).mesh_storage.spec_contains(m) <==> mesh_used(*w, m as int),
            forall|t: u64|
                #[trigger] final(self).texture_storage.spec_contains(t) <==> texture_used(
                    *w,
                    t as int,
                ),
    {
        let found = read_models(w);
        let n = found.len();
        let mut items: Vec<(u64, ModelRec)> = Vec::new();
        let ghost mut eps: Seq<(int, int)> = Seq::empty();
        let ghost mut fidx: Seq<int> = Seq::empty();
        let mut used_m: Vec<u64> = Vec::new();
        let mut used_t: Vec<u64> = Vec::new();
        let mut i: usize = 0;
        while i < n
            invariant
                i <= n,
                self.wf(),
                self.batches == old(self).batches,
                eps.len() == items@.len(),
                fidx.len() == eps.len(),
                forall|j: int|
                    0 <= j < fidx.len() ==> 0 <= #[trigger] fidx[j] < i && found@[fidx[j]].0 as int
                        == eps[j].0,
                forall|a: int, b: int| 0 <= a < b < fidx.len() ==> #[trigger] fidx[a] <= #[trigger] fidx[b],
                forall|a: int, b: int|
                    0 <= a < b < fidx.len() && #[trigger] fidx[a] == #[trigger] fidx[b]
                        ==> eps[a].1 < eps[b].1,
                forall|j: int|
                    0 <= j < eps.len() ==> {
                        &&& w_globals(*w).contains_key((#[trigger] eps[j]).0)
                        &&& w_models(*w).contains_key(eps[j].0)
                        &&& 0 <= eps[j].1 < w_models(*w)[eps[j].0].0.len()
                        &&& items@[j].1@ == model_rec_words(
                            w_globals(*w)[eps[j].0],
                            w_models(*w)[eps[j].0].1,
                        )
                    },
                forall|j: int|
                    0 <= j < items@.len() ==> (#[trigger] items@[j]).0 as int == spec_part_key(
                        w_models(*w)[eps[j].0].0[eps[j].1],
                    ),
                forall|ii: int, p: int|
                    0 <= ii < i && 0 <= p < w_models(*w)[found@[ii].0 as int].0.len()
                        ==> #[trigger] eps.contains((found@[ii].0 as int, p)),
                forall|m: u64|
                    #[trigger] used_m@.contains(m) <==> exists|j: int|
                        0 <= j < eps.len() && (#[trigger] w_models(*w)[eps[j].0].0[eps[j].1]).0
                            == m as int,
                forall|t: u64|
                    #[trigger] used_t@.contains(t) <==> exists|j: int|
                        0 <= j < eps.len() && (#[trigger] w_models(*w)[eps[j].0].0[eps[j].1]).1
                            == t as int,
                forall|m: u64|
                    #[trigger] self.mesh_storage.spec_contains(m) <==> (old(
                        self,
                    ).mesh_storage.spec_contains(m) || used_m@.contains(m)),
                forall|t: u64|
                    #[trigger] self.texture_storage.spec_contains(t) <==> (old(
                        self,
                    ).texture_storage.spec_contains(t) || used_t@.contains(t)),
            decreases n - i,
        {
            let e = found[i].0;
            let m4 = to_matrix(&found[i].1);
            let n3 = normal_matrix(&found[i].1);
            let model = &found[i].2;
            let rec = ModelRec {
                transform: m4.w,
                color: model.color,
                normal: n3.w,
                scale: model.scale,
            };
            proof {
                let mv = w_models(*w)[e as int];
                assert(found@[i as int].2@ == mv);
                assert(rec@ =~= model_rec_words(w_globals(*w)[e as int], mv.1)) by {
                    assert(mv.1 == model.color@ + model.scale@);
                    assert(mv.1.subrange(0, 4) =~= model.color@);
                    assert(mv.1.subrange(4, 7) =~= model.scale@);
                }
            }
            let np = model.parts.len();
            let mut p: usize = 0;
            while p < np
                invariant
                    p <= np,
                    np == model.parts@.len(),
                    i < n,
                    e == found@[i as int].0,
                    *model == found@[i as int].2,
                    rec@ == model_rec_words(w_globals(*w)[e as int], w_models(*w)[e as int].1),
                    self.wf(),
                    self.batches == old(self).batches,
                    eps.len() == items@.len(),
                    fidx.len() == eps.len(),
                    forall|j: int|
                        0 <= j < fidx.len() ==> 0 <= #[trigger] fidx[j] <= i && found@[fidx[j]].0 as int
                            == eps[j].0,
                    forall|a: int, b: int|
                        0 <= a < b < fidx.len() ==> #[trigger] fidx[a] <= #[trigger] fidx[b],
                    forall|a: int, b: int|
                        0 <= a < b < fidx.len() && #[trigger] fidx[a] == #[trigger] fidx[b]
                            ==> eps[a].1 < eps[b].1,
                    forall|j: int| 0 <= j < fidx.len() && #[trigger] fidx[j] == i as int ==> eps[j].1 < p,
                    forall|j: int|
                        0 <= j < eps.len() ==> {
                            &&& w_globals(*w).contains_key((#[trigger] eps[j]).0)
                            &&& w_models(*w).contains_key(eps[j].0)
                            &&& 0 <= eps[j].1 < w_models(*w)[eps[j].0].0.len()
                            &&& items@[j].1@ == model_rec_words(
                                w_globals(*w)[eps[j].0],
                                w_models(*w)[eps[j].0].1,
                            )
                        },
                    forall|j: int|
                        0 <= j < items@.len() ==> (#[trigger] items@[j]).0 as int == spec_part_key(
                            w_models(*w)[eps[j].0].0[eps[j].1],
                        ),
                    forall|ii: int, pp: int|
                        0 <= ii < i && 0 <= pp < w_models(*w)[found@[ii].0 as int].0.len()
                            ==> #[trigger] eps.contains((found@[ii].0 as int, pp)),
                    forall|pp: int| 0 <= pp < p ==> #[trigger] eps.contains((e as int, pp)),
                    forall|m: u64|
                        #[trigger] used_m@.contains(m) <==> exists|j: int|
                            0 <= j < eps.len() && (#[trigger] w_models(*w)[eps[j].0].0[eps[j].1]).0
                                == m as int,
                    forall|t: u64|
                        #[trigger] used_t@.contains(t) <==> exists|j: int|
                            0 <= j < eps.len() && (#[trigger] w_models(*w)[eps[j].0].0[eps[j].1]).1
                                == t as int,
                    forall|m: u64|
                        #[trigger] self.mesh_storage.spec_contains(m) <==> (old(
                            self,
                        ).mesh_storage.spec_contains(m) || used_m@.contains(m)),
                    forall|t: u64|
                        #[trigger] self.texture_storage.spec_contains(t) <==> (old(
                            self,
                        ).texture_storage.spec_contains(t) || used_t@.contains(t)),
                decreases np - p,
            {
                let mesh = model.parts[p].mesh;
                let tex = model.parts[p].texture;
                let key = part_key(mesh, tex);
                proof {
                    let mv = w_models(*w)[e as int];
                    assert(mv.0[p as int] == (mesh as int, tex as int));
                }
                items.push((key, rec));
                proof {
                    let eps0 = eps;
                    let fidx0 = fidx;
                    eps = eps.push((e as int, p as int));
                    fidx = fidx.push(i as int);
                    assert(eps.drop_last() =~= eps0);
                    assert(fidx.drop_last() =~= fidx0);
                }
                let ghost um0 = used_m@;
                let ghost ut0 = used_t@;
                if !member_u64(&used_m, mesh as u64) {
                    used_m.push(mesh as u64);
                }
                if !member_u64(&used_t, tex as u64) {
                    used_t.push(tex as u64);
                }
                if !self.mesh_storage.contains(mesh as u64) {
                    self.mesh_storage.set(mesh as u64, ());
                }
                if !self.texture_storage.contains(tex as u64) {
                    self.texture_storage.set(tex as u64, ());
                }
                p += 1;
                proof {
                    let j0 = eps.len() - 1;
                    assert(eps[j0] == (e as int, p - 1));
                    assert(fidx[j0] == i as int);
                    assert forall|m: u64|
                        m != mesh as u64 implies (#[trigger] used_m@.contains(m) <==> um0.contains(
                            m,
                        )) by {
                        if used_m@.contains(m) {
                            let idx = choose|idx: int|
                                0 <= idx < used_m@.len() && used_m@[idx] == m;
                            if idx < um0.len() {
                                assert(um0[idx] == m);
                            } else {
                                assert(used_m@[idx] == mesh as u64);
                            }
                        }
                        if um0.contains(m) {
                            let idx = choose|idx: int| 0 <= idx < um0.len() && um0[idx] == m;
                            assert(used_m@[idx] == m);
                        }
                    }
                    assert(used_m@.contains(mesh as u64)) by {
                        if um0.contains(mesh as u64) {
                            let idx = choose|idx: int|
                                0 <= idx < um0.len() && um0[idx] == mesh as u64;
                            assert(used_m@[idx] == mesh as u64);
                        } else {
                            assert(used_m@[used_m@.len() - 1] == mesh as u64);
                        }
                    }
                    assert forall|t: u64|
                        t != tex as u64 implies (#[trigger] used_t@.contains(t) <==> ut0.contains(
                            t,
                        )) by {
                        if used_t@.contains(t) {
                            let idx = choose|idx: int|
                                0 <= idx < used_t@.len() && used_t@[idx] == t;
                            if idx < ut0.len() {
                                assert(ut0[idx] == t);
                            } else {
                                assert(used_t@[idx] == tex as u64);
                            }
                        }
                        if ut0.contains(t) {
                            let idx = choose|idx: int| 0 <= idx < ut0.len() && ut0[idx] == t;
                            assert(used_t@[idx] == t);
                        }
                    }
                    assert(used_t@.contains(tex as u64)) by {
                        if ut0.contains(tex as u64) {
                            let idx = choose|idx: int|
                                0 <= idx < ut0.len() && ut0[idx] == tex as u64;
                            assert(used_t@[idx] == tex as u64);
                        } else {
                            assert(used_t@[used_t@.len() - 1] == tex as u64);
                        }
                    }
                    assert forall|ii: int, pp: int|
                        0 <= ii < i && 0 <= pp < w_models(*w)[found@[ii].0 as int].0.len()
                            implies #[trigger] eps.contains((found@[ii].0 as int, pp)) by {
                        assert(eps.drop_last().contains((found@[ii].0 as int, pp)));
                        let j = choose|j: int|
                            0 <= j < eps.drop_last().len() && #[trigger] eps.drop_last()[j] == (
                            found@[ii].0 as int,
                            pp,
                        );
                        assert(eps[j] == (found@[ii].0 as int, pp));
                    }
                    assert forall|pp: int| 0 <= pp < p implies #[trigger] eps.contains(
                        (e as int, pp),
                    ) by {
                        if pp < p - 1 {
                            assert(eps.drop_last().contains((e as int, pp)));
                            let j = choose|j: int|
                                0 <= j < eps.drop_last().len() && #[trigger] eps.drop_last()[j]
                                    == (e as int, pp);
                            assert(eps[j] == (e as int, pp));
                        } else {
                            assert(eps[j0] == (e as int, pp));
                        }
                    }
                    assert forall|m: u64| #[trigger] used_m@.contains(m) <==> exists|j: int|
                        0 <= j < eps.len() && (#[trigger] w_models(*w)[eps[j].0].0[eps[j].1]).0
                            == m as int by {
                        if used_m@.contains(m) {
                            if m == mesh as u64 {
                                assert(w_models(*w)[eps[j0].0].0[eps[j0].1].0 == m as int);
                            } else {
                                assert(um0.contains(m));
                                let j = choose|j: int|
                                    0 <= j < eps.drop_last().len() && (#[trigger] w_models(
                                        *w,
                                    )[eps.drop_last()[j].0].0[eps.drop_last()[j].1]).0
                                        == m as int;
                                assert(eps.drop_last()[j] == eps[j]);
                                assert(w_models(*w)[eps[j].0].0[eps[j].1].0 == m as int);
                            }
                        }
                        if exists|j: int|
                            0 <= j < eps.len() && (#[trigger] w_models(*w)[eps[j].0].0[eps[j].1]).0
                                == m as int {
                            let j = choose|j: int|
                                0 <= j < eps.len() && (#[trigger] w_models(*w)[eps[j].0].0[eps[j].1]).0
                                    == m as int;
                            if j == j0 {
                                assert(m == mesh as u64);
                                assert(used_m@.contains(m));
                            } else {
                                assert(eps.drop_last()[j] == eps[j]);
                                assert(w_models(*w)[eps.drop_last()[j].0].0[eps.drop_last()[j].1].0
                                    == m as int);
                                assert(um0.contains(m));
                                if m != mesh as u64 {
                                    assert(used_m@.contains(m));
                                }
                            }
                        }
                    }
                    assert forall|t: u64| #[trigger] used_t@.contains(t) <==> exists|j: int|
                        0 <= j < eps.len() && (#[trigger] w_models(*w)[eps[j].0].0[eps[j].1]).1
                            == t as int by {
                        if used_t@.contains(t) {
                            if t == tex as u64 {
                                assert(w_models(*w)[eps[j0].0].0[eps[j0].1].1 == t as int);
                            } else {
                                assert(ut0.contains(t));
                                let j = choose|j: int|
                                    0 <= j < eps.drop_last().len() && (#[trigger] w_models(
                                        *w,
                                    )[eps.drop_last()[j].0].0[eps.drop_last()[j].1]).1
                                        == t as int;
                                assert(eps.drop_last()[j] == eps[j]);
                                assert(w_models(*w)[eps[j].0].0[eps[j].1].1 == t as int);
                            }
                        }
                        if exists|j: int|
                            0 <= j < eps.len() && (#[trigger] w_models(*w)[eps[j].0].0[eps[j].1]).1
                                == t as int {
                            let j = choose|j: int|
                                0 <= j < eps.len() && (#[trigger] w_models(*w)[eps[j].0].0[eps[j].1]).1
                                    == t as int;
                            if j == j0 {
                                assert(t == tex as u64);
                                assert(used_t@.contains(t));
                            } else {
                                assert(eps.drop_last()[j] == eps[j]);
                                assert(w_models(*w)[eps.drop_last()[j].0].0[eps.drop_last()[j].1].1
                                    == t as int);
                                assert(ut0.contains(t));
                                if t != tex as u64 {
                                    assert(used_t@.contains(t));
                                }
                            }
                        }
                    }
                }
            }
            i += 1;
            proof {
                assert forall|ii: int, pp: int|
                    0 <= ii < i && 0 <= pp < w_models(*w)[found@[ii].0 as int].0.len()
                        implies #[trigger] eps.contains((found@[ii].0 as int, pp)) by {
                    if ii == i - 1 {
                        assert(eps.contains((e as int, pp)));
                    }
                }
            }
        }
        proof {
            assert(eps.no_duplicates()) by {
                assert forall|a: int, b: int| 0 <= a < b < eps.len() implies eps[a] != eps[b] by {
                    if fidx[a] == fidx[b] {
                        assert(eps[a].1 < eps[b].1);
                    } else {
                        assert(fidx[a] < fidx[b]);
                        assert(found@[fidx[a]].0 != found@[fidx[b]].0);
                    }
                }
            }
            assert forall|e: int, p: int|
                w_globals(*w).contains_key(e) && w_models(*w).contains_key(e) && 0 <= p
                    < w_models(*w)[e].0.len() implies #[trigger] eps.contains((e, p)) by {
                let ii = choose|ii: int| 0 <= ii < found@.len() && (#[trigger] found@[ii]).0 == e;
                assert(eps.contains((found@[ii].0 as int, p)));
            }
            assert(model_items_ok(*w, eps, items@));
        }
        let plan = self.batches.rebatch(&items);
        self.mesh_storage.retain_keys(&used_m);
        self.texture_storage.retain_keys(&used_t);
        proof {
            assert(model_items_ok(*w, eps, items@) && rebatch_post(
                old(self).batches,
                items@,
                self.batches,
                plan,
            ));
            assert forall|m: u64|
                #[trigger] self.mesh_storage.spec_contains(m) <==> mesh_used(*w, m as int) by {
                if used_m@.contains(m) {
                    let j = choose|j: int|
                        0 <= j < eps.len() && (#[trigger] w_models(*w)[eps[j].0].0[eps[j].1]).0
                            == m as int;
                    assert(mesh_used(*w, m as int));
                }
                if mesh_used(*w, m as int) {
                    let (e, p) = choose|e: int, p: int|
                        #[trigger] w_globals(*w).contains_key(e) && w_models(*w).contains_key(e)
                            && 0 <= p < w_models(*w)[e].0.len() && (#[trigger] w_models(
                            *w,
                        )[e].0[p]).0 == m as int;
                    assert(eps.contains((e, p)));
                    let j = choose|j: int| 0 <= j < eps.len() && #[trigger] eps[j] == (e, p);
                    assert(w_models(*w)[eps[j].0].0[eps[j].1].0 == m as int);
                    assert(used_m@.contains(m));
                }
            }
            assert forall|t: u64|
                #[trigger] self.texture_storage.spec_contains(t) <==> texture_used(
                    *w,
                    t as int,
                ) by {
                if used_t@.contains(t) {
                    let j = choose|j: int|
                        0 <= j < eps.len() && (#[trigger] w_models(*w)[eps[j].0].0[eps[j].1]).1
                            == t as int;
                    assert(texture_used(*w, t as int));
                }
                if texture_used(*w, t as int) {
                    let (e, p) = choose|e: int, p: int|
                        #[trigger] w_globals(*w).contains_key(e) && w_models(*w).contains_key(e)
                            && 0 <= p < w_models(*w)[e].0.len() && (#[trigger] w_models(
                            *w,
                        )[e].0[p]).1 == t as int;
                    assert(eps.contains((e, p)));
                    let j = choose|j: int| 0 <= j < eps.len() && #[trigger] eps[j] == (e, p);
                    assert(w_models(*w)[eps[j].0].0[eps[j].1].1 == t as int);
                    assert(used_t@.contains(t));
                }
            }
        }
        plan
    }

    /// One draw call per live part batch: the composite key and the
    /// instance count.
    pub fn draw_list(&self) -> (r: Vec<(u64, usize)>)
        requires
            self.wf(),
        ensures
            r@.len() == self.batches@.len(),
            forall|j: int|
                0 <= j < r@.len() ==> (#[trigger] r@[j]) == (
                    self.batches@[j].0,
                    self.batches@[j].1.records@.len() as usize,
                ),
    {
        self.batches.draw_list()
    }
}

} // verus!
