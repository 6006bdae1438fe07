//! The 2D sprite pipeline.
//!
//! Each frame it scans every entity holding a world pose and a sprite,
//! packs one instance record per entity — the pose's homogeneous matrix,
//! the sprite's size and its color — and batches the records by texture
//! identity. The prep contract ties the batcher's outcome to the registry:
//! there is an enumeration of exactly the sprite entities whose packed
//! items drove the batcher, so a texture's buffer is live exactly while
//! some entity references it, with one record per referencing entity.

use vstd::prelude::*;

use crate::batch::{rebatch_post, BatchPlan, Batcher, Slot};
use crate::mathx::{matrix_of, to_matrix};
use crate::registry::{read_sprites, w_globals, w_sprites};

verus! {

/// One packed sprite instance: size (2 words), homogeneous matrix (16
/// words) and color (4 words), every word an `f32` bit pattern.
#[derive(Clone, Copy)]
pub struct SpriteRec {
    pub size: [u32; 2],
    pub transform: [u32; 16],
    pub color: [u32; 4],
}

impl View for SpriteRec {
    type V = Seq<u32>;

    open spec fn view(&self) -> Seq<u32> {
        self.size@ + self.transform@ + self.color@
    }
}

/// The words of the record packed for a sprite entity: its world pose `g`
/// and its sprite view `sv` (texture identity, then size and color words).
pub open spec fn sprite_rec_words(g: Seq<u32>, sv: (int, Seq<u32>)) -> Seq<u32> {
    sv.1.subrange(0, 2) + matrix_of(g) + sv.1.subrange(2, 6)
}

/// An enumeration of the sprite entities of `w`: `es` lists each entity
/// holding both a world pose and a sprite exactly once, and `items` packs
/// entity `es[j]` into `items[j]`, keyed by its texture.
pub open spec fn sprite_items_ok(
    w: hecs::World,
    es: Seq<int>,
    items: Seq<(u64, SpriteRec)>,
) -> bool {
    &&& es.no_duplicates()
    &&& items.len() == es.len()
    &&& forall|j: int|
        0 <= j < es.len() ==> {
            &&& w_globals(w).contains_key(#[trigger] es[j])
            &&& w_sprites(w).contains_key(es[j])
            &&& (#[trigger] items[j]).0 as int == w_sprites(w)[es[j]].0
            &&& items[j].1@ == sprite_rec_words(w_globals(w)[es[j]], w_sprites(w)[es[j]])
        }
    &&& forall|e: int|
        #[trigger] w_globals(w).contains_key(e) && w_sprites(w).contains_key(e) ==> es.contains(e)
}

/// The sprite pipeline's instance-buffer table, keyed by texture identity.
pub struct TextureRenderer {
    pub batches: Batcher<SpriteRec>,
}

impl TextureRenderer {
    pub open spec fn wf(self) -> bool {
        self.batches.wf()
    }

    pub fn new() -> (r: TextureRenderer)
        ensures
            r.wf(),
            r.batches@ =~= Seq::<(u64, Slot<SpriteRec>)>::empty(),
    {
        TextureRenderer { batches: Batcher::new() }
    }

    /// Rebuild the texture-keyed instance buffers from the current sprite
    /// entities and report what changed.
    #[verifier::loop_isolation(false)]
    pub fn prep(&mut self, w: &hecs::World) -> (plan: BatchPlan)
        requires
            old(self).wf(),
        ensures
            final(self).wf(),
            exists|es: Seq<int>, items: Seq<(u64, SpriteRec)>|
                sprite_items_ok(*w, es, items) && rebatch_post(
                    old(self).batches,
                    items,
                    #[trigger] final(self).batches,
                    plan,
                ),
    {
        let found = read_sprites(w);
        let n = found.len();
        let mut items: Vec<(u64, SpriteRec)> = Vec::new();
        let ghost mut es: Seq<int> = Seq::empty();
        let mut i: usize = 0;
        while i < n
            invariant
                i <= n,
                es.len() == i,
                items@.len() == i,
                forall|j: int| 0 <= j < i ==> #[trigger] es[j] == found@[j].0 as int,
                forall|j: int|
                    0 <= j < i ==> {
                        &&& w_globals(*w).contains_key(#[trigger] es[j])
                        &&& w_sprites(*w).contains_key(es[j])
                        &&& (#[trigger] items@[j]).0 as int == w_sprites(*w)[es[j]].0
                        &&& items@[j].1@ == sprite_rec_words(
                            w_globals(*w)[es[j]],
                            w_sprites(*w)[es[j]],
                        )
                    },
            decreases n - i,
        {
            let e = found[i].0;
            let m = to_matrix(&found[i].1);
            let s = &found[i].2;
            let rec = SpriteRec { size: s.size, transform: m.w, color: s.color };
            items.push((s.texture, rec));
            proof {
                es = es.push(e as int);
                let sv = w_sprites(*w)[e as int];
                assert(found@[i as int].2@ == sv);
                assert(rec@ =~= sprite_rec_words(w_globals(*w)[e as int], sv)) by {
                    assert(sv.1 == s.size@ + s.color@);
                    assert(sv.1.subrange(0, 2) =~= s.size@);
                    assert(sv.1.subrange(2, 6) =~= s.color@);
                }
            }
            i += 1;
        }
        proof {
            assert(es.no_duplicates()) by {
                assert forall|p: int, q: int| 0 <= p < q < es.len() implies es[p] != es[q] by {
                    assert(found@[p].0 != found@[q].0);
                }
            }
            assert forall|e: int|
                #[trigger] w_globals(*w).contains_key(e) && w_sprites(*w).contains_key(
                    e,
                ) implies es.contains(e) by {
                let j = choose|j: int| 0 <= j < found@.len() && (#[trigger] found@[j]).0 == e;
                assert(es[j] == e);
            }
            assert(sprite_items_ok(*w, es, items@));
        }
        let plan = self.batches.rebatch(&items);
        proof {
            assert(sprite_items_ok(*w, es, items@) && rebatch_post(
                old(self).batches,
                items@,
                self.batches,
                plan,
            ));
        }
        plan
    }

    /// One draw call per live texture batch: the texture identity and the
    /// instance count.
    pub fn draw_list(&self) -> (r: Vec<(u64, usize)>)
        requires
            self.wf(),
        ensures
            r@.len() == self.batches@.len(),
            forall|j: int|
                0 <= j < r@.len() ==> (#[trigger] r@[j]) == (
                    self.batches@[j].0,
                    self.batches@[j].1.records@.len() as usize,
                ),
    {
        self.batches.draw_list()
    }
}

} // verus!
