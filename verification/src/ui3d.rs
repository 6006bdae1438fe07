//! The billboarded 3D menu pipeline.
//!
//! Each frame, if an active camera with a world pose exists, every entity
//! holding both a world pose and a menu panel is first turned to face the
//! camera — the facing map overrides whatever the spatial resolver
//! computed — and one per-entity resource record is then packed: the faced
//! pose's homogeneous matrix plus the panel's colors, font size, line
//! metrics and clamped selection. The records are diffed keyed by entity
//! identity, the same previous-live-set pattern as the instance batchers,
//! so the host creates a panel's device bundle when the entity first
//! appears and drops it when the panel component disappears. Without a
//! camera the whole pass is skipped and nothing changes.
//!
//! The panel background's own size and the selection band are derived
//! on-device from the record's line metrics; the width follows the line
//! that `pick_line` selects, the fold the host's renderer inherited.

use vstd::prelude::*;

use crate::batch::{rebatch_post, BatchPlan, Batcher, Slot};
use crate::mathx::{look_at, look_at_of, matrix_of, to_matrix, translation_of};
use crate::registry::{
    first_camera_global, read_uis, write_global, w_cameras, w_globals, w_links, w_models,
    w_sprites, w_transforms, w_uis,
};

verus! {

/// One per-entity panel record: the faced pose's homogeneous matrix, the
/// panel colors (`f32` bit-pattern words), the font size word, and the
/// plain line metrics the device-side uniform is computed from.
#[derive(Clone, Copy)]
pub struct UiRec {
    pub transform: [u32; 16],
    pub menu_color: [u32; 4],
    pub selection_color: [u32; 4],
    pub font_size: u32,
    pub picked_len: usize,
    pub line_count: usize,
    pub selected: u8,
}

impl View for UiRec {
    type V = (Seq<u32>, Seq<u32>, Seq<u32>, int, int, int, int);

    open spec fn view(&self) -> (Seq<u32>, Seq<u32>, Seq<u32>, int, int, int, int) {
        (
            self.transform@,
            self.menu_color@,
            self.selection_color@,
            self.font_size as int,
            self.picked_len as int,
            self.line_count as int,
            self.selected as int,
        )
    }
}

/// The option line the panel's width follows: the running fold that keeps
/// the earlier line while it is strictly shorter than the next.
pub open spec fn pick_line(opts: Seq<Seq<char>>) -> Seq<char>
    decreases opts.len(),
{
    if opts.len() <= 1 {
        opts[0]
    } else {
        let prev = pick_line(opts.drop_last());
        if prev.len() < opts.last().len() {
            prev
        } else {
            opts.last()
        }
    }
}

/// The selection index the record carries: the panel's selection clamped
/// to the line count's low byte.
pub open spec fn clamped_selection(uv: (Seq<Seq<char>>, int, Seq<u32>)) -> int {
    let hi = uv.0.len() as int % 256;
    if uv.1 > hi {
        hi
    } else {
        uv.1
    }
}

/// The record packed for a panel entity: its pre-facing world pose `g`,
/// the camera's world pose `cg`, and its panel view `uv`.
pub open spec fn ui_rec_of(g: Seq<u32>, cg: Seq<u32>, uv: (Seq<Seq<char>>, int, Seq<u32>)) -> (
    Seq<u32>,
    Seq<u32>,
    Seq<u32>,
    int,
    int,
    int,
    int,
) {
    (
        matrix_of(look_at_of(translation_of(g), translation_of(cg))),
        uv.2.subrange(0, 4),
        uv.2.subrange(4, 8),
        uv.2[8] as int,
        if uv.0.len() == 0 {
            0
        } else {
            pick_line(uv.0).len() as int
        },
        uv.0.len() as int,
        clamped_selection(uv),
    )
}

/// An enumeration of the panel entities of `w`: `es` lists each entity
/// holding both a world pose and a panel exactly once, and `items[j]`
/// packs entity `es[j]` keyed by its own identity, against camera pose
/// `cg`.
pub open spec fn ui_items_ok(
    w: hecs::World,
    cg: Seq<u32>,
    es: Seq<int>,
    items: Seq<(u64, UiRec)>,
) -> bool {
    &&& es.no_duplicates()
    &&& items.len() == es.len()
    &&& forall|j: int|
        0 <= j < es.len() ==> {
            &&& w_globals(w).contains_key(#[trigger] es[j])
            &&& w_uis(w).contains_key(es[j])
            &&& (#[trigger] items[j]).0 as int == es[j]
            &&& items[j].1@ == ui_rec_of(w_globals(w)[es[j]], cg, w_uis(w)[es[j]])
        }
    &&& forall|e: int|
        #[trigger] w_globals(w).contains_key(e) && w_uis(w).contains_key(e) ==> es.contains(e)
}

/// The billboarded menu pipeline: one device bundle per panel entity,
/// tracked in a table keyed by entity identity.
pub struct Ui3dRenderer {
    pub panels: Batcher<UiRec>,
}

impl Ui3dRenderer {
    pub open spec fn wf(self) -> bool {
        self.panels.wf()
    }

    pub fn new() -> (r: Ui3dRenderer)
        ensures
            r.wf(),
            r.panels@ =~= Seq::<(u64, Slot<UiRec>)>::empty(),
    {
        Ui3dRenderer { panels: Batcher::new() }
    }

    /// Face every panel at the camera, pack the per-entity records and
    /// reconcile the panel table; with no camera, skip the pass entirely.
    #[verifier::loop_isolation(false)]
    pub fn prep(&mut self, w: &mut hecs::World) -> (r: Option<BatchPlan>)
        requires
            old(self).wf(),
        ensures
            final(self).wf(),
            w_transforms(*final(w)) == w_transforms(*old(w)),
            w_links(*final(w)) == w_links(*old(w)),
            w_sprites(*final(w)) == w_sprites(*old(w)),
            w_models(*final(w)) == w_models(*old(w)),
            w_uis(*final(w)) == w_uis(*old(w)),
            w_cameras(*final(w)) == w_cameras(*old(w)),
            w_globals(*final(w)).dom() == w_globals(*old(w)).dom(),
            match r {
                None => {
                    &&& *final(self) == *old(self)
                    &&& w_globals(*final(w)) == w_globals(*old(w))
                    &&& forall|c: int|
                        !(w_cameras(*old(w)).contains(c) && #[trigger] w_globals(
                            *old(w),
                        ).contains_key(c))
                },
                Some(plan) => exists|c: int|
                    {
                        &&& w_cameras(*old(w)).contains(c)
                        &&& #[trigger] w_globals(*old(w)).contains_key(c)
                        &&& forall|e: int|
                            #[trigger] w_globals(*old(w)).contains_key(e) ==> w_globals(
                                *final(w),
                            )[e] == if w_uis(*old(w)).contains_key(e) {
                                look_at_of(
                                    translation_of(w_globals(*old(w))[e]),
                                    translation_of(w_globals(*old(w))[c]),
                                )
                            } else {
                                w_globals(*old(w))[e]
                            }
                        &&& exists|es: Seq<int>, items: Seq<(u64, UiRec)>|
                            ui_items_ok(*old(w), w_globals(*old(w))[c], es, items)
                                && rebatch_post(
                                old(self).panels,
                                items,
                                #[trigger] final(self).panels,
                                plan,
                            )
                    },
            },
    {
        let cam = first_camera_global(w);
        let (ce, cg) = match cam {
            Some(p) => p,
            None => {
                return None;
            },
        };
        let ghost gm0 = w_globals(*w);
        let cam_t = cg.translation();
        let found = read_uis(w);
        let n = found.len();
        let mut items: Vec<(u64, UiRec)> = Vec::new();
        let ghost mut es: Seq<int> = Seq::empty();
        let mut i: usize = 0;
        while i < n
            invariant
                i <= n,
                self.wf(),
                *self == *old(self),
                cam_t@ == translation_of(gm0[ce as int]),
                w_transforms(*w) == w_transforms(*old(w)),
                w_links(*w) == w_links(*old(w)),
                w_sprites(*w) == w_sprites(*old(w)),
                w_models(*w) == w_models(*old(w)),
                w_uis(*w) == w_uis(*old(w)),
                w_cameras(*w) == w_cameras(*old(w)),
                w_globals(*w).dom() == gm0.dom(),
                forall|e: int|
                    #[trigger] gm0.contains_key(e) ==> w_globals(*w)[e] == if (exists|j: int|
                        0 <= j < i && (#[trigger] found@[j]).0 as int == e) {
                        look_at_of(translation_of(gm0[e]), translation_of(gm0[ce as int]))
                    } else {
                        gm0[e]
                    },
                es.len() == i,
                items@.len() == i,
                forall|j: int| 0 <= j < i ==> #[trigger] es[j] == found@[j].0 as int,
                forall|j: int|
                    0 <= j < i ==> {
                        &&& gm0.contains_key(#[trigger] es[j])
                        &&& w_uis(*w).contains_key(es[j])
                        &&& (#[trigger] items@[j]).0 as int == es[j]
                        &&& items@[j].1@ == ui_rec_of(gm0[es[j]], gm0[ce as int], w_uis(*w)[es[j]])
                    },
            decreases n - i,
        {
            let e = found[i].0;
            let ui = &found[i].2;
            let faced = look_at(&found[i].1.translation(), &cam_t);
            let m = to_matrix(&faced);
            let count = ui.options.len();
            let picked = shortest_line_len(&ui.options);
            let hi = (count % 256) as u8;
            let sel = if ui.selected > hi {
                hi
            } else {
                ui.selected
            };
            let rec = UiRec {
                transform: m.w,
                menu_color: ui.menu_color,
                selection_color: ui.selection_color,
                font_size: ui.font_size,
                picked_len: picked,
                line_count: count,
                selected: sel,
            };
            let ghost gpre = w_globals(*w);
            write_global(w, e, &faced);
            items.push((e, rec));
            proof {
                es = es.push(e as int);
                let uv = w_uis(*w)[e as int];
                assert(found@[i as int].2@ == uv);
                assert(rec@ == ui_rec_of(gm0[e as int], gm0[ce as int], uv)) by {
                    assert(uv.2 == ui.menu_color@ + ui.selection_color@ + seq![ui.font_size]);
                    assert(uv.2.subrange(0, 4) =~= ui.menu_color@);
                    assert(uv.2.subrange(4, 8) =~= ui.selection_color@);
                    assert(uv.2[8] == ui.font_size);
                    assert(uv.0 == ui.options@.map_values(|s: String| s@));
                    assert(uv.0.len() == ui.options@.len());
                    assert(hi as int == uv.0.len() as int % 256);
                }
                assert(gpre[e as int] == gm0[e as int]) by {
                    if exists|j: int| 0 <= j < i && (#[trigger] found@[j]).0 as int == e as int {
                        let j = choose|j: int|
                            0 <= j < i && (#[trigger] found@[j]).0 as int == e as int;
                        assert(found@[j].0 != found@[i as int].0);
                    }
                }
            }
            i += 1;
            proof {
                let i0 = i - 1;
                assert forall|e2: int| #[trigger] gm0.contains_key(e2) implies w_globals(*w)[e2]
                    == (if (exists|j: int| 0 <= j < i && (#[trigger] found@[j]).0 as int == e2) {
                    look_at_of(translation_of(gm0[e2]), translation_of(gm0[ce as int]))
                } else {
                    gm0[e2]
                }) by {
                    if e2 == e as int {
                        assert(0 <= i0 < i && found@[i0].0 as int == e2);
                    } else {
                        if exists|j: int| 0 <= j < i && (#[trigger] found@[j]).0 as int == e2 {
                            let j = choose|j: int|
                                0 <= j < i && (#[trigger] found@[j]).0 as int == e2;
                            assert(0 <= j < i0 && found@[j].0 as int == e2);
                        }
                    }
                }
            }
        }
        proof {
            assert(es.no_duplicates()) by {
                assert forall|p: int, q: int| 0 <= p < q < es.len() implies es[p] != es[q] by {
                    assert(found@[p].0 != found@[q].0);
                }
            }
            assert forall|e: int|
                #[trigger] w_globals(*old(w)).contains_key(e) && w_uis(*old(w)).contains_key(
                    e,
                ) implies es.contains(e) by {
                let j = choose|j: int| 0 <= j < found@.len() && (#[trigger] found@[j]).0 == e;
                assert(es[j] == e);
            }
            assert(ui_items_ok(*old(w), gm0[ce as int], es, items@));
        }
        let plan = self.panels.rebatch(&items);
        proof {
            assert forall|e: int| #[trigger] gm0.contains_key(e) implies w_globals(*w)[e] == (
            if w_uis(*old(w)).contains_key(e) {
                look_at_of(translation_of(gm0[e]), translation_of(gm0[ce as int]))
            } else {
                gm0[e]
            }) by {
                if w_uis(*old(w)).contains_key(e) {
                    let j = choose|j: int| 0 <= j < found@.len() && (#[trigger] found@[j]).0 == e;
                    assert(0 <= j < n && found@[j].0 as int == e);
                } else {
                    if exists|j: int| 0 <= j < n && (#[trigger] found@[j]).0 as int == e {
                        let j = choose|j: int|
                            0 <= j < n && (#[trigger] found@[j]).0 as int == e;
                        assert(w_uis(*old(w)).contains_key(found@[j].0 as int));
                    }
                }
            }
            assert(w_cameras(*old(w)).contains(ce as int) && w_globals(*old(w)).contains_key(
                ce as int,
            ) && ui_items_ok(*old(w), w_globals(*old(w))[ce as int], es, items@) && rebatch_post(
                old(self).panels,
                items@,
                self.panels,
                plan,
            ));
        }
        Some(plan)
    }

    /// One draw entry per live panel, in table order: the entity identity
    /// and the instance count (always one record per panel).
    pub fn draw_list(&self) -> (r: Vec<(u64, usize)>)
        requires
            self.wf(),
        ensures
            r@.len() == self.panels@.len(),
            forall|j: int|
                0 <= j < r@.len() ==> (#[trigger] r@[j]) == (
                    self.panels@[j].0,
                    self.panels@[j].1.records@.len() as usize,
                ),
    {
        self.panels.draw_list()
    }
}

/// The length of the line `pick_line` selects, or zero for an empty panel.
fn shortest_line_len(options: &Vec<String>) -> (r: usize)
    ensures
        options@.len() == 0 ==> r == 0,
        options@.len() > 0 ==> r == pick_line(
            options@.map_values(|s: String| s@),
        ).len(),
{
    let ghost lines = options@.map_values(|s: String| s@);
    if options.len() == 0 {
        return 0;
    }
    let mut best: usize = options[0].as_str().unicode_len();
    let mut i: usize = 1;
    proof {
        assert(lines[0] == options@[0]@);
        assert(pick_line(lines.subrange(0, 1)) == lines[0]);
    }
    while i < options.len()
        invariant
            1 <= i <= options@.len(),
            lines == options@.map_values(|s: String| s@),
            lines.len() == options@.len(),
            best == pick_line(lines.subrange(0, i as int)).len(),
        decreases options@.len() - i,
    {
        let next = options[i].as_str().unicode_len();
        let ghost pre = lines.subrange(0, i as int);
        let ghost cur = lines.subrange(0, i + 1);
        proof {
            assert(cur.drop_last() =~= pre);
            assert(cur.last() == lines[i as int]);
            assert(lines[i as int] == options@[i as int]@);
        }
        if best < next {
        } else {
            best = next;
        }
        i += 1;
    }
    proof {
        assert(lines.subrange(0, lines.len() as int) =~= lines);
    }
    best
}

} // verus!
