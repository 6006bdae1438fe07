//! The spatial resolver.
//!
//! Every frame, each entity holding both a local pose and a world pose is
//! seeded with the affine form of its own pose (the flat pass), and the
//! parent-link forest is then cascaded from its roots: a hierarchy member's
//! world pose is its parent's world pose composed with its own link offset,
//! with the link offset taking precedence over any local pose the member
//! also carries (the hierarchy pass). A member whose chain of parents does
//! not end at an entity with a readable world pose — an orphan, or a member
//! of a parent cycle — keeps its seeded value untouched.
//!
//! The resolved value of an entity is specified by `resolved_value`, which
//! walks the parent chain with bounded fuel; the fuel exceeds every chain
//! length that can end at a root, so only cycles exhaust it, and they
//! resolve to "leave the seeded value alone".

use vstd::prelude::*;
use vstd::seq_lib::*;
use vstd::set_lib::lemma_len_subset;

use crate::keymap::KeyMap;
use crate::mathx::{affine_of, compose, compose_of, to_affine, Affine, Transform};
use crate::registry::{
    read_flat_pairs, read_global, read_links, write_global, w_cameras, w_globals, w_links,
    w_models, w_sprites, w_transforms, w_uis,
};

verus! {

/// The value the flat pass leaves at entity `e` (meaningful for `e` in the
/// domain of `gm`): the affine form of its own local pose when it has one,
/// else its previous world pose.
pub open spec fn flat_value(tm: Map<int, Seq<u32>>, gm: Map<int, Seq<u32>>, e: int) -> Seq<u32> {
    if tm.contains_key(e) {
        affine_of(tm[e])
    } else {
        gm[e]
    }
}

/// The world-pose map after the flat pass: same domain, each entry seeded
/// by `flat_value`.
pub open spec fn flat_globals(tm: Map<int, Seq<u32>>, gm: Map<int, Seq<u32>>) -> Map<
    int,
    Seq<u32>,
> {
    Map::new(|e: int| gm.contains_key(e), |e: int| flat_value(tm, gm, e))
}

/// Walk the parent chain of `e` upward for at most `fuel` links. A
/// non-member resolves to its seeded world pose, if it has one; a member
/// composes its parent's chain value with the affine form of its own link
/// offset. `None` means the chain ends without a readable world pose or
/// does not end within `fuel` links.
pub open spec fn chainf(
    lm: Map<int, (int, Seq<u32>)>,
    pfg: Map<int, Seq<u32>>,
    e: int,
    fuel: nat,
) -> Option<Seq<u32>>
    decreases fuel,
{
    if !lm.contains_key(e) {
        if pfg.contains_key(e) {
            Some(pfg[e])
        } else {
            None
        }
    } else if fuel == 0 {
        None
    } else {
        match chainf(lm, pfg, lm[e].0, (fuel - 1) as nat) {
            Some(pg) => Some(compose_of(pg, affine_of(lm[e].1))),
            None => None,
        }
    }
}

/// The number of links from `e` up to the first non-member, when the walk
/// ends within `fuel` links.
pub open spec fn depthf(lm: Map<int, (int, Seq<u32>)>, e: int, fuel: nat) -> Option<nat>
    decreases fuel,
{
    if !lm.contains_key(e) {
        Some(0)
    } else if fuel == 0 {
        None
    } else {
        match depthf(lm, lm[e].0, (fuel - 1) as nat) {
            Some(d) => Some((d + 1) as nat),
            None => None,
        }
    }
}

/// The hierarchy members passed walking up from `e`, within `fuel` links.
pub open spec fn pathset(lm: Map<int, (int, Seq<u32>)>, e: int, fuel: nat) -> Set<int>
    decreases fuel,
{
    if !lm.contains_key(e) {
        Set::empty()
    } else if fuel == 0 {
        Set::empty()
    } else {
        pathset(lm, lm[e].0, (fuel - 1) as nat).insert(e)
    }
}

/// The first non-member reached walking up from `e`, when the walk ends
/// within `fuel` links.
pub open spec fn topf(lm: Map<int, (int, Seq<u32>)>, e: int, fuel: nat) -> Option<int>
    decreases fuel,
{
    if !lm.contains_key(e) {
        Some(e)
    } else if fuel == 0 {
        None
    } else {
        topf(lm, lm[e].0, (fuel - 1) as nat)
    }
}

/// Whether the upward walk from `x` passes `c` within `fuel` links.
pub open spec fn hits(lm: Map<int, (int, Seq<u32>)>, x: int, c: int, fuel: nat) -> bool
    decreases fuel,
{
    x == c || (lm.contains_key(x) && fuel > 0 && hits(lm, lm[x].0, c, (fuel - 1) as nat))
}

/// The ancestor of `x` whose parent is `root` (meaningful when the walk
/// from `x` reaches `root`).
pub open spec fn anchor(lm: Map<int, (int, Seq<u32>)>, x: int, root: int, fuel: nat) -> int
    decreases fuel,
{
    if !lm.contains_key(x) {
        x
    } else if lm[x].0 == root {
        x
    } else if fuel == 0 {
        x
    } else {
        anchor(lm, lm[x].0, root, (fuel - 1) as nat)
    }
}

/// Enough fuel for every chain that ends at a root: one more than the
/// number of hierarchy members.
pub open spec fn fuel_of(lm: Map<int, (int, Seq<u32>)>) -> nat {
    (lm.dom().len() + 1) as nat
}

/// The world pose an entity in the domain of `gm` holds once resolution is
/// done: a hierarchy member takes its chain value when the chain ends at a
/// readable world pose, and keeps its seeded value otherwise; a non-member
/// keeps its seeded value.
pub open spec fn resolved_value(
    tm: Map<int, Seq<u32>>,
    gm: Map<int, Seq<u32>>,
    lm: Map<int, (int, Seq<u32>)>,
    e: int,
) -> Seq<u32> {
    if lm.contains_key(e) {
        match chainf(lm, flat_globals(tm, gm), e, fuel_of(lm)) {
            Some(v) => v,
            None => flat_value(tm, gm, e),
        }
    } else {
        flat_value(tm, gm, e)
    }
}

/// More fuel does not change a chain value that was already found.
proof fn lemma_chain_mono(
    lm: Map<int, (int, Seq<u32>)>,
    pfg: Map<int, Seq<u32>>,
    e: int,
    f1: nat,
    f2: nat,
)
    requires
        f1 <= f2,
        chainf(lm, pfg, e, f1).is_some(),
    ensures
        chainf(lm, pfg, e, f2) == chainf(lm, pfg, e, f1),
    decreases f1,
{
    if lm.contains_key(e) {
        lemma_chain_mono(lm, pfg, lm[e].0, (f1 - 1) as nat, (f2 - 1) as nat);
    }
}

/// More fuel does not change a depth that was already found.
proof fn lemma_depth_mono(lm: Map<int, (int, Seq<u32>)>, e: int, f1: nat, f2: nat)
    requires
        f1 <= f2,
        depthf(lm, e, f1).is_some(),
    ensures
        depthf(lm, e, f2) == depthf(lm, e, f1),
    decreases f1,
{
    if lm.contains_key(e) {
        lemma_depth_mono(lm, lm[e].0, (f1 - 1) as nat, (f2 - 1) as nat);
    }
}

/// A found chain has a found depth, no larger than the fuel spent, and the
/// depth alone is already enough fuel for both.
proof fn lemma_chain_depth(lm: Map<int, (int, Seq<u32>)>, pfg: Map<int, Seq<u32>>, e: int, f: nat)
    requires
        chainf(lm, pfg, e, f).is_some(),
    ensures
        depthf(lm, e, f).is_some(),
        depthf(lm, e, f)->Some_0 <= f,
        depthf(lm, e, depthf(lm, e, f)->Some_0) == depthf(lm, e, f),
        chainf(lm, pfg, e, depthf(lm, e, f)->Some_0) == chainf(lm, pfg, e, f),
    decreases f,
{
    if lm.contains_key(e) {
        lemma_chain_depth(lm, pfg, lm[e].0, (f - 1) as nat);
        let d = depthf(lm, e, f)->Some_0;
        lemma_depth_mono(lm, lm[e].0, depthf(lm, lm[e].0, (f - 1) as nat)->Some_0, (d - 1) as nat);
        lemma_chain_mono(
            lm,
            pfg,
            lm[e].0,
            depthf(lm, lm[e].0, (f - 1) as nat)->Some_0,
            (d - 1) as nat,
        );
    }
}

/// Everything on a found path has a found depth, no larger than the depth
/// of the walk's start.
proof fn lemma_path_depths(lm: Map<int, (int, Seq<u32>)>, e: int, f: nat, x: int)
    requires
        depthf(lm, e, f).is_some(),
        pathset(lm, e, f).contains(x),
    ensures
        depthf(lm, x, f).is_some(),
        depthf(lm, x, f)->Some_0 <= depthf(lm, e, f)->Some_0,
    decreases f,
{
    if lm.contains_key(e) && x != e {
        lemma_path_depths(lm, lm[e].0, (f - 1) as nat, x);
        lemma_depth_mono(lm, x, (f - 1) as nat, f);
    } else if lm.contains_key(e) && x == e {
    }
}

/// A found path is a set of hierarchy members whose size is exactly the
/// depth.
proof fn lemma_path_card(lm: Map<int, (int, Seq<u32>)>, e: int, f: nat)
    requires
        depthf(lm, e, f).is_some(),
    ensures
        pathset(lm, e, f).finite(),
        pathset(lm, e, f).len() == depthf(lm, e, f)->Some_0,
        pathset(lm, e, f).subset_of(lm.dom()),
    decreases f,
{
    if lm.contains_key(e) {
        let p = lm[e].0;
        lemma_path_card(lm, p, (f - 1) as nat);
        let d = depthf(lm, e, f)->Some_0;
        if pathset(lm, p, (f - 1) as nat).contains(e) {
            lemma_path_depths(lm, p, (f - 1) as nat, e);
            lemma_depth_mono(lm, e, (f - 1) as nat, f);
            assert(false);
        }
    }
}

/// Depth never exceeds the number of hierarchy members.
proof fn lemma_depth_bound(lm: Map<int, (int, Seq<u32>)>, e: int, f: nat)
    requires
        lm.dom().finite(),
        depthf(lm, e, f).is_some(),
    ensures
        depthf(lm, e, f)->Some_0 <= lm.dom().len(),
{
    lemma_path_card(lm, e, f);
    lemma_len_subset(pathset(lm, e, f), lm.dom());
}

/// A hierarchy member whose parent's chain value is found composes it with
/// its own offset; its depth is one more than its parent's.
proof fn lemma_chain_child(
    lm: Map<int, (int, Seq<u32>)>,
    pfg: Map<int, Seq<u32>>,
    cur: int,
    c: int,
)
    requires
        lm.dom().finite(),
        chainf(lm, pfg, cur, fuel_of(lm)).is_some(),
        lm.contains_key(c),
        lm[c].0 == cur,
    ensures
        chainf(lm, pfg, c, fuel_of(lm)) == Some(
            compose_of(chainf(lm, pfg, cur, fuel_of(lm))->Some_0, affine_of(lm[c].1)),
        ),
        depthf(lm, c, fuel_of(lm)) == Some((depthf(lm, cur, fuel_of(lm))->Some_0 + 1) as nat),
{
    let f = fuel_of(lm);
    lemma_chain_depth(lm, pfg, cur, f);
    let d = depthf(lm, cur, f)->Some_0;
    lemma_depth_bound(lm, cur, f);
    lemma_chain_mono(lm, pfg, cur, d, (f - 1) as nat);
    lemma_depth_mono(lm, cur, d, (f - 1) as nat);
}

/// An upward walk that passes `c` and does not start there passes `c`'s
/// child `anchor(x, c, f)` on the way, and that child links to `c`.
proof fn lemma_anchor(lm: Map<int, (int, Seq<u32>)>, x: int, c: int, f: nat)
    requires
        hits(lm, x, c, f),
        x != c,
        lm.contains_key(x),
    ensures
        lm.contains_key(anchor(lm, x, c, f)),
        lm[anchor(lm, x, c, f)].0 == c,
        hits(lm, x, anchor(lm, x, c, f), f),
    decreases f,
{
    let p = lm[x].0;
    if p != c {
        assert(hits(lm, p, c, (f - 1) as nat));
        lemma_anchor(lm, p, c, (f - 1) as nat);
    }
}

/// A hierarchy member with a found chain has a root: a non-member holding a
/// seeded pose, reached through one of its children on the member's walk.
proof fn lemma_root_anchor(lm: Map<int, (int, Seq<u32>)>, pfg: Map<int, Seq<u32>>, x: int, f: nat)
    requires
        lm.contains_key(x),
        chainf(lm, pfg, x, f).is_some(),
    ensures
        topf(lm, x, f).is_some(),
        !lm.contains_key(topf(lm, x, f)->Some_0),
        pfg.contains_key(topf(lm, x, f)->Some_0),
        lm.contains_key(anchor(lm, x, topf(lm, x, f)->Some_0, f)),
        lm[anchor(lm, x, topf(lm, x, f)->Some_0, f)].0 == topf(lm, x, f)->Some_0,
        hits(lm, x, anchor(lm, x, topf(lm, x, f)->Some_0, f), f),
    decreases f,
{
    let p = lm[x].0;
    if !lm.contains_key(p) {
    } else {
        lemma_root_anchor(lm, pfg, p, (f - 1) as nat);
    }
}

/// The chain depth of a member, as a plain integer; drives the cascade's
/// termination measure.
pub open spec fn sdepth(lm: Map<int, (int, Seq<u32>)>, e: int) -> int {
    match depthf(lm, e, fuel_of(lm)) {
        Some(d) => d as int,
        None => 0,
    }
}

/// A cascade output entry is a hierarchy member paired with its found chain
/// value.
pub open spec fn entry_good(
    lm: Map<int, (int, Seq<u32>)>,
    pfg: Map<int, Seq<u32>>,
    ent: (u64, Affine),
) -> bool {
    &&& lm.contains_key(ent.0 as int)
    &&& chainf(lm, pfg, ent.0 as int, fuel_of(lm)) == Some(ent.1@)
}

/// The children table mirrors the link map: every listed child is a member
/// linking to the listing parent with the listed offset, and every member
/// is listed somewhere.
pub open spec fn kids_ok(
    kids: KeyMap<Vec<(u64, Transform)>>,
    lm: Map<int, (int, Seq<u32>)>,
) -> bool {
    &&& kids.wf()
    &&& forall|i: int, m: int|
        0 <= i < kids@.len() && 0 <= m < kids@[i].1@.len() ==> {
            &&& lm.contains_key((#[trigger] kids@[i].1@[m]).0 as int)
            &&& lm[kids@[i].1@[m].0 as int] == ((kids@[i].0 as int, kids@[i].1@[m].1@))
        }
    &&& forall|c: int|
        #[trigger] lm.contains_key(c) ==> exists|i: int, m: int|
            0 <= i < kids@.len() && 0 <= m < kids@[i].1@.len() && (#[trigger] kids@[i].1@[
                m
            ]).0 as int == c
}

/// Walk the subtree under `cur`, a hierarchy member whose resolved pose is
/// `mine`, appending `(member, resolved pose)` for `cur` and every member
/// below it.
fn collect(
    kids: &KeyMap<Vec<(u64, Transform)>>,
    cur: u64,
    mine: Affine,
    out: &mut Vec<(u64, Affine)>,
    Ghost(lm): Ghost<Map<int, (int, Seq<u32>)>>,
    Ghost(pfg): Ghost<Map<int, Seq<u32>>>,
)
    requires
        kids_ok(*kids, lm),
        lm.dom().finite(),
        lm.contains_key(cur as int),
        chainf(lm, pfg, cur as int, fuel_of(lm)) == Some(mine@),
    ensures
        final(out)@.len() >= old(out)@.len(),
        final(out)@.subrange(0, old(out)@.len() as int) == old(out)@,
        forall|k: int|
            old(out)@.len() <= k < final(out)@.len() ==> entry_good(
                lm,
                pfg,
                #[trigger] final(out)@[k],
            ),
        forall|x: int|
            lm.contains_key(x) && chainf(lm, pfg, x, fuel_of(lm)).is_some() && #[trigger] hits(
                lm,
                x,
                cur as int,
                fuel_of(lm),
            ) ==> exists|k: int|
                old(out)@.len() <= k < final(out)@.len() && (#[trigger] final(out)@[k]).0 as int
                    == x,
    decreases lm.dom().len() + 1 - sdepth(lm, cur as int),
{
    proof {
        lemma_chain_depth(lm, pfg, cur as int, fuel_of(lm));
        lemma_depth_bound(lm, cur as int, fuel_of(lm));
    }
    let ghost base = out@.len();
    out.push((cur, mine));
    match kids.get(cur) {
        None => {
            proof {
                assert forall|x: int|
                    lm.contains_key(x) && chainf(lm, pfg, x, fuel_of(lm)).is_some() && #[trigger] hits(
                        lm,
                        x,
                        cur as int,
                        fuel_of(lm),
                    ) implies exists|k: int|
                    base <= k < out@.len() && (#[trigger] out@[k]).0 as int == x by {
                    if x == cur as int {
                        assert(out@[base as int].0 as int == x);
                    } else {
                        lemma_anchor(lm, x, cur as int, fuel_of(lm));
                        let a = anchor(lm, x, cur as int, fuel_of(lm));
                        let (i, m) = choose|i: int, m: int|
                            0 <= i < kids@.len() && 0 <= m < kids@[i].1@.len() && (
                            #[trigger] kids@[i].1@[m]).0 as int == a;
                        assert(kids@[i].0 as int == cur as int);
                        assert(kids.spec_contains(cur));
                        assert(false);
                    }
                }
            }
        },
        Some(list) => {
            let n = list.len();
            let mut m: usize = 0;
            while m < n
                invariant
                    kids_ok(*kids, lm),
                    lm.dom().finite(),
                    lm.contains_key(cur as int),
                    chainf(lm, pfg, cur as int, fuel_of(lm)) == Some(mine@),
                    depthf(lm, cur as int, fuel_of(lm)).is_some(),
                    sdepth(lm, cur as int) <= lm.dom().len(),
                    kids.spec_contains(cur),
                    list == kids.spec_get(cur),
                    n == list@.len(),
                    m <= n,
                    out@.len() >= base + 1,
                    out@.subrange(0, base as int) == old(out)@,
                    out@[base as int] == (cur, mine),
                    forall|k: int| base <= k < out@.len() ==> entry_good(lm, pfg, #[trigger] out@[k]),
                    forall|x: int|
                        (lm.contains_key(x) && chainf(lm, pfg, x, fuel_of(lm)).is_some() && (exists|
                            mm: int,
                        |
                            0 <= mm < m && #[trigger] hits(
                                lm,
                                x,
                                list@[mm].0 as int,
                                fuel_of(lm),
                            ))) ==> exists|k: int|
                            base <= k < out@.len() && (#[trigger] out@[k]).0 as int == x,
                decreases n - m,
            {
                let c = list[m].0;
                let off = list[m].1;
                let ghost iw = kids.index_of(cur);
                proof {
                    assert(kids@[iw] == (cur, *list));
                    assert(lm.contains_key(c as int) && lm[c as int] == ((cur as int, off@)));
                    lemma_chain_child(lm, pfg, cur as int, c as int);
                    lemma_depth_bound(lm, c as int, fuel_of(lm));
                }
                let ca = to_affine(&off);
                let cb = compose(&mine, &ca);
                let ghost pre = out@;
                collect(kids, c, cb, out, Ghost(lm), Ghost(pfg));
                proof {
                    assert forall|k: int| 0 <= k < pre.len() implies out@[k] == pre[k] by {
                        assert(out@.subrange(0, pre.len() as int)[k] == out@[k]);
                    }
                    assert(out@.subrange(0, base as int) =~= old(out)@);
                    assert(out@[base as int] == (cur, mine));
                    assert forall|k: int| base <= k < out@.len() implies entry_good(
                        lm,
                        pfg,
                        out@[k],
                    ) by {
                        if k < pre.len() {
                            assert(out@[k] == pre[k]);
                            assert(entry_good(lm, pfg, pre[k]));
                        }
                    }
                }
                m += 1;
                proof {
                    assert forall|x: int|
                        (lm.contains_key(x) && chainf(lm, pfg, x, fuel_of(lm)).is_some() && (exists|
                            mm: int,
                        |
                            0 <= mm < m && #[trigger] hits(
                                lm,
                                x,
                                list@[mm].0 as int,
                                fuel_of(lm),
                            ))) implies exists|k: int|
                        base <= k < out@.len() && (#[trigger] out@[k]).0 as int == x by {
                        let mm = choose|mm: int|
                            0 <= mm < m && #[trigger] hits(
                                lm,
                                x,
                                list@[mm].0 as int,
                                fuel_of(lm),
                            );
                        if mm < m - 1 {
                        } else {
                            assert(list@[mm].0 == c);
                        }
                    }
                }
            }
            proof {
                assert forall|x: int|
                    lm.contains_key(x) && chainf(lm, pfg, x, fuel_of(lm)).is_some() && #[trigger] hits(
                        lm,
                        x,
                        cur as int,
                        fuel_of(lm),
                    ) implies exists|k: int|
                    base <= k < out@.len() && (#[trigger] out@[k]).0 as int == x by {
                    if x == cur as int {
                        assert(out@[base as int].0 as int == x);
                    } else {
                        lemma_anchor(lm, x, cur as int, fuel_of(lm));
                        let a = anchor(lm, x, cur as int, fuel_of(lm));
                        let (i, mm) = choose|i: int, mm: int|
                            0 <= i < kids@.len() && 0 <= mm < kids@[i].1@.len() && (
                            #[trigger] kids@[i].1@[mm]).0 as int == a;
                        assert(kids@[i].0 as int == cur as int);
                        let iw = kids.index_of(cur);
                        assert(kids@[iw].0 == cur);
                        if i != iw {
                            assert(kids@[i].0 != kids@[iw].0);
                            assert(false);
                        }
                        assert(list@[mm].0 as int == a);
                        assert(hits(lm, x, (list@[mm]).0 as int, fuel_of(lm)));
                    }
                }
            }
        },
    }
}


/// Resolve a world pose for every entity that holds one: the flat pass
/// seeds each entity holding both a local and a world pose with the affine
/// form of its local pose, and the hierarchy pass then cascades every
/// parent chain that ends at a readable world pose down through its
/// subtree. Each seeded pose ends up exactly at its `resolved_value`;
/// nothing else in the registry changes.
#[verifier::loop_isolation(false)]
pub fn resolve_world(w: &mut hecs::World)
    ensures
        w_transforms(*final(w)) == w_transforms(*old(w)),
        w_links(*final(w)) == w_links(*old(w)),
        w_sprites(*final(w)) == w_sprites(*old(w)),
        w_models(*final(w)) == w_models(*old(w)),
        w_uis(*final(w)) == w_uis(*old(w)),
        w_cameras(*final(w)) == w_cameras(*old(w)),
        w_globals(*final(w)).dom() == w_globals(*old(w)).dom(),
        forall|e: int|
            #[trigger] w_globals(*old(w)).contains_key(e) ==> w_globals(*final(w))[e]
                == resolved_value(
                w_transforms(*old(w)),
                w_globals(*old(w)),
                w_links(*old(w)),
                e,
            ),
{
    let ghost tm = w_transforms(*w);
    let ghost gm0 = w_globals(*w);
    let ghost lm = w_links(*w);

    // Flat pass.
    let pairs = read_flat_pairs(w);
    let np = pairs.len();
    let mut i: usize = 0;
    while i < np
        invariant
            i <= np,
            w_transforms(*w) == tm,
            w_links(*w) == lm,
            w_sprites(*w) == w_sprites(*old(w)),
            w_models(*w) == w_models(*old(w)),
            w_uis(*w) == w_uis(*old(w)),
            w_cameras(*w) == w_cameras(*old(w)),
            w_globals(*w).dom() == gm0.dom(),
            forall|e: int|
                #[trigger] gm0.contains_key(e) ==> w_globals(*w)[e] == if (exists|j: int|
                    0 <= j < i && (#[trigger] pairs@[j]).0 as int == e) {
                    affine_of(tm[e])
                } else {
                    gm0[e]
                },
        decreases np - i,
    {
        let a = to_affine(&pairs[i].1);
        write_global(w, pairs[i].0, &a);
        i += 1;
        proof {
            let i0 = i - 1;
            assert forall|e: int| #[trigger] gm0.contains_key(e) implies w_globals(*w)[e] == (
            if (exists|j: int| 0 <= j < i && (#[trigger] pairs@[j]).0 as int == e) {
                affine_of(tm[e])
            } else {
                gm0[e]
            }) by {
                if e == pairs@[i0].0 as int {
                    assert(0 <= i0 < i && pairs@[i0].0 as int == e);
                } else {
                    if exists|j: int| 0 <= j < i && (#[trigger] pairs@[j]).0 as int == e {
                        let j = choose|j: int|
                            0 <= j < i && (#[trigger] pairs@[j]).0 as int == e;
                        assert(0 <= j < i0 && pairs@[j].0 as int == e);
                    }
                }
            }
        }
    }
    proof {
        assert forall|e: int| #[trigger] gm0.contains_key(e) implies w_globals(*w)[e]
            == flat_value(tm, gm0, e) by {
            if tm.contains_key(e) {
            } else {
                if exists|j: int| 0 <= j < np && (#[trigger] pairs@[j]).0 as int == e {
                    let j = choose|j: int|
                        0 <= j < np && (#[trigger] pairs@[j]).0 as int == e;
                    assert(tm.contains_key(pairs@[j].0 as int));
                    assert(false);
                }
            }
        }
        assert(w_globals(*w) =~= flat_globals(tm, gm0));
    }
    let ghost pfg = flat_globals(tm, gm0);
    let ghost fuel = fuel_of(lm);

    // Hierarchy pass: read the links, index children under each parent.
    let links = read_links(w);
    let nl = links.len();
    proof {
        let ids = Seq::new(links@.len(), |j: int| links@[j].0 as int);
        assert forall|e: int| #[trigger] lm.contains_key(e) implies ids.to_set().contains(
            e,
        ) by {
            let j = choose|j: int| 0 <= j < links@.len() && (#[trigger] links@[j]).0 == e;
            assert(ids[j] == e);
            assert(ids.contains(e));
        }
        seq_to_set_is_finite::<int>(ids);
        lemma_len_subset(lm.dom(), ids.to_set());
    }

    let mut kids: KeyMap<Vec<(u64, Transform)>> = KeyMap::new();
    let mut linked: KeyMap<()> = KeyMap::new();
    let mut i: usize = 0;
    while i < nl
        invariant
            i <= nl,
            kids.wf(),
            linked.wf(),
            forall|x: u64|
                #[trigger] linked.spec_contains(x) <==> exists|j: int|
                    0 <= j < i && (#[trigger] links@[j]).0 == x,
            forall|ii: int, m: int|
                0 <= ii < kids@.len() && 0 <= m < kids@[ii].1@.len() ==> {
                    &&& lm.contains_key((#[trigger] kids@[ii].1@[m]).0 as int)
                    &&& lm[kids@[ii].1@[m].0 as int] == ((kids@[ii].0 as int, kids@[ii].1@[
                        m
                    ].1@))
                },
            forall|j: int|
                0 <= j < i ==> exists|ii: int, m: int|
                    0 <= ii < kids@.len() && 0 <= m < kids@[ii].1@.len()
                        && (#[trigger] kids@[ii].1@[m]).0 == (#[trigger] links@[j]).0,
        decreases nl - i,
    {
        let e = links[i].0;
        let p = links[i].1;
        let off = links[i].2;
        let ghost kids0 = kids;
        linked.set(e, ());
        kids.push_at(p, (e, off));
        i += 1;
        proof {
            let i0 = i - 1;
            if kids0.spec_contains(p) {
                let wdx = kids0.index_of(p);
                assert(kids@[wdx].1@ == kids0.spec_get(p)@.push((e, off)));
                assert(kids@[wdx].1@.last() == (e, off));
                assert forall|j: int|
                    0 <= j < i implies exists|ii: int, m: int|
                    0 <= ii < kids@.len() && 0 <= m < kids@[ii].1@.len()
                        && (#[trigger] kids@[ii].1@[m]).0 == (#[trigger] links@[j]).0 by {
                    if j == i0 {
                        assert(kids@[wdx].1@[kids@[wdx].1@.len() - 1].0 == e);
                    } else {
                        let (ii, m) = choose|ii: int, m: int|
                            0 <= ii < kids0@.len() && 0 <= m < kids0@[ii].1@.len()
                                && (#[trigger] kids0@[ii].1@[m]).0 == links@[j].0;
                        if ii == wdx {
                            assert(kids@[ii].1@[m] == kids0@[ii].1@[m]);
                        } else {
                            assert(kids@[ii] == kids0@[ii]);
                        }
                        assert(kids@[ii].1@[m].0 == links@[j].0);
                    }
                }
            } else {
                let wdx = kids@.len() - 1;
                assert(kids@.last().1@ =~= seq![(e, off)]);
                assert forall|j: int|
                    0 <= j < i implies exists|ii: int, m: int|
                    0 <= ii < kids@.len() && 0 <= m < kids@[ii].1@.len()
                        && (#[trigger] kids@[ii].1@[m]).0 == (#[trigger] links@[j]).0 by {
                    if j == i0 {
                        assert(kids@[wdx].1@[0].0 == e);
                    } else {
                        let (ii, m) = choose|ii: int, m: int|
                            0 <= ii < kids0@.len() && 0 <= m < kids0@[ii].1@.len()
                                && (#[trigger] kids0@[ii].1@[m]).0 == links@[j].0;
                        assert(kids@.subrange(0, kids0@.len() as int)[ii] == kids0@[ii]);
                        assert(kids@[ii].1@[m].0 == links@[j].0);
                    }
                }
            }
            assert forall|ii: int, m: int|
                0 <= ii < kids@.len() && 0 <= m < kids@[ii].1@.len() implies {
                &&& lm.contains_key((#[trigger] kids@[ii].1@[m]).0 as int)
                &&& lm[kids@[ii].1@[m].0 as int] == ((kids@[ii].0 as int, kids@[ii].1@[m].1@))
            } by {
                if kids0.spec_contains(p) {
                    let wdx = kids0.index_of(p);
                    if ii == wdx {
                        if m < kids@[ii].1@.len() - 1 {
                            assert(kids0@[ii].1@[m] == kids@[ii].1@[m]);
                        } else {
                            assert(kids@[ii].1@[m] == (e, off));
                            assert(lm.contains_key(links@[i0].0 as int));
                        }
                    } else {
                        assert(kids@[ii] == kids0@[ii]);
                    }
                } else {
                    if ii < kids@.len() - 1 {
                        assert(kids@.subrange(0, kids0@.len() as int)[ii] == kids0@[ii]);
                        assert(kids@[ii] == kids0@[ii]);
                    } else {
                        assert(kids@[ii].1@[m] == (e, off));
                    }
                }
            }
        }
    }
    proof {
        assert forall|c: int| #[trigger] lm.contains_key(c) implies exists|ii: int, m: int|
            0 <= ii < kids@.len() && 0 <= m < kids@[ii].1@.len() && (#[trigger] kids@[ii].1@[
                m
            ]).0 as int == c by {
            let j = choose|j: int| 0 <= j < links@.len() && (#[trigger] links@[j]).0 == c;
            let (ii, m) = choose|ii: int, m: int|
                0 <= ii < kids@.len() && 0 <= m < kids@[ii].1@.len()
                    && (#[trigger] kids@[ii].1@[m]).0 == links@[j].0;
            assert(kids@[ii].1@[m].0 as int == c);
        }
        assert(kids_ok(kids, lm));
        assert forall|x: u64| #[trigger] linked.spec_contains(x) <==> lm.contains_key(
            x as int,
        ) by {
            if linked.spec_contains(x) {
                let j = choose|j: int| 0 <= j < nl && (#[trigger] links@[j]).0 == x;
                assert(lm.contains_key(links@[j].0 as int));
            }
            if lm.contains_key(x as int) {
                let j = choose|j: int|
                    0 <= j < links@.len() && (#[trigger] links@[j]).0 == x as int;
                assert(0 <= j < nl && links@[j].0 == x);
            }
        }
    }

    // Cascade from every root that holds a seeded pose.
    let mut out: Vec<(u64, Affine)> = Vec::new();
    let nk = kids.len();
    let mut i: usize = 0;
    while i < nk
        invariant
            i <= nk,
            forall|k: int| 0 <= k < out@.len() ==> entry_good(lm, pfg, #[trigger] out@[k]),
            forall|x: int|
                (lm.contains_key(x) && chainf(lm, pfg, x, fuel).is_some() && (exists|ii: int|
                    0 <= ii < i && (#[trigger] kids@[ii]).0 as int == topf(lm, x, fuel)->Some_0))
                    ==> exists|k: int|
                    0 <= k < out@.len() && (#[trigger] out@[k]).0 as int == x,
        decreases nk - i,
    {
        let p = kids.entry_at(i).0;
        let ghost out_in = out@;
        if !linked.contains(p) {
            match read_global(w, p) {
                Some(rg) => {
                    let nm = kids.entry_at(i).1.len();
                    let mut m: usize = 0;
                    while m < nm
                        invariant
                            m <= nm,
                            nm == kids@[i as int].1@.len(),
                            out@.len() >= out_in.len(),
                            out@.subrange(0, out_in.len() as int) == out_in,
                            forall|k: int|
                                0 <= k < out@.len() ==> entry_good(lm, pfg, #[trigger] out@[k]),
                            forall|x: int|
                                (lm.contains_key(x) && chainf(lm, pfg, x, fuel).is_some() && (
                                exists|mm: int|
                                    0 <= mm < m && #[trigger] hits(
                                        lm,
                                        x,
                                        kids@[i as int].1@[mm].0 as int,
                                        fuel,
                                    ))) ==> exists|k: int|
                                    0 <= k < out@.len() && (#[trigger] out@[k]).0 as int == x,
                        decreases nm - m,
                    {
                        let centry = kids.entry_at(i);
                        let c = centry.1[m].0;
                        let off = centry.1[m].1;
                        proof {
                            assert(lm.contains_key(c as int));
                            assert(lm[c as int] == ((p as int, off@)));
                            assert(!lm.contains_key(p as int));
                            assert(pfg.contains_key(p as int));
                            assert(chainf(lm, pfg, p as int, (fuel - 1) as nat) == Some(
                                pfg[p as int],
                            ));
                            assert(chainf(lm, pfg, c as int, fuel) == Some(
                                compose_of(pfg[p as int], affine_of(off@)),
                            ));
                        }
                        let ca = to_affine(&off);
                        let cb = compose(&rg, &ca);
                        let ghost pre = out@;
                        collect(&kids, c, cb, &mut out, Ghost(lm), Ghost(pfg));
                        m += 1;
                        proof {
                            assert forall|k: int| 0 <= k < pre.len() implies out@[k] == pre[k] by {
                                assert(out@.subrange(0, pre.len() as int)[k] == out@[k]);
                            }
                            assert(out@.subrange(0, out_in.len() as int) =~= out_in);
                            assert forall|k: int| 0 <= k < out@.len() implies entry_good(
                                lm,
                                pfg,
                                out@[k],
                            ) by {
                                if k < pre.len() {
                                    assert(out@[k] == pre[k]);
                                    assert(entry_good(lm, pfg, pre[k]));
                                }
                            }
                            let m0 = m - 1;
                            assert forall|x: int|
                                (lm.contains_key(x) && chainf(lm, pfg, x, fuel).is_some() && (
                                exists|mm: int|
                                    0 <= mm < m && #[trigger] hits(
                                        lm,
                                        x,
                                        kids@[i as int].1@[mm].0 as int,
                                        fuel,
                                    ))) implies exists|k: int|
                                0 <= k < out@.len() && (#[trigger] out@[k]).0 as int == x by {
                                let mm = choose|mm: int|
                                    0 <= mm < m && #[trigger] hits(
                                        lm,
                                        x,
                                        kids@[i as int].1@[mm].0 as int,
                                        fuel,
                                    );
                                if mm < m0 {
                                } else {
                                    assert(kids@[i as int].1@[mm].0 == c);
                                    assert(hits(lm, x, c as int, fuel));
                                }
                            }
                        }
                    }
                    proof {
                        assert forall|x: int|
                            (lm.contains_key(x) && chainf(lm, pfg, x, fuel).is_some() && (exists|
                                ii: int,
                            |
                                0 <= ii < i + 1 && (#[trigger] kids@[ii]).0 as int == topf(
                                    lm,
                                    x,
                                    fuel,
                                )->Some_0)) implies exists|k: int|
                            0 <= k < out@.len() && (#[trigger] out@[k]).0 as int == x by {
                            let ii = choose|ii: int|
                                0 <= ii < i + 1 && (#[trigger] kids@[ii]).0 as int == topf(
                                    lm,
                                    x,
                                    fuel,
                                )->Some_0;
                            if ii < i {
                                assert forall|k: int| 0 <= k < out_in.len() implies out@[k]
                                    == out_in[k] by {
                                    assert(out@.subrange(0, out_in.len() as int)[k] == out@[k]);
                                }
                            } else {
                                lemma_root_anchor(lm, pfg, x, fuel);
                                let r = topf(lm, x, fuel)->Some_0;
                                let a = anchor(lm, x, r, fuel);
                                assert(r == p as int);
                                let (aii, am) = choose|aii: int, am: int|
                                    0 <= aii < kids@.len() && 0 <= am < kids@[aii].1@.len() && (
                                    #[trigger] kids@[aii].1@[am]).0 as int == a;
                                assert(kids@[aii].0 as int == lm[a].0);
                                if aii != i as int {
                                    assert(kids@[aii].0 != kids@[i as int].0);
                                    assert(false);
                                }
                                assert(hits(lm, x, kids@[i as int].1@[am].0 as int, fuel));
                            }
                        }
                    }
                },
                None => {
                    proof {
                        assert forall|x: int|
                            (lm.contains_key(x) && chainf(lm, pfg, x, fuel).is_some() && (exists|
                                ii: int,
                            |
                                0 <= ii < i + 1 && (#[trigger] kids@[ii]).0 as int == topf(
                                    lm,
                                    x,
                                    fuel,
                                )->Some_0)) implies exists|k: int|
                            0 <= k < out@.len() && (#[trigger] out@[k]).0 as int == x by {
                            let ii = choose|ii: int|
                                0 <= ii < i + 1 && (#[trigger] kids@[ii]).0 as int == topf(
                                    lm,
                                    x,
                                    fuel,
                                )->Some_0;
                            if ii == i as int {
                                lemma_root_anchor(lm, pfg, x, fuel);
                                assert(pfg.contains_key(p as int));
                                assert(false);
                            }
                        }
                    }
                },
            }
        } else {
            proof {
                assert forall|x: int|
                    (lm.contains_key(x) && chainf(lm, pfg, x, fuel).is_some() && (exists|ii: int|
                        0 <= ii < i + 1 && (#[trigger] kids@[ii]).0 as int == topf(
                            lm,
                            x,
                            fuel,
                        )->Some_0)) implies exists|k: int|
                    0 <= k < out@.len() && (#[trigger] out@[k]).0 as int == x by {
                    let ii = choose|ii: int|
                        0 <= ii < i + 1 && (#[trigger] kids@[ii]).0 as int == topf(
                            lm,
                            x,
                            fuel,
                        )->Some_0;
                    if ii == i as int {
                        lemma_root_anchor(lm, pfg, x, fuel);
                        assert(lm.contains_key(p as int));
                        assert(false);
                    }
                }
            }
        }
        i += 1;
    }
    proof {
        assert forall|x: int|
            lm.contains_key(x) && chainf(lm, pfg, x, fuel).is_some() implies exists|k: int|
            0 <= k < out@.len() && (#[trigger] out@[k]).0 as int == x by {
            lemma_root_anchor(lm, pfg, x, fuel);
            let r = topf(lm, x, fuel)->Some_0;
            let a = anchor(lm, x, r, fuel);
            let (aii, am) = choose|aii: int, am: int|
                0 <= aii < kids@.len() && 0 <= am < kids@[aii].1@.len() && (#[trigger] kids@[
                    aii
                ].1@[am]).0 as int == a;
            assert(kids@[aii].0 as int == r);
            assert(0 <= aii < nk && kids@[aii].0 as int == topf(lm, x, fuel)->Some_0);
        }
    }

    // Write the cascaded poses back.
    let no = out.len();
    let mut i: usize = 0;
    while i < no
        invariant
            i <= no,
            w_transforms(*w) == tm,
            w_links(*w) == lm,
            w_sprites(*w) == w_sprites(*old(w)),
            w_models(*w) == w_models(*old(w)),
            w_uis(*w) == w_uis(*old(w)),
            w_cameras(*w) == w_cameras(*old(w)),
            w_globals(*w).dom() == gm0.dom(),
            forall|e: int|
                #[trigger] gm0.contains_key(e) ==> w_globals(*w)[e] == if (exists|k: int|
                    0 <= k < i && (#[trigger] out@[k]).0 as int == e) {
                    chainf(lm, pfg, e, fuel)->Some_0
                } else {
                    pfg[e]
                },
        decreases no - i,
    {
        let ghost i0 = i as int;
        write_global(w, out[i].0, &out[i].1);
        i += 1;
        proof {
            assert forall|e: int| #[trigger] gm0.contains_key(e) implies w_globals(*w)[e] == (
            if (exists|k: int| 0 <= k < i && (#[trigger] out@[k]).0 as int == e) {
                chainf(lm, pfg, e, fuel)->Some_0
            } else {
                pfg[e]
            }) by {
                if e == out@[i0].0 as int {
                    assert(entry_good(lm, pfg, out@[i0]));
                    assert(0 <= i0 < i && out@[i0].0 as int == e);
                } else {
                    if exists|k: int| 0 <= k < i && (#[trigger] out@[k]).0 as int == e {
                        let k = choose|k: int|
                            0 <= k < i && (#[trigger] out@[k]).0 as int == e;
                        assert(0 <= k < i0 && out@[k].0 as int == e);
                    }
                }
            }
        }
    }

    // Assemble the contract: every seeded pose is at its resolved value.
    proof {
        assert forall|e: int| #[trigger] gm0.contains_key(e) implies w_globals(*w)[e]
            == resolved_value(tm, gm0, lm, e) by {
            if lm.contains_key(e) && chainf(lm, pfg, e, fuel).is_some() {
            } else {
                if exists|k: int| 0 <= k < no && (#[trigger] out@[k]).0 as int == e {
                    let k = choose|k: int| 0 <= k < no && (#[trigger] out@[k]).0 as int == e;
                    assert(entry_good(lm, pfg, out@[k]));
                    assert(false);
                }
            }
        }
    }
}


/// Flat correctness: an entity holding a local pose and a world pose, with
/// no parent link, resolves exactly to the affine form of its local pose.
pub proof fn lemma_flat_correct(
    tm: Map<int, Seq<u32>>,
    gm: Map<int, Seq<u32>>,
    lm: Map<int, (int, Seq<u32>)>,
    e: int,
)
    requires
        gm.contains_key(e),
        tm.contains_key(e),
        !lm.contains_key(e),
    ensures
        resolved_value(tm, gm, lm, e) == affine_of(tm[e]),
{
}

/// Hierarchy composition: for a chain root -> a -> b where the root is not
/// itself linked and seeds to pose `i0`, `a` resolves to `i0` composed with
/// its offset, and `b` to that, composed with its own offset.
pub proof fn lemma_chain_composition(
    tm: Map<int, Seq<u32>>,
    gm: Map<int, Seq<u32>>,
    lm: Map<int, (int, Seq<u32>)>,
    r: int,
    a: int,
    b: int,
)
    requires
        lm.dom().finite(),
        !lm.contains_key(r),
        gm.contains_key(r),
        lm.contains_key(a),
        lm[a].0 == r,
        lm.contains_key(b),
        lm[b].0 == a,
    ensures
        resolved_value(tm, gm, lm, a) == compose_of(flat_value(tm, gm, r), affine_of(lm[a].1)),
        resolved_value(tm, gm, lm, b) == compose_of(
            compose_of(flat_value(tm, gm, r), affine_of(lm[a].1)),
            affine_of(lm[b].1),
        ),
{
    let pfg = flat_globals(tm, gm);
    let f = fuel_of(lm);
    assert(a != b);
    assert(Set::empty().insert(a).insert(b).subset_of(lm.dom()));
    assert(Set::empty().insert(a).insert(b).len() == 2);
    lemma_len_subset(Set::empty().insert(a).insert(b), lm.dom());
    assert(f >= 3);
    assert(chainf(lm, pfg, r, (f - 2) as nat) == Some(pfg[r]));
    assert(chainf(lm, pfg, a, (f - 1) as nat) == Some(
        compose_of(pfg[r], affine_of(lm[a].1)),
    ));
    lemma_chain_mono(lm, pfg, a, (f - 1) as nat, f);
}

/// Orphan skip: an entity whose parent link points at an entity that holds
/// no world pose and is itself not linked — a dangling parent — keeps its
/// seeded value; if it carries no local pose of its own, that is its
/// previous world pose, byte for byte.
pub proof fn lemma_orphan_skip(
    tm: Map<int, Seq<u32>>,
    gm: Map<int, Seq<u32>>,
    lm: Map<int, (int, Seq<u32>)>,
    x: int,
)
    requires
        gm.contains_key(x),
        lm.contains_key(x),
        !lm.contains_key(lm[x].0),
        !gm.contains_key(lm[x].0),
        !tm.contains_key(x),
    ensures
        resolved_value(tm, gm, lm, x) == gm[x],
{
    let pfg = flat_globals(tm, gm);
    let f = fuel_of(lm);
    assert(chainf(lm, pfg, lm[x].0, (f - 1) as nat) is None);
}

} // verus!
