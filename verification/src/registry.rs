//! The shared entity registry and its component types.
//!
//! Entities live in a `hecs::World` owned by the engine state; an entity is
//! identified outside the registry by the plain integer form of its handle.
//! The registry is opaque to the verifier, so the contents of each component
//! kind are named by an uninterpreted map from entity identifier to the
//! component's plain-value view, and every query or write the engine's logic
//! makes goes through a trusted wrapper whose contract is stated over those
//! maps.

use vstd::prelude::*;

use crate::mathx::{Affine, Transform};

verus! {

#[verifier::external_type_specification]
#[verifier::external_body]
pub struct ExWorld(hecs::World);

/// The resolved world-space pose of an entity, written by the spatial
/// resolver each frame and read by every pipeline.
#[derive(Clone, Copy)]
pub struct GlobalTransform(pub Affine);

impl View for GlobalTransform {
    type V = Seq<u32>;

    open spec fn view(&self) -> Seq<u32> {
        self.0@
    }
}

/// A parent link: the entity's pose is `transform` relative to `parent`'s
/// world-space pose. An entity carrying this component is a hierarchy
/// member, and the offset here takes precedence over any `Transform` it may
/// also carry.
#[derive(Clone, Copy)]
pub struct LocalTransform {
    pub parent: u64,
    pub transform: Transform,
}

impl View for LocalTransform {
    type V = (int, Seq<u32>);

    open spec fn view(&self) -> (int, Seq<u32>) {
        (self.parent as int, self.transform@)
    }
}

/// A 2D sprite: a texture identity plus per-instance size (2 words) and
/// color (4 words), each word an `f32` bit pattern.
#[derive(Clone)]
pub struct Sprite {
    pub texture: u64,
    pub size: [u32; 2],
    pub color: [u32; 4],
}

impl View for Sprite {
    type V = (int, Seq<u32>);

    open spec fn view(&self) -> (int, Seq<u32>) {
        (self.texture as int, self.size@ + self.color@)
    }
}

/// One mesh-texture pairing of a model.
#[derive(Clone, Copy)]
pub struct ModelPart {
    pub mesh: u32,
    pub texture: u32,
}

/// A 3D model: mesh-texture parts plus per-instance color (4 words) and
/// scale (3 words).
#[derive(Clone)]
pub struct Model {
    pub parts: Vec<ModelPart>,
    pub color: [u32; 4],
    pub scale: [u32; 3],
}

impl View for Model {
    type V = (Seq<(int, int)>, Seq<u32>);

    open spec fn view(&self) -> (Seq<(int, int)>, Seq<u32>) {
        (
            self.parts@.map_values(|p: ModelPart| (p.mesh as int, p.texture as int)),
            self.color@ + self.scale@,
        )
    }
}

/// A billboarded menu panel: option lines, the selected line, and colors
/// and font size as `f32` bit-pattern words.
#[derive(Clone)]
pub struct Ui3d {
    pub menu_color: [u32; 4],
    pub selection_color: [u32; 4],
    pub options: Vec<String>,
    pub selected: u8,
    pub font_size: u32,
}

impl View for Ui3d {
    type V = (Seq<Seq<char>>, int, Seq<u32>);

    open spec fn view(&self) -> (Seq<Seq<char>>, int, Seq<u32>) {
        (
            self.options@.map_values(|s: String| s@),
            self.selected as int,
            self.menu_color@ + self.selection_color@ + seq![self.font_size],
        )
    }
}

/// Marks the entity whose pose drives the active camera. The projection
/// parameters themselves are device-side state owned by the host.
#[derive(Clone, Copy)]
pub struct CameraRig;

/// The local poses in the registry, one per entity holding a `Transform`.
pub uninterp spec fn w_transforms(w: hecs::World) -> Map<int, Seq<u32>>;

/// The resolved world poses, one per entity holding a `GlobalTransform`.
pub uninterp spec fn w_globals(w: hecs::World) -> Map<int, Seq<u32>>;

/// The parent links, one per entity holding a `LocalTransform`.
pub uninterp spec fn w_links(w: hecs::World) -> Map<int, (int, Seq<u32>)>;

/// The sprites, one per entity holding a `Sprite`.
pub uninterp spec fn w_sprites(w: hecs::World) -> Map<int, (int, Seq<u32>)>;

/// The models, one per entity holding a `Model`.
pub uninterp spec fn w_models(w: hecs::World) -> Map<int, (Seq<(int, int)>, Seq<u32>)>;

/// The menu panels, one per entity holding a `Ui3d`.
pub uninterp spec fn w_uis(w: hecs::World) -> Map<int, (Seq<Seq<char>>, int, Seq<u32>)>;

/// The entities holding a `CameraRig`.
pub uninterp spec fn w_cameras(w: hecs::World) -> Set<int>;

/// Relies on `hecs::World::new`: a fresh, empty registry.
#[verifier::external_body]
pub fn fresh_world() -> hecs::World {
    hecs::World::new()
}

/// Relies on `hecs::World::query` over `(&Transform, &GlobalTransform)`:
/// the query yields each entity holding both components exactly once, with
/// its components.
#[verifier::external_body]
pub(crate) fn read_flat_pairs(w: &hecs::World) -> (r: Vec<(u64, Transform)>)
    ensures
        forall|i: int, j: int|
            0 <= i < j < r@.len() ==> (#[trigger] r@[i]).0 != (#[trigger] r@[j]).0,
        forall|i: int|
            0 <= i < r@.len() ==> {
                &&& w_transforms(*w).contains_key((#[trigger] r@[i]).0 as int)
                &&& w_globals(*w).contains_key(r@[i].0 as int)
                &&& r@[i].1@ == w_transforms(*w)[r@[i].0 as int]
            },
        forall|e: int|
            #[trigger] w_transforms(*w).contains_key(e) && w_globals(*w).contains_key(e)
                ==> exists|i: int| 0 <= i < r@.len() && (#[trigger] r@[i]).0 == e,
{
    let mut out = Vec::new();
    for (e, t, _g) in w.query::<(hecs::Entity, &Transform, &GlobalTransform)>().iter() {
        out.push((e.to_bits().get(), *t));
    }
    out
}

/// Relies on `hecs::World::query` over `&LocalTransform`: the query yields
/// each entity holding a parent link exactly once, with its link.
#[verifier::external_body]
pub(crate) fn read_links(w: &hecs::World) -> (r: Vec<(u64, u64, Transform)>)
    ensures
        forall|i: int, j: int|
            0 <= i < j < r@.len() ==> (#[trigger] r@[i]).0 != (#[trigger] r@[j]).0,
        forall|i: int|
            0 <= i < r@.len() ==> {
                &&& w_links(*w).contains_key((#[trigger] r@[i]).0 as int)
                &&& w_links(*w)[r@[i].0 as int] == (r@[i].1 as int, r@[i].2@)
            },
        forall|e: int|
            #[trigger] w_links(*w).contains_key(e)
                ==> exists|i: int| 0 <= i < r@.len() && (#[trigger] r@[i]).0 == e,
{
    let mut out = Vec::new();
    for (e, l) in w.query::<(hecs::Entity, &LocalTransform)>().iter() {
        out.push((e.to_bits().get(), l.parent, l.transform));
    }
    out
}

/// Relies on `hecs::World::get` for `GlobalTransform`: the lookup returns
/// the entity's component when present.
#[verifier::external_body]
pub(crate) fn read_global(w: &hecs::World, e: u64) -> (r: Option<Affine>)
    ensures
        match r {
            Some(a) => w_globals(*w).contains_key(e as int) && a@ == w_globals(*w)[e as int],
            None => !w_globals(*w).contains_key(e as int),
        },
{
    match hecs::Entity::from_bits(e) {
        Some(ent) => match w.get::<&GlobalTransform>(ent) {
            Ok(g) => Some(g.0),
            Err(_) => None,
        },
        None => None,
    }
}

/// Relies on `hecs::World::get` for `&mut GlobalTransform`: the write
/// replaces the entity's component when present and does nothing otherwise;
/// no other component changes.
#[verifier::external_body]
pub(crate) fn write_global(w: &mut hecs::World, e: u64, a: &Affine)
    ensures
        w_globals(*final(w)) == if w_globals(*old(w)).contains_key(e as int) {
            w_globals(*old(w)).insert(e as int, a@)
        } else {
            w_globals(*old(w))
        },
        w_transforms(*final(w)) == w_transforms(*old(w)),
        w_links(*final(w)) == w_links(*old(w)),
        w_sprites(*final(w)) == w_sprites(*old(w)),
        w_models(*final(w)) == w_models(*old(w)),
        w_uis(*final(w)) == w_uis(*old(w)),
        w_cameras(*final(w)) == w_cameras(*old(w)),
{
    if let Some(ent) = hecs::Entity::from_bits(e) {
        if let Ok(mut g) = w.get::<&mut GlobalTransform>(ent) {
            g.0 = *a;
        }
    }
}

/// Relies on `hecs::World::query` over `(&GlobalTransform, &Sprite)`: the
/// query yields each entity holding both exactly once, with its components.
#[verifier::external_body]
pub(crate) fn read_sprites(w: &hecs::World) -> (r: Vec<(u64, Affine, Sprite)>)
    ensures
        forall|i: int, j: int|
            0 <= i < j < r@.len() ==> (#[trigger] r@[i]).0 != (#[trigger] r@[j]).0,
        forall|i: int|
            0 <= i < r@.len() ==> {
                &&& w_globals(*w).contains_key((#[trigger] r@[i]).0 as int)
                &&& w_sprites(*w).contains_key(r@[i].0 as int)
                &&& r@[i].1@ == w_globals(*w)[r@[i].0 as int]
                &&& r@[i].2@ == w_sprites(*w)[r@[i].0 as int]
            },
        forall|e: int|
            #[trigger] w_globals(*w).contains_key(e) && w_sprites(*w).contains_key(e)
                ==> exists|i: int| 0 <= i < r@.len() && (#[trigger] r@[i]).0 == e,
{
    let mut out = Vec::new();
    for (e, g, s) in w.query::<(hecs::Entity, &GlobalTransform, &Sprite)>().iter() {
        out.push((e.to_bits().get(), g.0, s.clone()));
    }
    out
}

/// Relies on `hecs::World::query` over `(&GlobalTransform, &Model)`: the
/// query yields each entity holding both exactly once, with its components.
#[verifier::external_body]
pub(crate) fn read_models(w: &hecs::World) -> (r: Vec<(u64, Affine, Model)>)
    ensures
        forall|i: int, j: int|
            0 <= i < j < r@.len() ==> (#[trigger] r@[i]).0 != (#[trigger] r@[j]).0,
        forall|i: int|
            0 <= i < r@.len() ==> {
                &&& w_globals(*w).contains_key((#[trigger] r@[i]).0 as int)
                &&& w_models(*w).contains_key(r@[i].0 as int)
                &&& r@[i].1@ == w_globals(*w)[r@[i].0 as int]
                &&& r@[i].2@ == w_models(*w)[r@[i].0 as int]
            },
        forall|e: int|
            #[trigger] w_globals(*w).contains_key(e) && w_models(*w).contains_key(e)
                ==> exists|i: int| 0 <= i < r@.len() && (#[trigger] r@[i]).0 == e,
{
    let mut out = Vec::new();
    for (e, g, m) in w.query::<(hecs::Entity, &GlobalTransform, &Model)>().iter() {
        out.push((e.to_bits().get(), g.0, m.clone()));
    }
    out
}

/// Relies on `hecs::World::query` over `(&GlobalTransform, &Ui3d)`: the
/// query yields each entity holding both exactly once, with its components.
#[verifier::external_body]
pub(crate) fn read_uis(w: &hecs::World) -> (r: Vec<(u64, Affine, Ui3d)>)
    ensures
        forall|i: int, j: int|
            0 <= i < j < r@.len() ==> (#[trigger] r@[i]).0 != (#[trigger] r@[j]).0,
        forall|i: int|
            0 <= i < r@.len() ==> {
                &&& w_globals(*w).contains_key((#[trigger] r@[i]).0 as int)
                &&& w_uis(*w).contains_key(r@[i].0 as int)
                &&& r@[i].1@ == w_globals(*w)[r@[i].0 as int]
                &&& r@[i].2@ == w_uis(*w)[r@[i].0 as int]
            },
        forall|e: int|
            #[trigger] w_globals(*w).contains_key(e) && w_uis(*w).contains_key(e)
                ==> exists|i: int| 0 <= i < r@.len() && (#[trigger] r@[i]).0 == e,
{
    let mut out = Vec::new();
    for (e, g, u) in w.query::<(hecs::Entity, &GlobalTransform, &Ui3d)>().iter() {
        out.push((e.to_bits().get(), g.0, u.clone()));
    }
    out
}

/// Relies on `hecs::World::query` over `(&CameraRig, &Transform)`: the
/// query yields each camera entity holding a local pose exactly once.
#[verifier::external_body]
pub(crate) fn read_camera_syncs(w: &hecs::World) -> (r: Vec<(u64, Transform)>)
    ensures
        forall|i: int, j: int|
            0 <= i < j < r@.len() ==> (#[trigger] r@[i]).0 != (#[trigger] r@[j]).0,
        forall|i: int|
            0 <= i < r@.len() ==> {
                &&& w_cameras(*w).contains((#[trigger] r@[i]).0 as int)
                &&& w_transforms(*w).contains_key(r@[i].0 as int)
                &&& r@[i].1@ == w_transforms(*w)[r@[i].0 as int]
            },
        forall|e: int|
            #[trigger] w_cameras(*w).contains(e) && w_transforms(*w).contains_key(e)
                ==> exists|i: int| 0 <= i < r@.len() && (#[trigger] r@[i]).0 == e,
{
    let mut out = Vec::new();
    for (e, _c, t) in w.query::<(hecs::Entity, &CameraRig, &Transform)>().iter() {
        out.push((e.to_bits().get(), *t));
    }
    out
}

/// Relies on `hecs::World::query` over `(&CameraRig, &GlobalTransform)`:
/// the query yields only camera entities holding a world pose, and is empty
/// exactly when there is none.
#[verifier::external_body]
pub(crate) fn first_camera_global(w: &hecs::World) -> (r: Option<(u64, Affine)>)
    ensures
        match r {
            Some(p) => {
                &&& w_cameras(*w).contains(p.0 as int)
                &&& w_globals(*w).contains_key(p.0 as int)
                &&& p.1@ == w_globals(*w)[p.0 as int]
            },
            None => forall|e: int|
                !(w_cameras(*w).contains(e) && #[trigger] w_globals(*w).contains_key(e)),
        },
{
    match w.query::<(hecs::Entity, &CameraRig, &GlobalTransform)>().iter().next() {
        Some((e, _c, g)) => Some((e.to_bits().get(), g.0)),
        None => None,
    }
}

} // verus!
