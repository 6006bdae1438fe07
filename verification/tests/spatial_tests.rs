//! Transform hierarchy resolution, checked against glam's own arithmetic.

use stage3d::mathx::Transform;
use stage3d::registry::{GlobalTransform, LocalTransform};
use stage3d::spatial::resolve_world;

fn bits3(v: [f32; 3]) -> [u32; 3] {
    [v[0].to_bits(), v[1].to_bits(), v[2].to_bits()]
}

fn quat_identity() -> [u32; 4] {
    [0.0f32.to_bits(), 0.0f32.to_bits(), 0.0f32.to_bits(), 1.0f32.to_bits()]
}

fn translate(x: f32, y: f32, z: f32) -> Transform {
    Transform::new(bits3([x, y, z]), quat_identity(), bits3([1.0, 1.0, 1.0]))
}

fn identity_affine() -> stage3d::mathx::Affine {
    let words = glam::Affine3A::IDENTITY.to_cols_array().map(f32::to_bits);
    stage3d::mathx::Affine::from_words(words)
}

fn affine_floats(a: &stage3d::mathx::Affine) -> [f32; 12] {
    a.w.map(f32::from_bits)
}

#[test]
fn flat_pass_matches_affine_form() {
    let mut w = hecs::World::new();
    let t = translate(1.0, 2.0, 3.0);
    let e = w.spawn((t, GlobalTransform(identity_affine())));

    resolve_world(&mut w);

    let got = w.get::<&GlobalTransform>(e).unwrap().0;
    let expected = glam::Affine3A::from_scale_rotation_translation(
        glam::Vec3::ONE,
        glam::Quat::IDENTITY,
        glam::Vec3::new(1.0, 2.0, 3.0),
    )
    .to_cols_array()
    .map(f32::to_bits);
    assert_eq!(got.w, expected);
}

#[test]
fn hierarchy_composes_down_the_chain() {
    let mut w = hecs::World::new();
    let root = w.spawn((GlobalTransform(identity_affine()),));
    let a = w.spawn((
        LocalTransform { parent: root.to_bits().get(), transform: translate(1.0, 0.0, 0.0) },
        GlobalTransform(identity_affine()),
    ));
    let b = w.spawn((
        LocalTransform { parent: a.to_bits().get(), transform: translate(0.0, 1.0, 0.0) },
        GlobalTransform(identity_affine()),
    ));

    resolve_world(&mut w);

    let ga = w.get::<&GlobalTransform>(a).unwrap().0;
    let fa = affine_floats(&ga);
    assert_eq!(&fa[9..12], &[1.0, 0.0, 0.0]);

    let gb = w.get::<&GlobalTransform>(b).unwrap().0;
    let fb = affine_floats(&gb);
    assert_eq!(&fb[9..12], &[1.0, 1.0, 0.0]);
}

#[test]
fn orphan_keeps_previous_world_pose() {
    let mut w = hecs::World::new();
    let dangling = {
        let tmp = w.spawn((7u8,));
        w.despawn(tmp).unwrap();
        tmp.to_bits().get()
    };
    let before = glam::Affine3A::from_scale_rotation_translation(
        glam::Vec3::ONE,
        glam::Quat::IDENTITY,
        glam::Vec3::new(5.0, 6.0, 7.0),
    )
    .to_cols_array()
    .map(f32::to_bits);
    let x = w.spawn((
        LocalTransform { parent: dangling, transform: translate(9.0, 9.0, 9.0) },
        GlobalTransform(stage3d::mathx::Affine::from_words(before)),
    ));

    resolve_world(&mut w);

    let got = w.get::<&GlobalTransform>(x).unwrap().0;
    assert_eq!(got.w, before);
}

#[test]
fn parent_cycle_terminates_and_leaves_poses_alone() {
    let mut w = hecs::World::new();
    let before = identity_affine().w;
    let a = w.spawn((GlobalTransform(identity_affine()),));
    let b = w.spawn((GlobalTransform(identity_affine()),));
    w.insert_one(a, LocalTransform { parent: b.to_bits().get(), transform: translate(1.0, 0.0, 0.0) })
        .unwrap();
    w.insert_one(b, LocalTransform { parent: a.to_bits().get(), transform: translate(0.0, 1.0, 0.0) })
        .unwrap();

    resolve_world(&mut w);

    assert_eq!(w.get::<&GlobalTransform>(a).unwrap().0.w, before);
    assert_eq!(w.get::<&GlobalTransform>(b).unwrap().0.w, before);
}

#[test]
fn link_offset_wins_over_local_pose() {
    let mut w = hecs::World::new();
    let root = w.spawn((GlobalTransform(identity_affine()),));
    let a = w.spawn((
        translate(100.0, 100.0, 100.0),
        LocalTransform { parent: root.to_bits().get(), transform: translate(2.0, 0.0, 0.0) },
        GlobalTransform(identity_affine()),
    ));

    resolve_world(&mut w);

    let fa = affine_floats(&w.get::<&GlobalTransform>(a).unwrap().0);
    assert_eq!(&fa[9..12], &[2.0, 0.0, 0.0]);
}
