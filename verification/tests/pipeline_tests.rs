//! Pipeline preps against a live registry: the sprite scenario, model
//! resource pruning, and the billboarded menu pass.

use stage3d::mathx::Affine;
use stage3d::model::{ModelRenderer, part_key};
use stage3d::registry::{CameraRig, GlobalTransform, Model, ModelPart, Sprite, Ui3d};
use stage3d::sprite::TextureRenderer;
use stage3d::ui3d::Ui3dRenderer;

fn identity_affine() -> Affine {
    Affine::from_words(glam::Affine3A::IDENTITY.to_cols_array().map(f32::to_bits))
}

fn affine_at(x: f32, y: f32, z: f32) -> Affine {
    let a = glam::Affine3A::from_scale_rotation_translation(
        glam::Vec3::ONE,
        glam::Quat::IDENTITY,
        glam::Vec3::new(x, y, z),
    );
    Affine::from_words(a.to_cols_array().map(f32::to_bits))
}

fn white() -> [u32; 4] {
    [1.0f32.to_bits(); 4]
}

fn sprite(texture: u64) -> Sprite {
    Sprite { texture, size: [16.0f32.to_bits(), 16.0f32.to_bits()], color: white() }
}

#[test]
fn sprite_scenario_two_textures_then_one() {
    let mut w = hecs::World::new();
    let _s1 = w.spawn((GlobalTransform(identity_affine()), sprite(1)));
    let _s2 = w.spawn((GlobalTransform(identity_affine()), sprite(1)));
    let s3 = w.spawn((GlobalTransform(identity_affine()), sprite(2)));

    let mut tr = TextureRenderer::new();
    let plan = tr.prep(&w);
    let mut created = plan.created.clone();
    created.sort();
    assert_eq!(created, vec![1, 2]);

    let draws = tr.draw_list();
    assert_eq!(draws.len(), 2);
    assert!(draws.contains(&(1u64, 2usize)));
    assert!(draws.contains(&(2u64, 1usize)));

    w.despawn(s3).unwrap();
    let plan = tr.prep(&w);
    assert_eq!(plan.removed, vec![2]);
    let draws = tr.draw_list();
    assert_eq!(draws, vec![(1u64, 2usize)]);
}

#[test]
fn sprite_record_packs_the_pose_matrix() {
    let mut w = hecs::World::new();
    let pose = affine_at(3.0, 4.0, 5.0);
    w.spawn((GlobalTransform(pose), sprite(9)));

    let mut tr = TextureRenderer::new();
    tr.prep(&w);
    let slot = tr.batches.slots.get(9).unwrap();
    assert_eq!(slot.records.len(), 1);

    let expected = glam::Mat4::from(glam::Affine3A::from_cols_array(
        &pose.w.map(f32::from_bits),
    ))
    .to_cols_array()
    .map(f32::to_bits);
    assert_eq!(slot.records[0].transform, expected);
    assert_eq!(slot.records[0].size, [16.0f32.to_bits(), 16.0f32.to_bits()]);
}

#[test]
fn model_prunes_resources_no_longer_referenced() {
    let mut w = hecs::World::new();
    let m1 = w.spawn((
        GlobalTransform(identity_affine()),
        Model {
            parts: vec![ModelPart { mesh: 1, texture: 10 }],
            color: white(),
            scale: [1.0f32.to_bits(); 3],
        },
    ));
    let m2 = w.spawn((
        GlobalTransform(identity_affine()),
        Model {
            parts: vec![ModelPart { mesh: 2, texture: 20 }],
            color: white(),
            scale: [1.0f32.to_bits(); 3],
        },
    ));
    let _keep = m1;

    let mut mr = ModelRenderer::new();
    let plan = mr.prep(&w);
    let mut created = plan.created.clone();
    created.sort();
    assert_eq!(created, vec![part_key(1, 10), part_key(2, 20)]);
    assert!(mr.mesh_storage.contains(1));
    assert!(mr.mesh_storage.contains(2));
    assert!(mr.texture_storage.contains(10));
    assert!(mr.texture_storage.contains(20));

    w.despawn(m2).unwrap();
    let plan = mr.prep(&w);
    assert_eq!(plan.removed, vec![part_key(2, 20)]);
    assert!(mr.mesh_storage.contains(1));
    assert!(!mr.mesh_storage.contains(2));
    assert!(mr.texture_storage.contains(10));
    assert!(!mr.texture_storage.contains(20));
}

#[test]
fn model_record_uses_rotation_only_normal_matrix() {
    let mut w = hecs::World::new();
    let pose = glam::Affine3A::from_scale_rotation_translation(
        glam::Vec3::new(2.0, 3.0, 4.0),
        glam::Quat::from_rotation_y(0.5),
        glam::Vec3::new(1.0, 0.0, 0.0),
    );
    let pose_words = Affine::from_words(pose.to_cols_array().map(f32::to_bits));
    w.spawn((
        GlobalTransform(pose_words),
        Model {
            parts: vec![ModelPart { mesh: 1, texture: 1 }],
            color: white(),
            scale: [1.0f32.to_bits(); 3],
        },
    ));

    let mut mr = ModelRenderer::new();
    mr.prep(&w);
    let slot = mr.batches.slots.get(part_key(1, 1)).unwrap();
    let rotation = pose.to_scale_rotation_translation().1;
    let expected = glam::Mat3::from_quat(rotation).to_cols_array().map(f32::to_bits);
    assert_eq!(slot.records[0].normal, expected);
}

#[test]
fn ui_prep_without_camera_is_skipped() {
    let mut w = hecs::World::new();
    w.spawn((
        GlobalTransform(identity_affine()),
        Ui3d {
            menu_color: white(),
            selection_color: white(),
            options: vec!["one".to_string()],
            selected: 0,
            font_size: 30.0f32.to_bits(),
        },
    ));
    let mut ur = Ui3dRenderer::new();
    assert!(ur.prep(&mut w).is_none());
}

#[test]
fn ui_prep_faces_panels_at_the_camera() {
    let mut w = hecs::World::new();
    let _cam = w.spawn((CameraRig, GlobalTransform(affine_at(0.0, 0.0, -5.0))));
    let panel = w.spawn((
        GlobalTransform(affine_at(1.0, 2.0, 3.0)),
        Ui3d {
            menu_color: white(),
            selection_color: white(),
            options: vec!["alpha".to_string(), "be".to_string()],
            selected: 1,
            font_size: 30.0f32.to_bits(),
        },
    ));

    let mut ur = Ui3dRenderer::new();
    let plan = ur.prep(&mut w).unwrap();
    assert_eq!(plan.created, vec![panel.to_bits().get()]);

    let faced = w.get::<&GlobalTransform>(panel).unwrap().0;
    let expected = glam::camera::lh::view::look_at_affine3a(
        glam::Vec3::new(1.0, 2.0, 3.0),
        glam::Vec3::new(0.0, 0.0, -5.0),
        glam::Vec3::Y,
    )
    .to_cols_array()
    .map(f32::to_bits);
    assert_eq!(faced.w, expected);

    let rec = ur.panels.slots.get(panel.to_bits().get()).unwrap().records[0];
    assert_eq!(rec.line_count, 2);
    assert_eq!(rec.picked_len, 2);
    assert_eq!(rec.selected, 1);
}

#[test]
fn ui_panel_bundle_is_dropped_with_the_component() {
    let mut w = hecs::World::new();
    let _cam = w.spawn((CameraRig, GlobalTransform(identity_affine())));
    let panel = w.spawn((
        GlobalTransform(affine_at(0.0, 0.0, 4.0)),
        Ui3d {
            menu_color: white(),
            selection_color: white(),
            options: vec![],
            selected: 0,
            font_size: 10.0f32.to_bits(),
        },
    ));

    let mut ur = Ui3dRenderer::new();
    ur.prep(&mut w).unwrap();
    assert!(ur.panels.slots.get(panel.to_bits().get()).is_some());

    w.remove_one::<Ui3d>(panel).unwrap();
    let plan = ur.prep(&mut w).unwrap();
    assert_eq!(plan.removed, vec![panel.to_bits().get()]);
    assert!(ur.panels.slots.get(panel.to_bits().get()).is_none());
}
