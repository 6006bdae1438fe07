//! The engine shell: input sets, pipeline registration order, and the
//! frame cycle driven headlessly.

use stage3d::engine::{run, App, Game, Input, State};
use stage3d::mathx::{Affine, Transform};
use stage3d::orchestrator::{FramePhase, Pipeline, RendererState};
use stage3d::registry::{CameraRig, GlobalTransform, Sprite};
use stage3d::sprite::TextureRenderer;
use stage3d::ui3d::Ui3dRenderer;

#[test]
fn input_tracks_press_and_release() {
    let mut input = Input::new();
    input.process(42, true);
    assert!(input.pressed(42));
    assert!(input.just_pressed(42));
    assert!(!input.released(42));

    input.reset();
    assert!(input.pressed(42));
    assert!(!input.just_pressed(42));

    input.process(42, false);
    assert!(!input.pressed(42));
    assert!(input.released(42));

    input.reset();
    assert!(!input.released(42));
}

#[test]
fn pipelines_are_ordered_by_priority_with_stable_ties() {
    let mut r = RendererState::new();
    r.add_pipeline(Pipeline::Texture(TextureRenderer::new()), 5);
    r.add_pipeline(Pipeline::Ui(Ui3dRenderer::new()), 1);
    r.add_pipeline(Pipeline::Texture(TextureRenderer::new()), 5);
    r.add_pipeline(Pipeline::Ui(Ui3dRenderer::new()), 3);

    let priorities: Vec<usize> = r.pipelines.iter().map(|e| e.priority).collect();
    assert_eq!(priorities, vec![1, 3, 5, 5]);
    assert!(matches!(r.pipelines[0].pipeline, Pipeline::Ui(_)));
    assert!(matches!(r.pipelines[1].pipeline, Pipeline::Ui(_)));
    assert!(matches!(r.pipelines[2].pipeline, Pipeline::Texture(_)));
    assert!(matches!(r.pipelines[3].pipeline, Pipeline::Texture(_)));
}

#[test]
fn frame_cycle_preps_and_returns_to_idle() {
    let mut state = State::new();
    state.renderer.add_pipeline(Pipeline::Texture(TextureRenderer::new()), 0);

    let cam_pose = Affine::from_words(glam::Affine3A::IDENTITY.to_cols_array().map(f32::to_bits));
    let cam_local = Transform::new(
        [0.0f32.to_bits(); 3],
        [0.0f32.to_bits(), 0.0f32.to_bits(), 0.0f32.to_bits(), 1.0f32.to_bits()],
        [1.0f32.to_bits(); 3],
    );
    let cam = state.world.spawn((CameraRig, cam_local, GlobalTransform(cam_pose)));
    state.world.spawn((
        GlobalTransform(cam_pose),
        Sprite { texture: 7, size: [1.0f32.to_bits(); 2], color: [1.0f32.to_bits(); 4] },
    ));

    let prep = state.advance_frame();
    assert_eq!(state.renderer.phase, FramePhase::Prepped);
    assert_eq!(prep.plans.len(), 1);
    assert_eq!(prep.camera_syncs.len(), 1);
    assert_eq!(prep.camera_syncs[0].0, cam.to_bits().get());

    let draws = state.renderer.draw_lists();
    assert_eq!(draws.len(), 1);
    assert_eq!(draws[0], vec![(7u64, 1usize)]);

    state.end_frame(false);
    assert_eq!(state.renderer.phase, FramePhase::Idle);

    let prep = state.advance_frame();
    assert_eq!(prep.plans.len(), 1);
    let draws = state.renderer.draw_lists();
    assert_eq!(draws[0], vec![(7u64, 1usize)]);
    state.end_frame(true);
    assert_eq!(state.renderer.phase, FramePhase::Idle);
}

#[test]
fn default_app_callbacks_are_inert() {
    let mut state = State::new();
    let mut game = Game;
    game.update(&mut state);
    game.resize(&mut state, stage3d::Size::new(640, 480));
    assert_eq!(state.renderer.phase, FramePhase::Idle);
}

#[test]
fn run_drives_one_headless_cycle() {
    run();
}
