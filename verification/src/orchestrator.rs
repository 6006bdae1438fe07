//! The renderer orchestrator.
//!
//! It owns the registered pipelines, ordered by a numeric priority fixed
//! at registration (a stable order: equal priorities keep registration
//! order), and drives one cycle per frame: camera sync data is gathered
//! before any pipeline preps, every pipeline preps in ascending priority
//! order, and the draw lists are then produced in the same order. The
//! cycle is a two-phase machine: `tick_prep` moves it from idle to
//! prepped, and either `frame_presented` or `frame_abandoned` returns it
//! to idle — abandoning a frame (the surface was unavailable) keeps every
//! prep result, so the next cycle reuses the same buffers.

use vstd::prelude::*;

use crate::batch::BatchPlan;
use crate::mathx::Transform;
use crate::model::ModelRenderer;
use crate::registry::{
    read_camera_syncs, w_cameras, w_globals, w_links, w_models, w_sprites, w_transforms, w_uis,
};
use crate::sprite::TextureRenderer;
use crate::ui3d::Ui3dRenderer;

verus! {

/// One registered pipeline.
pub enum Pipeline {
    Model(ModelRenderer),
    Texture(TextureRenderer),
    Ui(Ui3dRenderer),
}

impl Pipeline {
    pub open spec fn wf(self) -> bool {
        match self {
            Pipeline::Model(p) => p.wf(),
            Pipeline::Texture(p) => p.wf(),
            Pipeline::Ui(p) => p.wf(),
        }
    }
}

/// A pipeline with its registration priority.
pub struct PipelineEntry {
    pub priority: usize,
    pub pipeline: Pipeline,
}

/// What one pipeline's prep reported.
pub enum PipelinePlan {
    Model(BatchPlan),
    Texture(BatchPlan),
    Ui(Option<BatchPlan>),
}

/// Everything the host needs to replay one frame's prep on the device:
/// the camera entities to sync before drawing, and each pipeline's plan
/// in priority order.
pub struct FramePrep {
    pub camera_syncs: Vec<(u64, Transform)>,
    pub plans: Vec<PipelinePlan>,
}

/// Where the frame cycle stands.
#[derive(PartialEq, Eq, Structural, Debug, Clone, Copy)]
pub enum FramePhase {
    Idle,
    Prepped,
}

/// The renderer orchestrator; see the module description.
pub struct RendererState {
    pub pipelines: Vec<PipelineEntry>,
    pub phase: FramePhase,
}

impl RendererState {
    pub open spec fn wf(self) -> bool {
        &&& forall|i: int, j: int|
            0 <= i < j < self.pipelines@.len() ==> (#[trigger] self.pipelines@[i]).priority <= (
            #[trigger] self.pipelines@[j]).priority
        &&& forall|i: int| 0 <= i < self.pipelines@.len() ==> (#[trigger] self.pipelines@[i]).pipeline.wf()
    }

    pub fn new() -> (r: RendererState)
        ensures
            r.wf(),
            r.pipelines@ =~= Seq::<PipelineEntry>::empty(),
            r.phase == FramePhase::Idle,
    {
        RendererState { pipelines: Vec::new(), phase: FramePhase::Idle }
    }

    /// Register a pipeline at the given priority: it is placed after every
    /// pipeline of the same or lower priority already registered, so equal
    /// priorities keep registration order.
    pub fn add_pipeline(&mut self, pipeline: Pipeline, priority: usize)
        requires
            old(self).wf(),
            pipeline.wf(),
        ensures
            final(self).wf(),
            final(self).phase == old(self).phase,
            final(self).pipelines@.len() == old(self).pipelines@.len() + 1,
            exists|idx: int|
                {
                    &&& 0 <= idx <= old(self).pipelines@.len()
                    &&& #[trigger] final(self).pipelines@ =~= old(self).pipelines@.subrange(
                        0,
                        idx,
                    ).push(PipelineEntry { priority, pipeline }) + old(self).pipelines@.subrange(
                        idx,
                        old(self).pipelines@.len() as int,
                    )
                    &&& forall|j: int|
                        0 <= j < idx ==> (#[trigger] old(self).pipelines@[j]).priority <= priority
                    &&& forall|j: int|
                        idx <= j < old(self).pipelines@.len() ==> (
                        #[trigger] old(self).pipelines@[j]).priority > priority
                },
    {
        let n = self.pipelines.len();
        let mut idx: usize = 0;
        while idx < n && self.pipelines[idx].priority <= priority
            invariant
                idx <= n,
                n == self.pipelines@.len(),
                self == old(self),
                forall|j: int| 0 <= j < idx ==> (#[trigger] self.pipelines@[j]).priority <= priority,
            decreases n - idx,
        {
            idx += 1;
        }
        proof {
            assert forall|j: int|
                idx <= j < self.pipelines@.len() implies (
            #[trigger] self.pipelines@[j]).priority > priority by {
                if j > idx {
                    assert(self.pipelines@[idx as int].priority <= self.pipelines@[j].priority);
                }
            }
        }
        let entry = PipelineEntry { priority, pipeline };
        self.pipelines.insert(idx, entry);
        proof {
            let pre = old(self).pipelines@;
            assert(self.pipelines@ =~= pre.subrange(0, idx as int).push(entry) + pre.subrange(
                idx as int,
                pre.len() as int,
            ));
            assert forall|i: int, j: int|
                0 <= i < j < self.pipelines@.len() implies (
            #[trigger] self.pipelines@[i]).priority <= (#[trigger] self.pipelines@[j]).priority by {
                let pi = if i < idx {
                    pre[i].priority as int
                } else if i == idx {
                    priority as int
                } else {
                    pre[i - 1].priority as int
                };
                assert(self.pipelines@[i].priority == pi);
            }
        }
    }

    /// Run one frame's camera sync and prep sequence: gather the camera
    /// entities to sync, then prep every pipeline in ascending priority
    /// order, and hand back the per-pipeline plans. Idle to prepped.
    pub fn tick_prep(&mut self, w: &mut hecs::World) -> (r: FramePrep)
        requires
            old(self).wf(),
            old(self).phase == FramePhase::Idle,
        ensures
            final(self).wf(),
            final(self).phase == FramePhase::Prepped,
            w_transforms(*final(w)) == w_transforms(*old(w)),
            w_links(*final(w)) == w_links(*old(w)),
            w_sprites(*final(w)) == w_sprites(*old(w)),
            w_models(*final(w)) == w_models(*old(w)),
            w_uis(*final(w)) == w_uis(*old(w)),
            w_cameras(*final(w)) == w_cameras(*old(w)),
            w_globals(*final(w)).dom() == w_globals(*old(w)).dom(),
            final(self).pipelines@.len() == old(self).pipelines@.len(),
            forall|j: int|
                0 <= j < final(self).pipelines@.len()
                    ==> (#[trigger] final(self).pipelines@[j]).priority
                    == old(self).pipelines@[j].priority,
            r.plans@.len() == old(self).pipelines@.len(),
            forall|j: int|
                0 <= j < r.plans@.len() ==> match (#[trigger] r.plans@[j]) {
                    PipelinePlan::Model(_) => final(self).pipelines@[j].pipeline is Model,
                    PipelinePlan::Texture(_) => final(self).pipelines@[j].pipeline is Texture,
                    PipelinePlan::Ui(_) => final(self).pipelines@[j].pipeline is Ui,
                },
            forall|i: int, j: int|
                0 <= i < j < r.camera_syncs@.len() ==> (#[trigger] r.camera_syncs@[i]).0 != (
                #[trigger] r.camera_syncs@[j]).0,
            forall|i: int|
                0 <= i < r.camera_syncs@.len() ==> {
                    &&& w_cameras(*old(w)).contains((#[trigger] r.camera_syncs@[i]).0 as int)
                    &&& w_transforms(*old(w)).contains_key(r.camera_syncs@[i].0 as int)
                    &&& r.camera_syncs@[i].1@ == w_transforms(*old(w))[r.camera_syncs@[i].0 as int]
                },
            forall|e: int|
                #[trigger] w_cameras(*old(w)).contains(e) && w_transforms(*old(w)).contains_key(e)
                    ==> exists|i: int|
                    0 <= i < r.camera_syncs@.len() && (#[trigger] r.camera_syncs@[i]).0 == e,
    {
        let camera_syncs = read_camera_syncs(w);
        let n = self.pipelines.len();
        let mut plans: Vec<PipelinePlan> = Vec::new();
        let mut i: usize = 0;
        while i < n
            invariant
                i <= n,
                n == self.pipelines@.len(),
                plans@.len() == i,
                self.phase == old(self).phase,
                self.wf(),
                w_transforms(*w) == w_transforms(*old(w)),
                w_links(*w) == w_links(*old(w)),
                w_sprites(*w) == w_sprites(*old(w)),
                w_models(*w) == w_models(*old(w)),
                w_uis(*w) == w_uis(*old(w)),
                w_cameras(*w) == w_cameras(*old(w)),
                w_globals(*w).dom() == w_globals(*old(w)).dom(),
                self.pipelines@.len() == old(self).pipelines@.len(),
                forall|j: int|
                    0 <= j < self.pipelines@.len() ==> (#[trigger] self.pipelines@[j]).priority
                        == old(self).pipelines@[j].priority,
                forall|j: int|
                    0 <= j < i ==> match (#[trigger] plans@[j]) {
                        PipelinePlan::Model(_) => self.pipelines@[j].pipeline is Model,
                        PipelinePlan::Texture(_) => self.pipelines@[j].pipeline is Texture,
                        PipelinePlan::Ui(_) => self.pipelines@[j].pipeline is Ui,
                    },
            decreases n - i,
        {
            let ghost pre = self.pipelines@;
            let entry = &mut self.pipelines[i];
            let plan = match &mut entry.pipeline {
                Pipeline::Model(p) => PipelinePlan::Model(p.prep(w)),
                Pipeline::Texture(p) => PipelinePlan::Texture(p.prep(w)),
                Pipeline::Ui(p) => PipelinePlan::Ui(p.prep(w)),
            };
            plans.push(plan);
            let ghost post = self.pipelines@;
            proof {
                assert forall|j: int|
                    0 <= j < i + 1 implies match (#[trigger] plans@[j]) {
                    PipelinePlan::Model(_) => post[j].pipeline is Model,
                    PipelinePlan::Texture(_) => post[j].pipeline is Texture,
                    PipelinePlan::Ui(_) => post[j].pipeline is Ui,
                } by {
                    if j < i {
                        assert(post[j] == pre[j]);
                    }
                }
                assert forall|j: int|
                    0 <= j < self.pipelines@.len() implies (
                #[trigger] self.pipelines@[j]).priority == old(self).pipelines@[j].priority by {
                    if j != i {
                        assert(self.pipelines@[j] == pre[j]);
                    } else {
                        assert(self.pipelines@[j].priority == pre[j].priority);
                    }
                }
                assert forall|ii: int, j: int|
                    0 <= ii < j < self.pipelines@.len() implies (
                #[trigger] self.pipelines@[ii]).priority <= (
                #[trigger] self.pipelines@[j]).priority by {
                    assert(old(self).pipelines@[ii].priority <= old(self).pipelines@[j].priority);
                }
            }
            i += 1;
        }
        self.phase = FramePhase::Prepped;
        FramePrep { camera_syncs, plans }
    }

    /// The per-pipeline draw lists, in the same priority order as prep:
    /// for each pipeline, one entry per live batch with its instance
    /// count.
    pub fn draw_lists(&self) -> (r: Vec<Vec<(u64, usize)>>)
        requires
            self.wf(),
            self.phase == FramePhase::Prepped,
        ensures
            r@.len() == self.pipelines@.len(),
            forall|j: int|
                0 <= j < r@.len() ==> match (#[trigger] self.pipelines@[j]).pipeline {
                    Pipeline::Model(p) => (#[trigger] r@[j])@.len() == p.batches@.len() && (forall|
                        k: int,
                    |
                        0 <= k < p.batches@.len() ==> (#[trigger] r@[j]@[k]) == (
                            p.batches@[k].0,
                            p.batches@[k].1.records@.len() as usize,
                        )),
                    Pipeline::Texture(p) => (#[trigger] r@[j])@.len() == p.batches@.len() && (
                    forall|k: int|
                        0 <= k < p.batches@.len() ==> (#[trigger] r@[j]@[k]) == (
                            p.batches@[k].0,
                            p.batches@[k].1.records@.len() as usize,
                        )),
                    Pipeline::Ui(p) => (#[trigger] r@[j])@.len() == p.panels@.len() && (forall|
                        k: int,
                    |
                        0 <= k < p.panels@.len() ==> (#[trigger] r@[j]@[k]) == (
                            p.panels@[k].0,
                            p.panels@[k].1.records@.len() as usize,
                        )),
                },
    {
        let n = self.pipelines.len();
        let mut r: Vec<Vec<(u64, usize)>> = Vec::new();
        let mut i: usize = 0;
        while i < n
            invariant
                i <= n,
                n == self.pipelines@.len(),
                self.wf(),
                r@.len() == i,
                forall|j: int|
                    0 <= j < i ==> match (#[trigger] self.pipelines@[j]).pipeline {
                        Pipeline::Model(p) => (#[trigger] r@[j])@.len() == p.batches@.len() && (
                        forall|k: int|
                            0 <= k < p.batches@.len() ==> (#[trigger] r@[j]@[k]) == (
                                p.batches@[k].0,
                                p.batches@[k].1.records@.len() as usize,
                            )),
                        Pipeline::Texture(p) => (#[trigger] r@[j])@.len() == p.batches@.len() && (
                        forall|k: int|
                            0 <= k < p.batches@.len() ==> (#[trigger] r@[j]@[k]) == (
                                p.batches@[k].0,
                                p.batches@[k].1.records@.len() as usize,
                            )),
                        Pipeline::Ui(p) => (#[trigger] r@[j])@.len() == p.panels@.len() && (forall|
                            k: int,
                        |
                            0 <= k < p.panels@.len() ==> (#[trigger] r@[j]@[k]) == (
                                p.panels@[k].0,
                                p.panels@[k].1.records@.len() as usize,
                            )),
                    },
            decreases n - i,
        {
            let list = match &self.pipelines[i].pipeline {
                Pipeline::Model(p) => p.draw_list(),
                Pipeline::Texture(p) => p.draw_list(),
                Pipeline::Ui(p) => p.draw_list(),
            };
            r.push(list);
            i += 1;
        }
        r
    }

    /// The frame was submitted and presented: back to idle.
    pub fn frame_presented(&mut self)
        requires
            old(self).phase == FramePhase::Prepped,
        ensures
            *final(self) == (RendererState { phase: FramePhase::Idle, ..*old(self) }),
    {
        self.phase = FramePhase::Idle;
    }

    /// The surface was unavailable, the frame is abandoned without a
    /// draw: back to idle with every prep result retained.
    pub fn frame_abandoned(&mut self)
        requires
            old(self).phase == FramePhase::Prepped,
        ensures
            *final(self) == (RendererState { phase: FramePhase::Idle, ..*old(self) }),
    {
        self.phase = FramePhase::Idle;
    }
}

} // verus!
