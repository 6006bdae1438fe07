//! The engine shell: shared state, the host-application callback surface,
//! and the frame driver's in-core steps.
//!
//! One frame runs in a fixed order: the host's `update` callback mutates
//! entities, the spatial resolver flattens the transform hierarchy, the
//! renderer orchestrator syncs cameras and preps every pipeline, the host
//! replays the plans on the device and presents (or abandons the frame if
//! no surface is available), and the transient input state is cleared
//! last. Everything device- or window-facing lives with the host; the
//! state here is what the verified core reads and writes.

use vstd::prelude::*;

use crate::orchestrator::{FramePhase, FramePrep, RendererState};
use crate::registry::{
    fresh_world, w_cameras, w_globals, w_links, w_models, w_sprites, w_transforms, w_uis,
};
use crate::spatial::resolve_world;
use crate::Size;

verus! {

/// Pressed / just-pressed / released sets over plain key codes; the
/// transient sets are cleared at the end of every frame, the pressed set
/// persists.
pub struct Input {
    pressed: Vec<u32>,
    just_pressed: Vec<u32>,
    released: Vec<u32>,
}

impl Input {
    pub closed spec fn spec_pressed(self) -> Seq<u32> {
        self.pressed@
    }

    pub closed spec fn spec_just_pressed(self) -> Seq<u32> {
        self.just_pressed@
    }

    pub closed spec fn spec_released(self) -> Seq<u32> {
        self.released@
    }

    pub fn new() -> (r: Input)
        ensures
            r.spec_pressed() =~= Seq::<u32>::empty(),
            r.spec_just_pressed() =~= Seq::<u32>::empty(),
            r.spec_released() =~= Seq::<u32>::empty(),
    {
        Input { pressed: Vec::new(), just_pressed: Vec::new(), released: Vec::new() }
    }

    pub fn pressed(&self, input: u32) -> (r: bool)
        ensures
            r == self.spec_pressed().contains(input),
    {
        member_u32(&self.pressed, input)
    }

    pub fn just_pressed(&self, input: u32) -> (r: bool)
        ensures
            r == self.spec_just_pressed().contains(input),
    {
        member_u32(&self.just_pressed, input)
    }

    pub fn released(&self, input: u32) -> (r: bool)
        ensures
            r == self.spec_released().contains(input),
    {
        member_u32(&self.released, input)
    }

    /// Record a key transition: a press joins the pressed and just-pressed
    /// sets, a release leaves the pressed set and joins the released set.
    pub fn process(&mut self, val: u32, is_pressed: bool)
        ensures
            is_pressed ==> {
                &&& forall|x: u32|
                    #[trigger] final(self).spec_pressed().contains(x) <==> (x == val || old(
                        self,
                    ).spec_pressed().contains(x))
                &&& forall|x: u32|
                    #[trigger] final(self).spec_just_pressed().contains(x) <==> (x == val || old(
                        self,
                    ).spec_just_pressed().contains(x))
                &&& final(self).spec_released() == old(self).spec_released()
            },
            !is_pressed ==> {
                &&& forall|x: u32|
                    #[trigger] final(self).spec_pressed().contains(x) <==> (x != val && old(
                        self,
                    ).spec_pressed().contains(x))
                &&& forall|x: u32|
                    #[trigger] final(self).spec_released().contains(x) <==> (x == val || old(
                        self,
                    ).spec_released().contains(x))
                &&& final(self).spec_just_pressed() == old(self).spec_just_pressed()
            },
    {
        if is_pressed {
            push_unique(&mut self.pressed, val);
            push_unique(&mut self.just_pressed, val);
        } else {
            remove_value(&mut self.pressed, val);
            push_unique(&mut self.released, val);
        }
    }

    /// Clear the transient sets at the end of a frame; pressed keys stay
    /// pressed.
    pub fn reset(&mut self)
        ensures
            final(self).spec_pressed() == old(self).spec_pressed(),
            final(self).spec_just_pressed() =~= Seq::<u32>::empty(),
            final(self).spec_released() =~= Seq::<u32>::empty(),
    {
        self.just_pressed = Vec::new();
        self.released = Vec::new();
    }
}

/// Append `val` unless it is already present.
fn push_unique(v: &mut Vec<u32>, val: u32)
    ensures
        forall|x: u32|
            #[trigger] final(v)@.contains(x) <==> (x == val || old(v)@.contains(x)),
{
    if !member_u32(v, val) {
        let ghost v0 = v@;
        v.push(val);
        proof {
            assert forall|x: u32| #[trigger] v@.contains(x) <==> (x == val || v0.contains(x)) by {
                if v@.contains(x) {
                    let i = choose|i: int| 0 <= i < v@.len() && v@[i] == x;
                    if i < v0.len() {
                        assert(v0[i] == x);
                    }
                }
                if v0.contains(x) {
                    let i = choose|i: int| 0 <= i < v0.len() && v0[i] == x;
                    assert(v@[i] == x);
                }
                if x == val {
                    assert(v@[v@.len() - 1] == val);
                }
            }
        }
    }
}

/// Remove every occurrence of `val`.
fn remove_value(v: &mut Vec<u32>, val: u32)
    ensures
        forall|x: u32|
            #[trigger] final(v)@.contains(x) <==> (x != val && old(v)@.contains(x)),
{
    let mut out: Vec<u32> = Vec::new();
    let n = v.len();
    let mut i: usize = 0;
    while i < n
        invariant
            i <= n,
            n == v@.len(),
            forall|x: u32|
                #[trigger] out@.contains(x) <==> (x != val && (exists|j: int|
                    0 <= j < i && v@[j] == x)),
        decreases n - i,
    {
        let x = v[i];
        if x != val {
            let ghost o0 = out@;
            out.push(x);
            proof {
                assert forall|y: u32| #[trigger] out@.contains(y) <==> (y != val && (exists|j: int|
                    0 <= j < i + 1 && v@[j] == y)) by {
                    if out@.contains(y) {
                        let k = choose|k: int| 0 <= k < out@.len() && out@[k] == y;
                        if k < o0.len() {
                            assert(o0[k] == y);
                            assert(o0.contains(y));
                            let j = choose|j: int| 0 <= j < i && v@[j] == y;
                            assert(0 <= j < i + 1 && v@[j] == y);
                        } else {
                            assert(y == x);
                            assert(v@[i as int] == y);
                        }
                    }
                    if y != val && (exists|j: int| 0 <= j < i + 1 && v@[j] == y) {
                        let j = choose|j: int| 0 <= j < i + 1 && v@[j] == y;
                        if j < i {
                            assert(o0.contains(y));
                            let k = choose|k: int| 0 <= k < o0.len() && o0[k] == y;
                            assert(out@[k] == y);
                        } else {
                            assert(y == x);
                            assert(out@[out@.len() - 1] == y);
                        }
                    }
                }
            }
        } else {
            proof {
                assert forall|y: u32| #[trigger] out@.contains(y) <==> (y != val && (exists|j: int|
                    0 <= j < i + 1 && v@[j] == y)) by {
                    if y != val && (exists|j: int| 0 <= j < i + 1 && v@[j] == y) {
                        let j = choose|j: int| 0 <= j < i + 1 && v@[j] == y;
                        assert(0 <= j < i && v@[j] == y);
                    }
                }
            }
        }
        i += 1;
    }
    *v = out;
}

/// Linear membership test on a key-code list.
fn member_u32(v: &Vec<u32>, k: u32) -> (r: bool)
    ensures
        r == v@.contains(k),
{
    let mut i: usize = 0;
    while i < v.len()
        invariant
            i <= v@.len(),
            forall|j: int| 0 <= j < i ==> v@[j] != k,
        decreases v@.len() - i,
    {
        if v[i] == k {
            return true;
        }
        i += 1;
    }
    false
}

/// The engine's shared state: the entity registry, the renderer
/// orchestrator and the input sets. The windowing, timing and device
/// handles live with the host that embeds this state.
pub struct State {
    pub world: hecs::World,
    pub renderer: RendererState,
    pub keys: Input,
    pub mouse_buttons: Input,
}

impl State {
    pub open spec fn wf(self) -> bool {
        self.renderer.wf()
    }

    pub fn new() -> (r: State)
        ensures
            r.wf(),
            r.renderer.phase == FramePhase::Idle,
            r.renderer.pipelines@.len() == 0,
    {
        State {
            world: fresh_world(),
            renderer: RendererState::new(),
            keys: Input::new(),
            mouse_buttons: Input::new(),
        }
    }

    pub fn world(&self) -> &hecs::World {
        &self.world
    }

    pub fn keys(&self) -> &Input {
        &self.keys
    }

    pub fn mouse_buttons(&self) -> &Input {
        &self.mouse_buttons
    }

    /// The in-core half of one frame, after the host's update callback:
    /// resolve the transform hierarchy, then sync cameras and prep every
    /// pipeline. The host replays the returned prep on the device, then
    /// calls `end_frame`.
    pub fn advance_frame(&mut self) -> (r: FramePrep)
        requires
            old(self).wf(),
            old(self).renderer.phase == FramePhase::Idle,
        ensures
            final(self).wf(),
            final(self).renderer.phase == FramePhase::Prepped,
            final(self).keys == old(self).keys,
            final(self).mouse_buttons == old(self).mouse_buttons,
            w_transforms(final(self).world) == w_transforms(old(self).world),
            w_links(final(self).world) == w_links(old(self).world),
            w_sprites(final(self).world) == w_sprites(old(self).world),
            w_models(final(self).world) == w_models(old(self).world),
            w_uis(final(self).world) == w_uis(old(self).world),
            w_cameras(final(self).world) == w_cameras(old(self).world),
            w_globals(final(self).world).dom() == w_globals(old(self).world).dom(),
    {
        resolve_world(&mut self.world);
        self.renderer.tick_prep(&mut self.world)
    }

    /// The end of a frame, after the host presented the frame (or
    /// abandoned it at surface acquisition): the transient input state is
    /// cleared, pressed keys and the cycle's prep results persist.
    pub fn end_frame(&mut self, presented: bool)
        requires
            old(self).wf(),
            old(self).renderer.phase == FramePhase::Prepped,
        ensures
            final(self).wf(),
            final(self).renderer.phase == FramePhase::Idle,
            final(self).renderer.pipelines == old(self).renderer.pipelines,
            final(self).keys.spec_pressed() == old(self).keys.spec_pressed(),
            final(self).keys.spec_just_pressed() =~= Seq::<u32>::empty(),
            final(self).keys.spec_released() =~= Seq::<u32>::empty(),
            final(self).mouse_buttons.spec_pressed() == old(self).mouse_buttons.spec_pressed(),
            final(self).mouse_buttons.spec_just_pressed() =~= Seq::<u32>::empty(),
            final(self).mouse_buttons.spec_released() =~= Seq::<u32>::empty(),
    {
        if presented {
            self.renderer.frame_presented();
        } else {
            self.renderer.frame_abandoned();
        }
        self.keys.reset();
        self.mouse_buttons.reset();
    }
}

/// The host application's per-frame callback surface. A callback may
/// mutate entities and inputs freely; it leaves the renderer's pipeline
/// table well formed and does not move the frame cycle.
pub trait App {
    fn resize(&mut self, state: &mut State, size: Size)
        ensures
            old(state).wf() ==> final(state).wf(),
            final(state).renderer.phase == old(state).renderer.phase,
    ;

    fn update(&mut self, state: &mut State)
        ensures
            old(state).wf() ==> final(state).wf(),
            final(state).renderer.phase == old(state).renderer.phase,
    ;
}

/// The default host application: it installs nothing and mutates nothing.
pub struct Game;

impl App for Game {
    fn resize(&mut self, state: &mut State, size: Size) {
    }

    fn update(&mut self, state: &mut State) {
    }
}

/// Drive one headless engine cycle with the default application: build a
/// fresh state, run the update callback, resolve and prep, and abandon
/// the frame at surface acquisition, exactly as a windowed host does when
/// no surface is available. A windowed host performs the same sequence
/// per tick, replaying each prep on its device between `advance_frame`
/// and `end_frame`.
pub fn run() {
    let mut state = State::new();
    let mut game = Game;
    game.update(&mut state);
    let _prep = state.advance_frame();
    state.end_frame(false);
}

} // verus!
