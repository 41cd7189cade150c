//! The decisions of the pointer grab that moves the plane around.
//!
//! The grab first watches how far the pointer travels; once it has travelled far enough it
//! turns into a plane pan and stays one until it is released. A grab started on the view
//! offset is a plane pan from the start.
use vstd::prelude::*;

verus! {

/// What the grab is doing.
#[derive(Debug, Clone, Copy, PartialEq, Eq, Structural)]
pub enum GestureState {
    /// Deciding whether the pointer moves far enough to pan the plane.
    Recognizing,
    /// Panning the plane.
    Plane,
}

/// What a frame of pointer events asks of the caller.
#[derive(Debug, Clone, Copy, PartialEq, Eq, Structural)]
pub enum FrameStep {
    /// No event arrived since the last frame: nothing to do, the grab goes on.
    Idle,
    /// Still deciding: redraw the output, the grab goes on.
    KeepRecognizing,
    /// The pointer has travelled far enough: begin a plane pan and move it by the whole travel.
    BeginPlane,
    /// Move the ongoing plane pan by the frame's delta.
    UpdatePlane,
}

/// The state and step that a frame leads to.
pub open spec fn frame_spec(gesture: GestureState, has_event: bool, moved_far: bool) -> (GestureState, FrameStep) {
    if !has_event {
        (gesture, FrameStep::Idle)
    } else {
        match gesture {
            GestureState::Recognizing => if moved_far {
                (GestureState::Plane, FrameStep::BeginPlane)
            } else {
                (GestureState::Recognizing, FrameStep::KeepRecognizing)
            },
            GestureState::Plane => (GestureState::Plane, FrameStep::UpdatePlane),
        }
    }
}

/// The grab: the data it started with, the output it acts on and what it is doing.
pub struct SpatialMovementGrab<D, O> {
    start_data: D,
    output: O,
    gesture: GestureState,
}

impl<D, O> SpatialMovementGrab<D, O> {
    /// What the grab is doing.
    pub closed spec fn gesture(&self) -> GestureState {
        self.gesture
    }

    /// The data the grab started with.
    pub closed spec fn start_data_spec(&self) -> D {
        self.start_data
    }

    /// The output the grab acts on.
    pub closed spec fn output_spec(&self) -> O {
        self.output
    }

    /// A grab on `output`; it pans the plane from the start when it began on the view offset.
    pub fn new(start_data: D, output: O, is_view_offset: bool) -> (grab: Self)
        ensures
            grab.start_data_spec() == start_data,
            grab.output_spec() == output,
            grab.gesture() == (if is_view_offset {
                GestureState::Plane
            } else {
                GestureState::Recognizing
            }),
    {
        let gesture = if is_view_offset {
            GestureState::Plane
        } else {
            GestureState::Recognizing
        };
        SpatialMovementGrab { start_data, output, gesture }
    }

    /// The output whose view offset the grab moves: its output while it pans the plane.
    pub fn view_offset_output(&self) -> (output: Option<&O>)
        ensures
            output.is_some() == (self.gesture() == GestureState::Plane),
            output matches Some(o) ==> *o == self.output_spec(),
    {
        match self.gesture {
            GestureState::Plane => Some(&self.output),
            GestureState::Recognizing => None,
        }
    }

    /// The output on which the grab switches workspaces: never one.
    pub fn workspace_switch_output(&self) -> (output: Option<&O>)
        ensures
            output.is_none(),
    {
        None
    }

    /// The data the grab started with.
    pub fn start_data(&self) -> (data: &D)
        ensures
            *data == self.start_data_spec(),
    {
        &self.start_data
    }

    /// The output the grab acts on.
    pub fn output(&self) -> (output: &O)
        ensures
            *output == self.output_spec(),
    {
        &self.output
    }

    /// Decides what a frame does. `has_event` tells whether a pointer event arrived since the
    /// last frame, `moved_far` whether the pointer is now far enough from where the grab began.
    pub fn frame(&mut self, has_event: bool, moved_far: bool) -> (step: FrameStep)
        ensures
            (final(self).gesture(), step) == frame_spec(old(self).gesture(), has_event, moved_far),
            !has_event ==> step == FrameStep::Idle && final(self).gesture() == old(self).gesture(),
            has_event && old(self).gesture() == GestureState::Plane ==> step == FrameStep::UpdatePlane
                && final(self).gesture() == GestureState::Plane,
            has_event && old(self).gesture() == GestureState::Recognizing && moved_far ==> step
                == FrameStep::BeginPlane && final(self).gesture() == GestureState::Plane,
            has_event && old(self).gesture() == GestureState::Recognizing && !moved_far ==> step
                == FrameStep::KeepRecognizing && final(self).gesture() == GestureState::Recognizing,
            final(self).start_data_spec() == old(self).start_data_spec(),
            final(self).output_spec() == old(self).output_spec(),
    {
        if !has_event {
            return FrameStep::Idle;
        }
        match self.gesture {
            GestureState::Recognizing => {
                if moved_far {
                    self.gesture = GestureState::Plane;
                    FrameStep::BeginPlane
                } else {
                    FrameStep::KeepRecognizing
                }
            },
            GestureState::Plane => FrameStep::UpdatePlane,
        }
    }

    /// Whether releasing the grab ends a plane pan.
    pub fn ends_plane_on_release(&self) -> (ends: bool)
        ensures
            ends == (self.gesture() == GestureState::Plane),
    {
        match self.gesture {
            GestureState::Plane => true,
            GestureState::Recognizing => false,
        }
    }
}

/// Once the grab pans the plane it keeps doing so, whatever frames follow.
pub proof fn law_plane_is_final(gesture: GestureState, has_event: bool, moved_far: bool)
    requires
        gesture == GestureState::Plane,
    ensures
        frame_spec(gesture, has_event, moved_far).0 == GestureState::Plane,
{
}

/// While the grab pans the plane, every frame with an event updates the pan by its delta,
/// however far the pointer is from where the grab began.
pub proof fn law_panning_frames_update(moved_far: bool)
    ensures
        frame_spec(GestureState::Plane, true, moved_far) == (GestureState::Plane, FrameStep::UpdatePlane),
{
}

/// The distance from the start of the grab matters only while recognizing: a frame with an event
/// in any other state does the same whatever the distance.
pub proof fn law_distance_matters_only_while_recognizing(gesture: GestureState, a: bool, b: bool)
    requires
        gesture != GestureState::Recognizing,
    ensures
        frame_spec(gesture, true, a) == frame_spec(gesture, true, b),
{
}

/// While recognizing, a frame with an event begins the pan exactly when the pointer has moved
/// far enough, and otherwise keeps recognizing.
pub proof fn law_recognizing_frames(moved_far: bool)
    ensures
        frame_spec(GestureState::Recognizing, true, moved_far) == (if moved_far {
            (GestureState::Plane, FrameStep::BeginPlane)
        } else {
            (GestureState::Recognizing, FrameStep::KeepRecognizing)
        }),
{
}

/// A frame without an event changes nothing.
pub proof fn law_idle_frame_keeps_state(gesture: GestureState, moved_far: bool)
    ensures
        frame_spec(gesture, false, moved_far) == (gesture, FrameStep::Idle),
{
}

/// The pan begins exactly once: only a frame that leaves recognition begins it.
pub proof fn law_pan_begins_on_leaving_recognition(gesture: GestureState, has_event: bool, moved_far: bool)
    ensures
        frame_spec(gesture, has_event, moved_far).1 == FrameStep::BeginPlane <==> (gesture
            == GestureState::Recognizing && frame_spec(gesture, has_event, moved_far).0
            == GestureState::Plane),
{
}

} // verus!
