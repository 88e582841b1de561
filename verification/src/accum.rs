//! Temporal-accumulation control: the per-frame blend weight and the
//! ping-pong role assignment of the two persistent history buffers.
//!
//! Two image buffers, "A" and "B", alternate the roles of "previous history"
//! (read) and "new accumulation target" (write) every frame. The controller is
//! told once per frame whether the camera moved and whether the output was
//! resized, and answers with the blend weight for that frame; the weight itself
//! is applied by the accumulation kernel outside this crate.

use vstd::prelude::*;

verus! {

/// The blend weight for one frame, as a retention level.
///
/// The numeric weight uploaded to the accumulation kernel is
/// [`HistoryBlend::permille`] / 1000.
#[derive(Clone, Copy, Debug, PartialEq, Eq, Structural)]
pub enum HistoryBlend {
    /// History discarded entirely (weight 0.0): the output was just resized,
    /// so both buffers hold stale or uninitialized data.
    Reset,
    /// Only a small fraction of history kept (weight 0.2): the camera moved,
    /// invalidating most of the previous accumulation.
    Moving,
    /// Maximal retention (weight 1.0): the viewpoint is unchanged, so noise is
    /// averaged down across identical frames.
    Still,
}

impl HistoryBlend {
    pub open spec fn spec_permille(self) -> u32 {
        match self {
            HistoryBlend::Reset => 0,
            HistoryBlend::Moving => 200,
            HistoryBlend::Still => 1000,
        }
    }

    /// The weight scaled by 1000, so that 1000 stands for full retention.
    pub fn permille(self) -> (r: u32)
        ensures
            r == self.spec_permille(),
    {
        match self {
            HistoryBlend::Reset => 0,
            HistoryBlend::Moving => 200,
            HistoryBlend::Still => 1000,
        }
    }
}

/// The blend weight owed for a frame: a resize forces a full reset, otherwise
/// camera motion keeps only a small fraction, otherwise history is retained.
pub open spec fn spec_blend(camera_moved: bool, did_resize: bool) -> HistoryBlend {
    if did_resize {
        HistoryBlend::Reset
    } else if camera_moved {
        HistoryBlend::Moving
    } else {
        HistoryBlend::Still
    }
}

/// The history flag after one frame: a resize first pins buffer A as the
/// history source for that frame, and every frame ends with an unconditional
/// role swap.
pub open spec fn spec_roles_step(history_is_a: bool, did_resize: bool) -> bool {
    !(if did_resize {
        true
    } else {
        history_is_a
    })
}

/// The history flag after `k` frames none of which resized, starting from the
/// initial assignment (buffer A holds history).
pub open spec fn spec_roles_after_idle(k: nat) -> bool
    decreases k,
{
    if k == 0 {
        true
    } else {
        spec_roles_step(spec_roles_after_idle((k - 1) as nat), false)
    }
}

/// Buffer roles alternate: after `k` frames without a resize, buffer A holds
/// the history exactly when `k` is even.
pub proof fn lemma_role_alternation(k: nat)
    ensures
        spec_roles_after_idle(k) == (k % 2 == 0),
    decreases k,
{
    if k > 0 {
        lemma_role_alternation((k - 1) as nat);
    }
}

/// Per-frame accumulation state: which buffer holds the history, and the
/// weight last handed to the accumulation kernel.
pub struct AccumulationState {
    /// True when buffer A is this frame's history source (and B the write
    /// target); false for the opposite assignment.
    pub history_is_a: bool,
    /// The blend weight of the most recent frame.
    pub history_weight: HistoryBlend,
}

impl AccumulationState {
    /// Initial state: buffer A holds the (empty) history, full retention.
    pub fn new() -> (s: Self)
        ensures
            s.history_is_a == true,
            s.history_weight == HistoryBlend::Still,
    {
        Self { history_is_a: true, history_weight: HistoryBlend::Still }
    }

    /// Advance by one frame.
    ///
    /// Returns the blend weight owed for this frame. A resize pins buffer A as
    /// this frame's history source before the frame runs; after every frame
    /// the buffer roles swap unconditionally.
    pub fn frame(&mut self, camera_moved: bool, did_resize: bool) -> (w: HistoryBlend)
        ensures
            w == spec_blend(camera_moved, did_resize),
            final(self).history_weight == w,
            final(self).history_is_a == spec_roles_step(old(self).history_is_a, did_resize),
    {
        if did_resize {
            self.history_is_a = true;
        }
        let w = if did_resize {
            HistoryBlend::Reset
        } else if camera_moved {
            HistoryBlend::Moving
        } else {
            HistoryBlend::Still
        };
        self.history_weight = w;
        self.history_is_a = !self.history_is_a;
        w
    }
}

} // verus!
