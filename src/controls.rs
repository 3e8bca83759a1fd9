//! What the user's input does to the camera controls.
//!
//! Mouse motion turns the camera: the controls count the motion in mouse
//! units, which the caller scales to radians. Any motion also asks for the
//! cursor to be put back in the middle of the window before the next frame.
//! Pressing the forward key sets the camera moving forward; releasing it
//! stops it.
use vstd::prelude::*;

verus! {

/// One input event, as far as the camera cares.
#[derive(Clone, Copy, PartialEq, Eq, Debug)]
pub enum Input {
    /// The mouse moved by `xrel` to the right and `yrel` down.
    MouseMotion { xrel: i32, yrel: i32 },
    /// The forward key went down.
    ForwardPressed,
    /// The forward key went up.
    ForwardReleased,
    /// Anything else.
    Other,
}

/// `v` clamped to the range of `i64`.
pub open spec fn clamp_i64(v: int) -> int {
    if v < i64::MIN {
        i64::MIN as int
    } else if v > i64::MAX {
        i64::MAX as int
    } else {
        v
    }
}

fn saturating_sum(a: i64, b: i64) -> (r: i64)
    ensures
        r == clamp_i64(a + b),
{
    let s: i128 = a as i128 + b as i128;
    if s < i64::MIN as i128 {
        i64::MIN
    } else if s > i64::MAX as i128 {
        i64::MAX
    } else {
        s as i64
    }
}

/// The state of the camera controls.
#[derive(Clone, Copy, PartialEq, Eq, Debug)]
pub struct Controls {
    /// Turn about the vertical axis, in mouse units; positive turns left.
    pub turn_x: i64,
    /// Turn about the horizontal axis, in mouse units; positive looks down.
    pub turn_y: i64,
    /// Whether the camera moves forward.
    pub forward: bool,
    /// Whether the cursor is to be put back in the middle of the window.
    pub recenter: bool,
}

impl Controls {
    /// Controls at rest: no turn, no motion, nothing to recenter.
    pub fn new() -> (r: Controls)
        ensures
            r == (Controls { turn_x: 0, turn_y: 0, forward: false, recenter: false }),
    {
        Controls { turn_x: 0, turn_y: 0, forward: false, recenter: false }
    }

    /// Applies one input event.
    pub fn handle(&mut self, input: Input)
        ensures
            match input {
                Input::MouseMotion { xrel, yrel } => *final(self) == (Controls {
                    turn_x: clamp_i64(old(self).turn_x - xrel) as i64,
                    turn_y: clamp_i64(old(self).turn_y + yrel) as i64,
                    forward: old(self).forward,
                    recenter: true,
                }),
                Input::ForwardPressed => *final(self) == (Controls { forward: true, ..*old(self) }),
                Input::ForwardReleased => *final(self) == (Controls { forward: false, ..*old(self) }),
                Input::Other => *final(self) == *old(self),
            },
    {
        match input {
            Input::MouseMotion { xrel, yrel } => {
                self.turn_x = saturating_sum(self.turn_x, -(xrel as i64));
                self.turn_y = saturating_sum(self.turn_y, yrel as i64);
                self.recenter = true;
            },
            Input::ForwardPressed => {
                self.forward = true;
            },
            Input::ForwardReleased => {
                self.forward = false;
            },
            Input::Other => {},
        }
    }

    /// Whether the cursor is to be recentred now; the request is cleared.
    pub fn take_recenter(&mut self) -> (r: bool)
        ensures
            r == old(self).recenter,
            *final(self) == (Controls { recenter: false, ..*old(self) }),
    {
        let r = self.recenter;
        self.recenter = false;
        r
    }
}

} // verus!
