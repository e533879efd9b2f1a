//! Recorder input stream: buttons (fire, aim, lean, thermoptic), movement,
//! and weapon switches, decoded from `dem_usercmd` frames. This is the
//! "did the recorder shoot this tick" signal.

use vstd::prelude::*;
use crate::demo::frames::{Frame, FrameKind};
use crate::demo::usercmd::{UserCmd, read_usercmd, spec_usercmd};
use crate::extract::DemoContext;
use crate::extract::net::bits_of;

verus! {

/// The recorder's decoded usercmds with their ticks, and the number of
/// usercmd frames that did not decode.
pub struct RecorderInputs {
    pub cmds: Vec<(i32, UserCmd)>,
    decode_errors: usize,
}

/// The inputs as values: the usercmds and the count of decode errors
/// (counting stops at the largest `usize`).
pub struct InputsView {
    pub cmds: Seq<(i32, UserCmd)>,
    pub decode_errors: usize,
}

/// What one frame adds: a usercmd frame's decoded command, or one decode
/// error where it does not decode.
pub open spec fn after_input_frame(s: InputsView, data: Seq<u8>, frame: Frame) -> InputsView {
    if frame.kind != FrameKind::UserCmd {
        s
    } else {
        match spec_usercmd(bits_of(data.subrange(frame.payload.start as int, frame.payload.end as int))) {
            Some(c) => InputsView { cmds: s.cmds.push((frame.tick, c)), ..s },
            None => InputsView {
                decode_errors: if s.decode_errors < usize::MAX {
                    (s.decode_errors + 1) as usize
                } else {
                    s.decode_errors
                },
                ..s
            },
        }
    }
}

impl View for RecorderInputs {
    type V = InputsView;

    closed spec fn view(&self) -> InputsView {
        InputsView { cmds: self.cmds@, decode_errors: self.decode_errors }
    }
}

impl RecorderInputs {
    pub fn new() -> (r: Self)
        ensures
            r@ == (InputsView { cmds: Seq::empty(), decode_errors: 0 }),
    {
        RecorderInputs { cmds: Vec::new(), decode_errors: 0 }
    }

    /// Decode the usercmd of a usercmd frame.
    pub fn on_frame(&mut self, ctx: &DemoContext, frame: &Frame)
        requires
            frame.payload.start <= frame.payload.end <= ctx.data@.len(),
            ctx.data@.len() * 8 + 8 <= usize::MAX,
        ensures
            final(self)@ == after_input_frame(old(self)@, ctx.data@, *frame),
    {
        if frame.kind != FrameKind::UserCmd {
            return;
        }
        match read_usercmd(frame.payload_in(ctx.data)) {
            Ok(cmd) => self.cmds.push((frame.tick, cmd)),
            Err(_) => self.decode_errors = self.decode_errors.saturating_add(1),
        }
    }

    /// How many usercmd frames did not decode.
    pub fn decode_errors(&self) -> (n: usize)
        ensures
            n == self@.decode_errors,
    {
        self.decode_errors
    }
}

impl Default for RecorderInputs {
    fn default() -> (r: Self)
        ensures
            r@ == (InputsView { cmds: Seq::empty(), decode_errors: 0 }),
    {
        RecorderInputs::new()
    }
}

} // verus!
