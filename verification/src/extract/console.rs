//! Console commands the recorder issued during the demo
//! (`dem_consolecmd` frames; plain null-terminated strings).

use vstd::prelude::*;
use crate::demo::frames::{Frame, FrameKind};
use crate::demo::header::{cstr, fixed_text};
use crate::extract::DemoContext;
use crate::text::{trim, trimmed};

verus! {

/// The console commands collected so far: tick and command text.
pub struct ConsoleCmds {
    cmds: Vec<(i32, String)>,
}

/// The command a console-command payload holds: its text up to the first
/// NUL, decoded lossily, with surrounding whitespace removed.
pub open spec fn command_text(payload: Seq<u8>) -> Seq<char> {
    trim(fixed_text(payload))
}

/// What one frame adds: a console-command frame whose command is not empty
/// adds it with the frame's tick.
pub open spec fn after_console_frame(cmds: Seq<(i32, Seq<char>)>, data: Seq<u8>, frame: Frame) -> Seq<(i32, Seq<char>)> {
    let text = command_text(data.subrange(frame.payload.start as int, frame.payload.end as int));
    if frame.kind == FrameKind::ConsoleCmd && text.len() > 0 {
        cmds.push((frame.tick, text))
    } else {
        cmds
    }
}

impl View for ConsoleCmds {
    type V = Seq<(i32, Seq<char>)>;

    closed spec fn view(&self) -> Seq<(i32, Seq<char>)> {
        self.cmds@.map_values(|c: (i32, String)| (c.0, c.1@))
    }
}

impl ConsoleCmds {
    pub fn new() -> (c: Self)
        ensures
            c@ == Seq::<(i32, Seq<char>)>::empty(),
    {
        let c = ConsoleCmds { cmds: Vec::new() };
        proof {
            assert(c@ =~= Seq::<(i32, Seq<char>)>::empty());
        }
        c
    }

    /// Keep the command of a console-command frame.
    pub fn on_frame(&mut self, ctx: &DemoContext, frame: &Frame)
        requires
            frame.payload.start <= frame.payload.end <= ctx.data@.len(),
        ensures
            final(self)@ == after_console_frame(old(self)@, ctx.data@, *frame),
    {
        if frame.kind != FrameKind::ConsoleCmd {
            return;
        }
        let payload = frame.payload_in(ctx.data);
        let cmd = trimmed(cstr(payload).as_str());
        if cmd.as_str().unicode_len() > 0 {
            let ghost before = self@;
            let ghost cv = cmd@;
            self.cmds.push((frame.tick, cmd));
            proof {
                assert(self@ =~= before.push((frame.tick, cv)));
            }
        }
    }

    /// The commands collected so far, in frame order.
    pub fn cmds(&self) -> (c: &Vec<(i32, String)>)
        ensures
            c@.map_values(|c: (i32, String)| (c.0, c.1@)) == self@,
    {
        &self.cmds
    }
}

impl Default for ConsoleCmds {
    fn default() -> (c: Self)
        ensures
            c@ == Seq::<(i32, Seq<char>)>::empty(),
    {
        ConsoleCmds::new()
    }
}

} // verus!
