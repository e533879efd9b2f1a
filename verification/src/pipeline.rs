//! Per-demo orchestration: stream a demo's frames through the frame
//! extractors, and the log lines reported alongside. Reading the file and
//! writing the results are the caller's.

use vstd::prelude::*;
use crate::demo::frames::{Frame, FrameError, FrameIter, FrameKind, FrameParse, lemma_frame_in_file, spec_frame_at};
use crate::demo::header::HEADER_SIZE;
use crate::extract::DemoContext;
use crate::extract::announcements::Announcements;
use crate::extract::console::{ConsoleCmds, after_console_frame};
use crate::extract::inputs::{InputsView, RecorderInputs, after_input_frame};
use crate::extract::net::{NetPass, NetView, after_frame};
use crate::extract::pov::{PovSampler, PovView, after_pov_frame};
use crate::demo::frames::ByteRange;

verus! {

#[derive(Debug, Clone, Copy, PartialEq, Eq, Structural)]
pub enum LogLevel {
    Warning,
    Error,
}

/// The label a log line carries: the level's name, in yellow (warning) or
/// red (error) ANSI color where `color` is set.
pub open spec fn label_text(level: LogLevel, color: bool) -> Seq<char> {
    match (level, color) {
        (LogLevel::Warning, true) => "\x1b[33mwarning\x1b[0m"@,
        (LogLevel::Warning, false) => "warning"@,
        (LogLevel::Error, true) => "\x1b[31merror\x1b[0m"@,
        (LogLevel::Error, false) => "error"@,
    }
}

/// The label of a log line of this level.
pub fn log_label(level: LogLevel, color: bool) -> (s: &'static str)
    ensures
        s@ == label_text(level, color),
{
    match (level, color) {
        (LogLevel::Warning, true) => "\x1b[33mwarning\x1b[0m",
        (LogLevel::Warning, false) => "warning",
        (LogLevel::Error, true) => "\x1b[31merror\x1b[0m",
        (LogLevel::Error, false) => "error",
    }
}

/// The frames from byte `pos` on, in order, and the error that stopped the
/// walk, if one did: the walk ends at the end of the file, after a stop
/// frame, or at a frame that does not parse.
pub open spec fn spec_frames(data: Seq<u8>, pos: int, fuel: nat) -> (Seq<Frame>, Option<FrameError>)
    decreases fuel,
{
    if fuel == 0 {
        (Seq::empty(), None)
    } else {
        match spec_frame_at(data, pos) {
            FrameParse::End => (Seq::empty(), None),
            FrameParse::Failed(e) => (Seq::empty(), Some(e)),
            FrameParse::Parsed(f, next) => if f.kind == FrameKind::Stop {
                (seq![f], None)
            } else {
                let (rest, err) = spec_frames(data, next, (fuel - 1) as nat);
                (seq![f] + rest, err)
            },
        }
    }
}

/// The frames of a whole demo file, after the fixed header.
pub open spec fn demo_frames(data: Seq<u8>) -> (Seq<Frame>, Option<FrameError>) {
    spec_frames(data, HEADER_SIZE as int, data.len() + 1)
}

/// The frame extractors, fed the same frames.
pub struct Extractors {
    pub announcements: Announcements,
    pub pov: PovSampler,
    pub console: ConsoleCmds,
    pub inputs: RecorderInputs,
    pub net: NetPass,
}

/// The extractors as values.
pub struct ExtractorsView {
    pub packets: Seq<(i32, ByteRange)>,
    pub pov: PovView,
    pub console: Seq<(i32, Seq<char>)>,
    pub inputs: InputsView,
    pub net: NetView,
}

impl View for Extractors {
    type V = ExtractorsView;

    open spec fn view(&self) -> ExtractorsView {
        ExtractorsView {
            packets: self.announcements.packet_list(),
            pov: self.pov@,
            console: self.console@,
            inputs: self.inputs@,
            net: self.net@,
        }
    }
}

impl Extractors {
    pub open spec fn wf(&self) -> bool {
        self.pov.wf()
    }
}

/// What one frame changes, for each extractor.
#[verifier::opaque]
pub open spec fn after_frame_all(v: ExtractorsView, data: Seq<u8>, protocol: i32, f: Frame) -> ExtractorsView {
    ExtractorsView {
        packets: if f.kind == FrameKind::Packet {
            v.packets.push((f.tick, f.payload))
        } else {
            v.packets
        },
        pov: after_pov_frame(v.pov, f),
        console: after_console_frame(v.console, data, f),
        inputs: after_input_frame(v.inputs, data, f),
        net: after_frame(v.net, data, protocol, f),
    }
}

/// The frames applied in order.
pub open spec fn after_frames(v: ExtractorsView, data: Seq<u8>, protocol: i32, fs: Seq<Frame>) -> ExtractorsView
    decreases fs.len(),
{
    if fs.len() == 0 {
        v
    } else {
        after_frame_all(after_frames(v, data, protocol, fs.drop_last()), data, protocol, fs.last())
    }
}

/// Every frame of the walk lies inside the file.
proof fn lemma_frames_in_file(data: Seq<u8>, pos: int, fuel: nat)
    requires
        0 <= pos,
        data.len() <= usize::MAX,
    ensures
        forall|i: int|
            0 <= i < spec_frames(data, pos, fuel).0.len() ==> {
                let f = #[trigger] spec_frames(data, pos, fuel).0[i];
                f.payload.start <= f.payload.end <= data.len()
            },
    decreases fuel,
{
    lemma_frame_in_file(data, pos);
    if fuel > 0 {
        match spec_frame_at(data, pos) {
            FrameParse::Parsed(f, next) => {
                if f.kind != FrameKind::Stop {
                    lemma_frames_in_file(data, next, (fuel - 1) as nat);
                    let rest = spec_frames(data, next, (fuel - 1) as nat).0;
                    assert forall|i: int| 0 <= i < spec_frames(data, pos, fuel).0.len() implies {
                        let g = #[trigger] spec_frames(data, pos, fuel).0[i];
                        g.payload.start <= g.payload.end <= data.len()
                    } by {
                        if i > 0 {
                            assert(spec_frames(data, pos, fuel).0[i] == rest[i - 1]);
                        }
                    }
                }
            },
            _ => {},
        }
    }
}

/// Hand one frame to every extractor.
fn feed_frame(ctx: &DemoContext, ex: &mut Extractors, frame: &Frame)
    requires
        old(ex).wf(),
        frame.payload.start <= frame.payload.end <= ctx.data@.len(),
        ctx.data@.len() * 8 + 8 <= usize::MAX,
    ensures
        final(ex).wf(),
        final(ex).announcements.pattern_sources() == old(ex).announcements.pattern_sources(),
        final(ex).announcements.keeps_all_strings() == old(ex).announcements.keeps_all_strings(),
        final(ex)@ == after_frame_all(old(ex)@, ctx.data@, ctx.header.network_protocol, *frame),
{
    ex.announcements.on_frame(frame);
    ex.pov.on_frame(frame);
    ex.console.on_frame(ctx, frame);
    ex.inputs.on_frame(ctx, frame);
    ex.net.on_frame(ctx, frame);
    proof {
        reveal(after_frame_all);
    }
}

/// Stream every frame of the demo after its header through the
/// extractors, in file order. A demo stopped mid-write can end partway
/// through a frame: the frames before the break are kept and the error is
/// returned.
pub fn walk_frames(ctx: &DemoContext, ex: &mut Extractors) -> (err: Option<FrameError>)
    requires
        old(ex).wf(),
        HEADER_SIZE <= ctx.data@.len(),
        ctx.data@.len() * 8 + 8 <= usize::MAX,
    ensures
        final(ex).wf(),
        final(ex).announcements.pattern_sources() == old(ex).announcements.pattern_sources(),
        final(ex).announcements.keeps_all_strings() == old(ex).announcements.keeps_all_strings(),
        ({
            let (fs, e) = demo_frames(ctx.data@);
            &&& final(ex)@ == after_frames(old(ex)@, ctx.data@, ctx.header.network_protocol, fs)
            &&& err == e
        }),
{
    let ghost data = ctx.data@;
    let ghost protocol = ctx.header.network_protocol;
    let ghost start = ex@;
    let mut it = FrameIter::new(ctx.data, HEADER_SIZE);
    let ghost all = demo_frames(data);
    let ghost mut fuel: nat = data.len() + 1;
    let ghost mut done_frames: Seq<Frame> = Seq::empty();
    proof {
        lemma_frames_in_file(data, HEADER_SIZE as int, data.len() + 1);
        assert(done_frames + spec_frames(data, it.pos(), fuel).0 =~= all.0);
    }
    loop
        invariant_except_break
            it.wf(),
            it.data() == data,
            data == ctx.data@,
            protocol == ctx.header.network_protocol,
            data.len() * 8 + 8 <= usize::MAX,
            !it.done(),
            0 <= it.pos() <= data.len(),
            fuel >= data.len() - it.pos() + 1,
            ex.wf(),
            ex.announcements.pattern_sources() == old(ex).announcements.pattern_sources(),
            ex.announcements.keeps_all_strings() == old(ex).announcements.keeps_all_strings(),
            all == demo_frames(data),
            start == old(ex)@,
            forall|i: int| 0 <= i < all.0.len() ==> {
                let f = #[trigger] all.0[i];
                f.payload.start <= f.payload.end <= data.len()
            },
            all.0 == done_frames + spec_frames(data, it.pos(), fuel).0,
            all.1 == spec_frames(data, it.pos(), fuel).1,
            ex@ == after_frames(start, data, protocol, done_frames),
        ensures
            ex.wf(),
            ex.announcements.pattern_sources() == old(ex).announcements.pattern_sources(),
            ex.announcements.keeps_all_strings() == old(ex).announcements.keeps_all_strings(),
            ex@ == after_frames(start, data, protocol, all.0),
            all.1 is None,
        decreases data.len() - it.pos(),
    {
        let ghost pos = it.pos();
        let next = it.next();
        match next {
            None => {
                proof {
                    assert(spec_frames(data, pos, fuel).0 =~= Seq::<Frame>::empty());
                    assert(done_frames + Seq::<Frame>::empty() =~= done_frames);
                }
                break;
            },
            Some(Err(e)) => {
                proof {
                    assert(spec_frames(data, pos, fuel) == (Seq::<Frame>::empty(), Some(e)));
                    assert(all.0 =~= done_frames);
                    assert(all.1 == Some(e));
                }
                return Some(e);
            },
            Some(Ok(frame)) => {
                proof {
                    lemma_frame_in_file(data, pos);
                    assert(all.0[done_frames.len() as int] == frame);
                }
                feed_frame(ctx, ex, &frame);
                proof {
                    assert(done_frames.push(frame).drop_last() =~= done_frames);
                    done_frames = done_frames.push(frame);
                }
                if frame.kind == FrameKind::Stop {
                    proof {
                        assert(spec_frames(data, pos, fuel) == (seq![frame], None::<FrameError>));
                        assert(all.0 =~= done_frames);
                        assert(all.1 is None);
                    }
                    return None;
                }
                proof {
                    let rest = spec_frames(data, it.pos(), (fuel - 1) as nat).0;
                    assert(all.0 =~= done_frames + rest);
                    fuel = (fuel - 1) as nat;
                }
            },
        }
    }
    None
}

} // verus!
