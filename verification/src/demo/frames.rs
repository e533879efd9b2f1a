//! Demo frames: command byte, tick, and (per command) the recorder's view
//! and a length-prefixed payload. Frames carry byte ranges into the file
//! rather than slices.

use vstd::prelude::*;
use crate::demo::header::{le_i32, le_u32, u32_at, i32_at};

verus! {

/// Demo protocol 3 (Source SDK 2013) frame commands.
#[derive(Debug, Clone, Copy, PartialEq, Eq, Structural)]
pub enum FrameKind {
    Signon,
    Packet,
    SyncTick,
    ConsoleCmd,
    UserCmd,
    DataTables,
    Stop,
    StringTables,
}

/// The recorder's point of view, from the 76-byte democmdinfo_t that
/// prefixes every signon/packet frame. The floats are kept as the
/// IEEE-754 bit patterns stored in the file.
#[derive(Debug, Clone, Copy, PartialEq, Eq)]
pub struct ViewInfo {
    pub origin: [u32; 3],
    /// pitch, yaw, roll
    pub angles: [u32; 3],
}

/// A half-open byte range `start..end` within the demo file.
#[derive(Debug, Clone, Copy, PartialEq, Eq)]
pub struct ByteRange {
    pub start: usize,
    pub end: usize,
}

#[derive(Debug, Clone, Copy, PartialEq, Eq)]
pub struct Frame {
    pub kind: FrameKind,
    pub tick: i32,
    pub view: Option<ViewInfo>,
    /// Byte range of the payload within the demo file.
    pub payload: ByteRange,
}

impl Frame {
    /// The payload bytes, sliced out of the whole file.
    pub fn payload_in<'a>(&self, data: &'a [u8]) -> (p: &'a [u8])
        requires
            self.payload.start <= self.payload.end <= data@.len(),
        ensures
            p@ == data@.subrange(self.payload.start as int, self.payload.end as int),
    {
        &data[self.payload.start..self.payload.end]
    }
}

/// Why the frame walk stopped before the end of the file.
#[derive(Debug, Clone, Copy, PartialEq, Eq)]
pub enum FrameError {
    /// `wanted` bytes were needed at byte `offset` but the file ends first.
    Truncated { wanted: usize, offset: usize },
    /// A command byte that demo protocol 3 does not define, in the frame
    /// that starts at byte `offset`.
    UnknownCommand { command: u8, offset: usize },
}

/// Size of democmdinfo_t: flags + 6 vectors (view origin/angles/local
/// angles, twice).
pub const CMDINFO_SIZE: usize = 76;

/// What the frame layout yields at a byte offset.
pub enum FrameParse {
    /// Fewer than 5 bytes left: a missing final frame header is a clean end.
    End,
    /// A frame, and the offset where the next one starts.
    Parsed(Frame, int),
    Failed(FrameError),
}

pub open spec fn truncated(wanted: int, offset: int) -> FrameParse {
    FrameParse::Failed(FrameError::Truncated { wanted: wanted as usize, offset: offset as usize })
}

/// A length-prefixed payload at `p` (i32 length, negative meaning empty)
/// closing a frame of `kind`.
pub open spec fn spec_payload_frame(
    data: Seq<u8>,
    p: int,
    kind: FrameKind,
    tick: i32,
    view: Option<ViewInfo>,
) -> FrameParse {
    if p + 4 > data.len() {
        truncated(4, p)
    } else {
        let n = le_i32(data, p);
        let m: int = if n < 0 { 0 } else { n as int };
        let start = p + 4;
        if start + m > data.len() {
            truncated(m, start)
        } else {
            FrameParse::Parsed(
                Frame {
                    kind,
                    tick,
                    view,
                    payload: ByteRange { start: start as usize, end: (start + m) as usize },
                },
                start + m,
            )
        }
    }
}

/// The view stored in the democmdinfo at `p`.
pub open spec fn spec_view(data: Seq<u8>, p: int) -> ViewInfo {
    ViewInfo {
        origin: [le_u32(data, p + 4), le_u32(data, p + 8), le_u32(data, p + 12)],
        angles: [le_u32(data, p + 16), le_u32(data, p + 20), le_u32(data, p + 24)],
    }
}

/// A frame's body after its 5-byte header (command `cmd` and `tick`),
/// starting at `p`; `pos` is where the frame began.
pub open spec fn spec_frame_body(data: Seq<u8>, pos: int, cmd: u8, tick: i32) -> FrameParse {
    let p = pos + 5;
    if cmd == 1 || cmd == 2 {
        if p + 76 > data.len() {
            truncated(76, p)
        } else if p + 76 + 8 > data.len() {
            truncated(8, p + 76)
        } else {
            let kind = if cmd == 1 { FrameKind::Signon } else { FrameKind::Packet };
            spec_payload_frame(data, p + 84, kind, tick, Some(spec_view(data, p)))
        }
    } else if cmd == 3 {
        FrameParse::Parsed(
            Frame {
                kind: FrameKind::SyncTick,
                tick,
                view: None,
                payload: ByteRange { start: p as usize, end: p as usize },
            },
            p,
        )
    } else if cmd == 4 || cmd == 6 || cmd == 8 {
        let kind = if cmd == 4 {
            FrameKind::ConsoleCmd
        } else if cmd == 6 {
            FrameKind::DataTables
        } else {
            FrameKind::StringTables
        };
        spec_payload_frame(data, p, kind, tick, None)
    } else if cmd == 5 {
        if p + 4 > data.len() {
            truncated(4, p)
        } else {
            spec_payload_frame(data, p + 4, FrameKind::UserCmd, tick, None)
        }
    } else if cmd == 7 {
        FrameParse::Parsed(
            Frame {
                kind: FrameKind::Stop,
                tick,
                view: None,
                payload: ByteRange { start: p as usize, end: p as usize },
            },
            p,
        )
    } else {
        FrameParse::Failed(FrameError::UnknownCommand { command: cmd, offset: pos as usize })
    }
}

/// The frame at byte offset `pos`: command byte, little-endian i32 tick,
/// then the body that the command calls for.
pub open spec fn spec_frame_at(data: Seq<u8>, pos: int) -> FrameParse {
    if pos + 5 > data.len() {
        FrameParse::End
    } else {
        spec_frame_body(data, pos, data[pos], le_i32(data, pos + 1))
    }
}

/// Every frame read lies inside the file, past the offset it was read at:
/// its payload is a byte range of the file starting after the 5-byte
/// frame header, and the next frame starts where the payload ends.
pub proof fn lemma_frame_in_file(data: Seq<u8>, pos: int)
    requires
        0 <= pos,
        data.len() <= usize::MAX,
    ensures
        spec_frame_at(data, pos) matches FrameParse::Parsed(f, next) ==> {
            &&& pos + 5 <= f.payload.start <= f.payload.end <= data.len()
            &&& next == f.payload.end
        },
{
}

/// A little-endian word read through a window equals the one read from
/// the whole.
proof fn lemma_le_u32_window(data: Seq<u8>, window: Seq<u8>, off: int, k: int)
    requires
        0 <= off,
        0 <= k,
        k + 4 <= window.len(),
        off + window.len() <= data.len(),
        window == data.subrange(off, off + window.len()),
    ensures
        le_u32(window, k) == le_u32(data, off + k),
{
    assert(window[k] == data[off + k]);
    assert(window[k + 1] == data[off + k + 1]);
    assert(window[k + 2] == data[off + k + 2]);
    assert(window[k + 3] == data[off + k + 3]);
}

/// Walks demo frames. Reads each frame header and length prefix, never
/// decoding payload contents.
pub struct FrameIter<'a> {
    data: &'a [u8],
    pos: usize,
    done: bool,
}

impl<'a> FrameIter<'a> {
    pub closed spec fn data(&self) -> Seq<u8> {
        self.data@
    }

    /// Byte offset of the next frame.
    pub closed spec fn pos(&self) -> int {
        self.pos as int
    }

    /// The walk has ended (a stop frame, the end of the file, or an error).
    pub closed spec fn done(&self) -> bool {
        self.done
    }

    pub closed spec fn wf(&self) -> bool {
        self.pos <= self.data@.len()
    }

    /// `data` is the whole file; the walk starts at byte `start`, usually
    /// just after the fixed header.
    pub fn new(data: &'a [u8], start: usize) -> (it: Self)
        requires
            start <= data@.len(),
        ensures
            it.wf(),
            it.data() == data@,
            it.pos() == start,
            !it.done(),
    {
        FrameIter { data, pos: start, done: false }
    }

    /// Take `n` bytes at the cursor.
    fn take(&mut self, n: usize) -> (r: Result<&'a [u8], FrameError>)
        requires
            old(self).wf(),
        ensures
            final(self).wf(),
            final(self).data == old(self).data,
            final(self).done == old(self).done,
            old(self).pos + n <= old(self).data@.len() ==> {
                &&& r matches Ok(s) && s@ == old(self).data@.subrange(old(self).pos as int, old(self).pos + n)
                &&& final(self).pos == old(self).pos + n
            },
            old(self).pos + n > old(self).data@.len() ==> r == Err::<&'a [u8], FrameError>(
                FrameError::Truncated { wanted: n, offset: old(self).pos },
            ),
    {
        if n > self.data.len() - self.pos {
            return Err(FrameError::Truncated { wanted: n, offset: self.pos });
        }
        let s = &self.data[self.pos..self.pos + n];
        self.pos = self.pos + n;
        Ok(s)
    }

    fn take_i32(&mut self) -> (r: Result<i32, FrameError>)
        requires
            old(self).wf(),
        ensures
            final(self).wf(),
            final(self).data == old(self).data,
            final(self).done == old(self).done,
            old(self).pos + 4 <= old(self).data@.len() ==> {
                &&& r == Ok::<i32, FrameError>(le_i32(old(self).data@, old(self).pos as int))
                &&& final(self).pos == old(self).pos + 4
            },
            old(self).pos + 4 > old(self).data@.len() ==> r == Err::<i32, FrameError>(
                FrameError::Truncated { wanted: 4, offset: old(self).pos },
            ),
    {
        let b = self.take(4)?;
        proof {
            assert(b@ == old(self).data@.subrange(old(self).pos as int, old(self).pos + 4));
        }
        let v = i32_at(b, 0);
        proof {
            assert(le_i32(b@, 0) == le_i32(old(self).data@, old(self).pos as int));
        }
        Ok(v)
    }

    /// The payload frame tail: length prefix and payload.
    fn take_payload(&mut self, kind: FrameKind, tick: i32, view: Option<ViewInfo>) -> (r: Result<
        Frame,
        FrameError,
    >)
        requires
            old(self).wf(),
        ensures
            final(self).wf(),
            final(self).data == old(self).data,
            final(self).done == old(self).done,
            match spec_payload_frame(old(self).data@, old(self).pos as int, kind, tick, view) {
                FrameParse::Parsed(f, next) => r == Ok::<Frame, FrameError>(f) && final(self).pos == next,
                FrameParse::Failed(e) => r == Err::<Frame, FrameError>(e),
                FrameParse::End => false,
            },
    {
        let len = self.take_i32()?;
        let m: usize = if len < 0 { 0 } else { len as usize };
        let start = self.pos;
        let _ = self.take(m)?;
        Ok(Frame { kind, tick, view, payload: ByteRange { start, end: start + m } })
    }

    /// The next frame, `None` once the walk has ended. A demo stopped
    /// mid-write can end a few bytes short: a missing final frame header
    /// ends the walk cleanly. After an error the walk ends too.
    pub fn next(&mut self) -> (r: Option<Result<Frame, FrameError>>)
        requires
            old(self).wf(),
        ensures
            final(self).wf(),
            final(self).data() == old(self).data(),
            old(self).done() ==> r is None && final(self).done(),
            !old(self).done() ==> match spec_frame_at(old(self).data(), old(self).pos()) {
                FrameParse::End => r is None && final(self).done(),
                FrameParse::Parsed(f, next) => {
                    &&& r == Some(Ok::<Frame, FrameError>(f))
                    &&& final(self).pos() == next
                    &&& final(self).done() == (f.kind == FrameKind::Stop)
                },
                FrameParse::Failed(e) => r == Some(Err::<Frame, FrameError>(e)) && final(self).done(),
            },
    {
        if self.done {
            return None;
        }
        match self.next_frame() {
            Ok(Some(f)) => Some(Ok(f)),
            Ok(None) => None,
            Err(e) => {
                self.done = true;
                Some(Err(e))
            },
        }
    }

    fn next_frame(&mut self) -> (r: Result<Option<Frame>, FrameError>)
        requires
            old(self).wf(),
            !old(self).done,
        ensures
            final(self).wf(),
            final(self).data == old(self).data,
            match spec_frame_at(old(self).data@, old(self).pos as int) {
                FrameParse::End => r == Ok::<Option<Frame>, FrameError>(None) && final(self).done,
                FrameParse::Parsed(f, next) => {
                    &&& r == Ok::<Option<Frame>, FrameError>(Some(f))
                    &&& final(self).pos == next
                    &&& final(self).done == (f.kind == FrameKind::Stop)
                },
                FrameParse::Failed(e) => r == Err::<Option<Frame>, FrameError>(e),
            },
    {
        let ghost data = self.data@;
        let ghost pos0 = self.pos as int;
        if self.data.len() - self.pos < 5 {
            self.done = true;
            return Ok(None);
        }
        let cmd = self.take(1)?[0];
        let tick = self.take_i32()?;
        proof {
            assert(tick == le_i32(data, pos0 + 1));
        }
        let frame = self.frame_body(cmd, tick)?;
        if frame.kind == FrameKind::Stop {
            self.done = true;
        }
        Ok(Some(frame))
    }

    /// The body of a frame whose 5-byte header (`cmd`, `tick`) was just read.
    fn frame_body(&mut self, cmd: u8, tick: i32) -> (r: Result<Frame, FrameError>)
        requires
            old(self).wf(),
            old(self).pos >= 5,
        ensures
            final(self).wf(),
            final(self).data == old(self).data,
            final(self).done == old(self).done,
            match spec_frame_body(old(self).data@, old(self).pos - 5, cmd, tick) {
                FrameParse::End => false,
                FrameParse::Parsed(f, next) => r == Ok::<Frame, FrameError>(f) && final(self).pos == next,
                FrameParse::Failed(e) => r == Err::<Frame, FrameError>(e),
            },
    {
        let ghost data = self.data@;
        let ghost p = self.pos as int;
        let frame = match cmd {
            1 | 2 => self.view_frame(cmd, tick)?,
            3 => Frame {
                kind: FrameKind::SyncTick,
                tick,
                view: None,
                payload: ByteRange { start: self.pos, end: self.pos },
            },
            4 | 5 | 6 | 8 => {
                if cmd == 5 {
                    self.take(4)?;  // outgoing usercmd sequence number
                }
                let kind = match cmd {
                    4 => FrameKind::ConsoleCmd,
                    5 => FrameKind::UserCmd,
                    6 => FrameKind::DataTables,
                    _ => FrameKind::StringTables,
                };
                self.take_payload(kind, tick, None)?
            },
            7 => {
                Frame {
                    kind: FrameKind::Stop,
                    tick,
                    view: None,
                    payload: ByteRange { start: self.pos, end: self.pos },
                }
            },
            other => {
                return Err(FrameError::UnknownCommand { command: other, offset: self.pos - 5 });
            },
        };
        Ok(frame)
    }

    fn view_frame(&mut self, cmd: u8, tick: i32) -> (r: Result<Frame, FrameError>)
        requires
            old(self).wf(),
            cmd == 1 || cmd == 2,
        ensures
            final(self).wf(),
            final(self).data == old(self).data,
            final(self).done == old(self).done,
            match spec_frame_body(old(self).data@, old(self).pos - 5, cmd, tick) {
                FrameParse::End => false,
                FrameParse::Parsed(f, next) => r == Ok::<Frame, FrameError>(f) && final(self).pos == next,
                FrameParse::Failed(e) => r == Err::<Frame, FrameError>(e),
            },
    {
        let ghost data = self.data@;
        let ghost p = self.pos as int;
        let info = self.take(CMDINFO_SIZE)?;
        let view = ViewInfo {
            origin: [u32_at(info, 4), u32_at(info, 8), u32_at(info, 12)],
            angles: [u32_at(info, 16), u32_at(info, 20), u32_at(info, 24)],
        };
        proof {
            lemma_le_u32_window(data, info@, p, 4);
            lemma_le_u32_window(data, info@, p, 8);
            lemma_le_u32_window(data, info@, p, 12);
            lemma_le_u32_window(data, info@, p, 16);
            lemma_le_u32_window(data, info@, p, 20);
            lemma_le_u32_window(data, info@, p, 24);
            assert(view == spec_view(data, p));
        }
        self.take(8)?;
        let kind = if cmd == 1 { FrameKind::Signon } else { FrameKind::Packet };
        self.take_payload(kind, tick, Some(view))
    }
}

} // verus!
