//! Recorder point-of-view sampling: position + view angles per packet frame,
//! taken from the byte-aligned democmdinfo the demo layer already decoded.

use vstd::prelude::*;
use crate::demo::frames::{Frame, FrameKind, ViewInfo};

verus! {

/// Keeps every `every`-th view of the packet frames that carry one.
pub struct PovSampler {
    every: u32,
    counter: u32,
    samples: Vec<(i32, ViewInfo)>,
}

/// The sampler as values: the stride, how many views have been seen
/// (modulo 2^32), and the samples kept.
pub struct PovView {
    pub every: u32,
    pub counter: u32,
    pub samples: Seq<(i32, ViewInfo)>,
}

/// What one frame changes: a packet frame with a view is counted, and kept
/// where the count before it is a multiple of the stride.
pub open spec fn after_pov_frame(s: PovView, frame: Frame) -> PovView {
    if frame.kind == FrameKind::Packet && frame.view is Some {
        PovView {
            counter: if s.counter == u32::MAX { 0 } else { (s.counter + 1) as u32 },
            samples: if s.counter % s.every == 0 {
                s.samples.push((frame.tick, frame.view->0))
            } else {
                s.samples
            },
            ..s
        }
    } else {
        s
    }
}

/// How many of `k` views are kept when every `every`-th is kept, the
/// first included: `k / every`, rounded up.
pub open spec fn kept_count(k: nat, every: nat) -> nat {
    ((k + every - 1) as nat) / every
}

proof fn lemma_kept_count_step(c: nat, e: nat)
    requires
        e >= 1,
    ensures
        kept_count(c + 1, e) == kept_count(c, e) + if c % e == 0 { 1nat } else { 0nat },
{
    let q = c / e;
    let r = c % e;
    vstd::arithmetic::div_mod::lemma_fundamental_div_mod(c as int, e as int);
    assert(c == q * e + r);
    assert(0 <= r < e);
    if r == 0 {
        assert((c + e - 1) / (e as int) == q) by (nonlinear_arith)
            requires c == q * e, e >= 1;
        assert((c + 1 + e - 1) / (e as int) == q + 1) by (nonlinear_arith)
            requires c == q * e, e >= 1;
    } else {
        assert((c + e - 1) / (e as int) == q + 1) by (nonlinear_arith)
            requires c == q * e + r, 0 < r < e, e >= 1;
        assert((c + 1 + e - 1) / (e as int) == q + 1) by (nonlinear_arith)
            requires c == q * e + r, 0 < r < e, e >= 1;
    }
}

/// Thinning keeps every `every`-th view, the first included: while the
/// count of views has not wrapped, `ceil(count / every)` samples are kept.
pub proof fn lemma_pov_thinning(s: PovView, frame: Frame)
    requires
        s.every >= 1,
        s.counter < u32::MAX,
        s.samples.len() == kept_count(s.counter as nat, s.every as nat),
    ensures
        after_pov_frame(s, frame).every == s.every,
        after_pov_frame(s, frame).samples.len() == kept_count(
            after_pov_frame(s, frame).counter as nat,
            s.every as nat,
        ),
{
    if frame.kind == FrameKind::Packet && frame.view is Some {
        lemma_kept_count_step(s.counter as nat, s.every as nat);
    }
}

/// The views of a frame sequence, in order: one `(tick, view)` for each
/// packet frame that carries a view.
pub open spec fn pov_views(frames: Seq<Frame>) -> Seq<(i32, ViewInfo)>
    decreases frames.len(),
{
    if frames.len() == 0 {
        Seq::empty()
    } else {
        let f = frames.last();
        let rest = pov_views(frames.drop_last());
        if f.kind == FrameKind::Packet && f.view is Some {
            rest.push((f.tick, f.view->0))
        } else {
            rest
        }
    }
}

/// The elements of `items` whose index is a multiple of `every`, in order.
pub open spec fn every_nth<T>(items: Seq<T>, every: nat) -> Seq<T>
    decreases items.len(),
{
    if items.len() == 0 {
        Seq::empty()
    } else {
        let rest = every_nth(items.drop_last(), every);
        if (items.len() - 1) % (every as int) == 0 {
            rest.push(items.last())
        } else {
            rest
        }
    }
}

/// The sampler after a sequence of frames, taken in order.
pub open spec fn after_pov_frames(s: PovView, frames: Seq<Frame>) -> PovView
    decreases frames.len(),
{
    if frames.len() == 0 {
        s
    } else {
        after_pov_frame(after_pov_frames(s, frames.drop_last()), frames.last())
    }
}

/// A fresh sampler with stride `every` (0 counts as 1) that is shown a
/// sequence of frames keeps exactly the views of the packet frames at
/// positions 0, `every`, `2 * every`, ... among those that carry a view, in
/// order; frames of other kinds, and packet frames without a view, add
/// nothing. This holds while fewer than 2^32 views have been seen.
pub proof fn lemma_pov_keeps_every_nth(every: u32, frames: Seq<Frame>)
    requires
        pov_views(frames).len() <= u32::MAX,
    ensures
        ({
            let e: u32 = if every == 0 { 1 } else { every };
            let fin = after_pov_frames(PovView { every: e, counter: 0, samples: Seq::empty() }, frames);
            &&& fin.every == e
            &&& fin.counter == pov_views(frames).len()
            &&& fin.samples == every_nth(pov_views(frames), e as nat)
        }),
    decreases frames.len(),
{
    let e: u32 = if every == 0 { 1 } else { every };
    let s0 = PovView { every: e, counter: 0, samples: Seq::<(i32, ViewInfo)>::empty() };
    if frames.len() == 0 {
        assert(every_nth(pov_views(frames), e as nat) =~= Seq::<(i32, ViewInfo)>::empty());
    } else {
        let init = frames.drop_last();
        let f = frames.last();
        assert(pov_views(init).len() <= pov_views(frames).len());
        lemma_pov_keeps_every_nth(every, init);
        let mid = after_pov_frames(s0, init);
        assert(after_pov_frames(s0, frames) == after_pov_frame(mid, f));
        if f.kind == FrameKind::Packet && f.view is Some {
            let vs = pov_views(frames);
            assert(vs == pov_views(init).push((f.tick, f.view->0)));
            assert(vs.drop_last() =~= pov_views(init));
            assert(mid.counter < u32::MAX);
        }
    }
}

impl View for PovSampler {
    type V = PovView;

    closed spec fn view(&self) -> PovView {
        PovView { every: self.every, counter: self.counter, samples: self.samples@ }
    }
}

impl PovSampler {
    pub closed spec fn wf(&self) -> bool {
        self.every >= 1
    }

    /// Keep every `every`-th packet frame's view (1 = all; 0 counts as 1).
    pub fn new(every: u32) -> (p: Self)
        ensures
            p.wf(),
            p@ == (PovView { every: if every == 0 { 1 } else { every }, counter: 0, samples: Seq::empty() }),
    {
        let every = if every < 1 { 1 } else { every };
        PovSampler { every, counter: 0, samples: Vec::new() }
    }

    /// Count a packet frame's view and keep it when its turn comes.
    pub fn on_frame(&mut self, frame: &Frame)
        requires
            old(self).wf(),
        ensures
            final(self).wf(),
            final(self)@ == after_pov_frame(old(self)@, *frame),
    {
        if frame.kind != FrameKind::Packet {
            return;
        }
        match frame.view {
            Some(view) => {
                if self.counter % self.every == 0 {
                    self.samples.push((frame.tick, view));
                }
                self.counter = self.counter.wrapping_add(1);
            },
            None => {},
        }
    }

    /// The samples kept so far, in frame order.
    pub fn samples(&self) -> (s: &Vec<(i32, ViewInfo)>)
        ensures
            s@ == self@.samples,
    {
        &self.samples
    }
}

} // verus!
