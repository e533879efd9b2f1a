//! Turning raw demo frames into gameplay facts.
//!
//! Each frame extractor sees every frame in file order through its
//! `on_frame` method and copies what it keeps (frames hand out byte ranges
//! into the demo file, available via [`DemoContext::data`]). Writing the
//! facts out is the caller's business.

pub mod announcements;
pub mod console;
pub mod entities;
pub mod inferred_hits;
pub mod inputs;
pub mod net;
pub mod pov;
pub mod rounds;
pub mod skim;

use vstd::prelude::*;
use crate::demo::header::DemoHeader;

verus! {

/// Everything an extractor can see besides the frame itself.
pub struct DemoContext<'a> {
    /// The entire demo file; frame payload ranges index into it.
    pub data: &'a [u8],
    pub header: &'a DemoHeader,
    /// Worker threads available for parallel work inside an extractor.
    pub threads: usize,
}

} // verus!
