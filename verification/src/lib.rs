//! Offline gameplay-data extraction from NEOTOKYO;REBUILD demo files.
//!
//! The library holds the verified logic: the LSB-first bit stream, the
//! HL2DEMO header and frame layout, the recorder's usercmds, the net-message
//! framing with generic game events, the string-table roster, the ASCII
//! skim of packet payloads, and the extractors that turn frames into facts
//! (announcements and rounds, recorder POV and inputs, console commands,
//! kill feed, chat, roster, game events, entity samples, hit attribution).
//! [`pipeline`] streams a demo's frames through the extractors.

pub mod demo;
pub mod extract;
pub mod pattern;
pub mod pipeline;
pub mod sort;
pub mod text;
