//! Segmentation of chat messages into text, emote and code block parts.
//!
//! A message is split, from left to right, into plain text, emotes and code
//! blocks. Emotes are given by the caller as byte ranges of the message; code
//! blocks are found in the message itself, between backticks.
//!
//! - `parts` holds the segmenter, `parse_parts`, and the check of the spans.
//! - `layout` says what a segmentation is; `scan`, `bytes` and `text` hold
//!   the searches and cuts it is made of.
//! - `tiling` and `fidelity` prove what holds of every segmentation: its
//!   parts cover the message, no text is empty, the message can be put
//!   together again, and the emotes that are kept are the ones outside code.
//! - `fuzz`, `compose`, `oracle` and `agreement` make messages from lists of
//!   parts and prove that segmentation gives such a list back.

pub mod agreement;
pub mod bytes;
pub mod compose;
pub mod fidelity;
pub mod fuzz;
pub mod layout;
pub mod oracle;
pub mod parts;
pub mod scan;
pub mod text;
pub mod tiling;

pub use parts::{check_spans, parse_parts, try_parse_parts, MessagePart, PreconditionError};
