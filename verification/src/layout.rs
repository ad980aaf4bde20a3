//! The mathematical model of a segmentation: which byte ranges of a message
//! become text, which become code blocks, and which emote spans are kept.
//!
//! Everything here is ghost. A message is its bytes, an emote span is a
//! half-open range of byte offsets, and the result is a sequence of pieces,
//! each with the range it covers.

use vstd::prelude::*;
use crate::scan::{lemma_next_tick, lemma_next_triple, next_tick, next_triple, triple_at};

verus! {

/// A half-open range `[start, end)` of byte offsets.
pub struct Extent {
    pub start: int,
    pub end: int,
}

/// One piece of a segmented message, with the byte range it covers.
pub enum Piece {
    /// Plain text.
    Text { start: int, end: int },
    /// The emote span number `index` of the caller's list.
    Emote { index: int, start: int, end: int },
    /// A code block, fences included.
    Codeblock { start: int, end: int },
}

impl Piece {
    /// Where the piece begins.
    pub open spec fn start(self) -> int {
        match self {
            Piece::Text { start, .. } => start,
            Piece::Emote { start, .. } => start,
            Piece::Codeblock { start, .. } => start,
        }
    }

    /// Where the piece ends.
    pub open spec fn end(self) -> int {
        match self {
            Piece::Text { end, .. } => end,
            Piece::Emote { end, .. } => end,
            Piece::Codeblock { end, .. } => end,
        }
    }
}

/// The offset before which span number `i` must not start: the end of the
/// span before it, or 0 for the first.
pub open spec fn earliest_start(spans: Seq<Extent>, i: int) -> int {
    if i == 0 {
        0
    } else {
        spans[i - 1].end
    }
}

/// Each span starts at or after the end of the one before it; the first
/// starts at or after offset 0.
pub open spec fn ordered(spans: Seq<Extent>) -> bool {
    forall|i: int| 0 <= i < spans.len() ==> #[trigger] earliest_start(spans, i) <= spans[i].start
}

/// Each span is a range of a message of `len` bytes: it does not end before
/// it starts, and it does not reach past the end.
pub open spec fn within(len: int, spans: Seq<Extent>) -> bool {
    forall|i: int| 0 <= i < spans.len() ==> (#[trigger] spans[i]).start <= spans[i].end <= len
}

/// What a caller owes: spans in order, not overlapping, inside the message.
pub open spec fn well_formed(len: int, spans: Seq<Extent>) -> bool {
    ordered(spans) && within(len, spans)
}

/// Where the code block that opens with the backtick at `at` ends.
///
/// Three backticks are closed by the next three backticks that start at
/// least three bytes later, one backtick by the next backtick. A block that
/// is never closed runs to the end of the message.
pub open spec fn fence_end(msg: Seq<u8>, at: int) -> int {
    if triple_at(msg, at) {
        let close = next_triple(msg, at + 3);
        if close < msg.len() {
            close + 3
        } else {
            msg.len() as int
        }
    } else {
        let close = next_tick(msg, at + 1);
        if close < msg.len() {
            close + 1
        } else {
            msg.len() as int
        }
    }
}

/// The text piece for `[start, end)`, or nothing when the range is empty.
pub open spec fn text_between(start: int, end: int) -> Seq<Piece> {
    if start < end {
        seq![Piece::Text { start, end }]
    } else {
        Seq::empty()
    }
}

/// The pieces from offset `cursor` on, when the spans before `next` have
/// been dealt with.
///
/// A span that starts before the cursor was swallowed by a code block and is
/// passed over. Otherwise the next backtick and the next span race: the
/// backtick wins only when it comes strictly first.
pub open spec fn layout_from(msg: Seq<u8>, spans: Seq<Extent>, cursor: int, next: int) -> Seq<
    Piece,
>
    decreases msg.len() - cursor, spans.len() - next,
    when well_formed(msg.len() as int, spans) && 0 <= cursor && 0 <= next
    via layout_from_decreases
{
    if cursor >= msg.len() {
        Seq::empty()
    } else if next < spans.len() && spans[next].start < cursor {
        layout_from(msg, spans, cursor, next + 1)
    } else {
        let tick = next_tick(msg, cursor);
        if tick < msg.len() && (next >= spans.len() || tick < spans[next].start) {
            let end = fence_end(msg, tick);
            text_between(cursor, tick) + seq![Piece::Codeblock { start: tick, end }] + layout_from(
                msg,
                spans,
                end,
                next,
            )
        } else if next < spans.len() {
            let span = spans[next];
            text_between(cursor, span.start) + seq![
                Piece::Emote { index: next, start: span.start, end: span.end },
            ] + layout_from(msg, spans, span.end, next + 1)
        } else {
            seq![Piece::Text { start: cursor, end: msg.len() as int }]
        }
    }
}

#[via_fn]
proof fn layout_from_decreases(msg: Seq<u8>, spans: Seq<Extent>, cursor: int, next: int) {
    if cursor < msg.len() {
        lemma_next_tick(msg, cursor);
        let tick = next_tick(msg, cursor);
        if tick < msg.len() {
            lemma_fence_end(msg, tick);
        }
    }
}

/// The pieces of a whole message.
pub open spec fn layout(msg: Seq<u8>, spans: Seq<Extent>) -> Seq<Piece> {
    layout_from(msg, spans, 0, 0)
}

/// A code block covers at least its opening backtick and stays inside the
/// message.
pub proof fn lemma_fence_end(msg: Seq<u8>, at: int)
    requires
        0 <= at < msg.len(),
    ensures
        at < fence_end(msg, at) <= msg.len(),
{
    if triple_at(msg, at) {
        lemma_next_triple(msg, at + 3);
    } else {
        lemma_next_tick(msg, at + 1);
    }
}

} // verus!
