//! Which emote spans survive segmentation.
//!
//! A span that starts inside the message is kept exactly once unless it
//! starts inside a code block, in which case it is dropped. A span that
//! starts at the very end of the message is kept only when it is the first
//! to start there and text leads up to it: the scan stops as soon as it
//! reaches the end. The kept spans appear in the order in which the caller
//! gave them.

use vstd::prelude::*;
use crate::layout::{
    earliest_start, fence_end, layout, layout_from, lemma_fence_end, text_between, well_formed,
    Extent, Piece,
};
use crate::scan::{lemma_next_tick, next_tick};
use crate::tiling::{lemma_layout_from_tiles, lemma_pieces_in_range};

verus! {

/// True when the piece is the emote of span number `i`.
pub open spec fn is_emote(piece: Piece, i: int) -> bool {
    match piece {
        Piece::Emote { index, .. } => index == i,
        _ => false,
    }
}

/// How many of the pieces are the emote of span number `i`.
pub open spec fn emote_count(pieces: Seq<Piece>, i: int) -> nat
    decreases pieces.len(),
{
    if pieces.len() == 0 {
        0
    } else {
        emote_count(pieces.drop_last(), i) + if is_emote(pieces.last(), i) {
            1nat
        } else {
            0nat
        }
    }
}

/// True when offset `pos` lies inside one of the code block pieces, after
/// its first byte.
pub open spec fn inside_code(pieces: Seq<Piece>, pos: int) -> bool {
    exists|k: int|
        0 <= k < pieces.len() && match #[trigger] pieces[k] {
            Piece::Codeblock { start, end } => start < pos < end,
            _ => false,
        }
}

/// The emote pieces carry span numbers that grow from left to right.
pub open spec fn ascending(pieces: Seq<Piece>) -> bool {
    forall|j: int, k: int|
        0 <= j < k < pieces.len() ==> match (#[trigger] pieces[j], #[trigger] pieces[k]) {
            (Piece::Emote { index: a, .. }, Piece::Emote { index: b, .. }) => a < b,
            _ => true,
        }
}

/// No emote piece carries a span number below `least`.
pub open spec fn indices_from(pieces: Seq<Piece>, least: int) -> bool {
    forall|k: int|
        0 <= k < pieces.len() ==> match #[trigger] pieces[k] {
            Piece::Emote { index, .. } => least <= index,
            _ => true,
        }
}

/// In a well-formed list a later span starts at or after the end of every
/// earlier one, and so not before its start.
pub proof fn lemma_spans_sorted(len: int, spans: Seq<Extent>, j: int, i: int)
    requires
        well_formed(len, spans),
        0 <= j <= i < spans.len(),
    ensures
        spans[j].start <= spans[i].start,
        j < i ==> spans[j].end <= spans[i].start,
    decreases i - j,
{
    if j < i {
        lemma_spans_sorted(len, spans, j, i - 1);
        assert(earliest_start(spans, i) <= spans[i].start);
        assert(spans[i - 1].start <= spans[i - 1].end);
    }
}

proof fn lemma_count_add(a: Seq<Piece>, b: Seq<Piece>, i: int)
    ensures
        emote_count(a + b, i) == emote_count(a, i) + emote_count(b, i),
    decreases b.len(),
{
    if b.len() == 0 {
        assert(a + b =~= a);
    } else {
        assert((a + b).drop_last() =~= a + b.drop_last());
        assert((a + b).last() == b.last());
        lemma_count_add(a, b.drop_last(), i);
    }
}

proof fn lemma_count_one(piece: Piece, i: int)
    ensures
        emote_count(seq![piece], i) == if is_emote(piece, i) {
            1nat
        } else {
            0nat
        },
{
    let one = seq![piece];
    assert(one.drop_last() =~= Seq::<Piece>::empty());
    assert(one.last() == piece);
    assert(emote_count(one.drop_last(), i) == 0);
}

proof fn lemma_count_none(pieces: Seq<Piece>, i: int)
    requires
        forall|k: int| 0 <= k < pieces.len() ==> !is_emote(#[trigger] pieces[k], i),
    ensures
        emote_count(pieces, i) == 0,
    decreases pieces.len(),
{
    if pieces.len() > 0 {
        let rest = pieces.drop_last();
        assert forall|k: int| 0 <= k < rest.len() implies !is_emote(#[trigger] rest[k], i) by {
            assert(rest[k] == pieces[k]);
        }
        lemma_count_none(rest, i);
    }
}

proof fn lemma_inside_add(a: Seq<Piece>, b: Seq<Piece>, pos: int)
    ensures
        inside_code(a + b, pos) <==> inside_code(a, pos) || inside_code(b, pos),
{
    let all = a + b;
    if inside_code(a, pos) {
        let k = choose|k: int|
            0 <= k < a.len() && match #[trigger] a[k] {
                Piece::Codeblock { start, end } => start < pos < end,
                _ => false,
            };
        assert(all[k] == a[k]);
    }
    if inside_code(b, pos) {
        let k = choose|k: int|
            0 <= k < b.len() && match #[trigger] b[k] {
                Piece::Codeblock { start, end } => start < pos < end,
                _ => false,
            };
        assert(all[a.len() + k] == b[k]);
    }
    if inside_code(all, pos) {
        let k = choose|k: int|
            0 <= k < all.len() && match #[trigger] all[k] {
                Piece::Codeblock { start, end } => start < pos < end,
                _ => false,
            };
        if k < a.len() {
            assert(all[k] == a[k]);
        } else {
            assert(all[k] == b[k - a.len()]);
        }
    }
}

/// A run of text, then one piece, then a tail: the emotes of span `i` and the
/// code blocks around `pos` are those of the piece and of the tail.
proof fn lemma_step(from: int, mid: int, piece: Piece, tail: Seq<Piece>, i: int, pos: int)
    ensures
        emote_count(text_between(from, mid) + seq![piece] + tail, i) == emote_count(tail, i)
            + if is_emote(piece, i) {
            1nat
        } else {
            0nat
        },
        inside_code(text_between(from, mid) + seq![piece] + tail, pos) <==> inside_code(tail, pos)
            || match piece {
            Piece::Codeblock { start, end } => start < pos < end,
            _ => false,
        },
{
    let text = text_between(from, mid);
    let one = seq![piece];
    lemma_count_add(text + one, tail, i);
    lemma_count_add(text, one, i);
    lemma_count_one(piece, i);
    lemma_count_none(text, i);
    lemma_inside_add(text + one, tail, pos);
    lemma_inside_add(text, one, pos);
    assert(!inside_code(text, pos));
    assert(one[0] == piece);
    if inside_code(one, pos) {
        let k = choose|k: int|
            0 <= k < one.len() && match #[trigger] one[k] {
                Piece::Codeblock { start, end } => start < pos < end,
                _ => false,
            };
        assert(one[k] == piece);
    }
}

/// From `cursor` on, with the spans before `next` dealt with, only spans
/// from `next` on appear, and in growing order.
pub proof fn lemma_indices_from(msg: Seq<u8>, spans: Seq<Extent>, cursor: int, next: int)
    requires
        well_formed(msg.len() as int, spans),
        0 <= cursor <= msg.len(),
        0 <= next,
    ensures
        indices_from(layout_from(msg, spans, cursor, next), next),
        ascending(layout_from(msg, spans, cursor, next)),
    decreases msg.len() - cursor, spans.len() - next,
{
    let len = msg.len() as int;
    let all = layout_from(msg, spans, cursor, next);
    if cursor >= len {
    } else if next < spans.len() && spans[next].start < cursor {
        lemma_indices_from(msg, spans, cursor, next + 1);
    } else {
        lemma_next_tick(msg, cursor);
        let tick = next_tick(msg, cursor);
        if tick < len && (next >= spans.len() || tick < spans[next].start) {
            lemma_fence_end(msg, tick);
            let end = fence_end(msg, tick);
            let piece = Piece::Codeblock { start: tick, end };
            let tail = layout_from(msg, spans, end, next);
            lemma_indices_from(msg, spans, end, next);
            lemma_ascending_step(cursor, tick, piece, tail, next);
        } else if next < spans.len() {
            let span = spans[next];
            let piece = Piece::Emote { index: next, start: span.start, end: span.end };
            let tail = layout_from(msg, spans, span.end, next + 1);
            lemma_indices_from(msg, spans, span.end, next + 1);
            lemma_ascending_step(cursor, span.start, piece, tail, next);
        } else {
        }
    }
}

proof fn lemma_ascending_step(from: int, mid: int, piece: Piece, tail: Seq<Piece>, next: int)
    requires
        ascending(tail),
        match piece {
            Piece::Emote { index, .. } => index == next && indices_from(tail, next + 1),
            _ => indices_from(tail, next),
        },
    ensures
        indices_from(text_between(from, mid) + seq![piece] + tail, next),
        ascending(text_between(from, mid) + seq![piece] + tail),
{
    let text = text_between(from, mid);
    let all = text + seq![piece] + tail;
    let shift = text.len() + 1;
    assert forall|k: int| 0 <= k < all.len() implies match #[trigger] all[k] {
        Piece::Emote { index, .. } => next <= index,
        _ => true,
    } by {
        if k >= shift {
            assert(all[k] == tail[k - shift]);
        }
    }
    assert forall|j: int, k: int| 0 <= j < k < all.len() implies match (
        #[trigger] all[j],
        #[trigger] all[k],
    ) {
        (Piece::Emote { index: a, .. }, Piece::Emote { index: b, .. }) => a < b,
        _ => true,
    } by {
        if k >= shift {
            assert(all[k] == tail[k - shift]);
        }
        if j >= shift {
            assert(all[j] == tail[j - shift]);
        }
    }
}

/// From `cursor` on, with the spans before `next` dealt with: a span from
/// `next` on that starts inside the message is kept once when it starts at
/// or after the cursor and outside every code block that follows, and is
/// dropped otherwise.
pub proof fn lemma_count_from(msg: Seq<u8>, spans: Seq<Extent>, cursor: int, next: int, i: int)
    requires
        well_formed(msg.len() as int, spans),
        0 <= cursor <= msg.len(),
        0 <= next <= i < spans.len(),
        spans[i].start < msg.len(),
    ensures
        emote_count(layout_from(msg, spans, cursor, next), i) == if spans[i].start >= cursor
            && !inside_code(layout_from(msg, spans, cursor, next), spans[i].start) {
            1nat
        } else {
            0nat
        },
    decreases msg.len() - cursor, spans.len() - next,
{
    let len = msg.len() as int;
    let all = layout_from(msg, spans, cursor, next);
    let pos = spans[i].start;
    lemma_spans_sorted(len, spans, next, i);
    if cursor >= len {
    } else if next < spans.len() && spans[next].start < cursor {
        if i == next {
            lemma_indices_from(msg, spans, cursor, next + 1);
            lemma_count_none(all, i);
        } else {
            lemma_count_from(msg, spans, cursor, next + 1, i);
        }
    } else {
        lemma_next_tick(msg, cursor);
        let tick = next_tick(msg, cursor);
        if tick < len && (next >= spans.len() || tick < spans[next].start) {
            lemma_fence_end(msg, tick);
            let end = fence_end(msg, tick);
            let piece = Piece::Codeblock { start: tick, end };
            let tail = layout_from(msg, spans, end, next);
            lemma_count_from(msg, spans, end, next, i);
            lemma_step(cursor, tick, piece, tail, i, pos);
        } else {
            let span = spans[next];
            let piece = Piece::Emote { index: next, start: span.start, end: span.end };
            let tail = layout_from(msg, spans, span.end, next + 1);
            lemma_step(cursor, span.start, piece, tail, i, pos);
            if i == next {
                lemma_indices_from(msg, spans, span.end, next + 1);
                lemma_count_none(tail, i);
                lemma_layout_from_tiles(msg, spans, span.end, next + 1);
                lemma_pieces_in_range(tail, span.end, len);
                assert(!inside_code(tail, pos));
            } else {
                lemma_count_from(msg, spans, span.end, next + 1, i);
            }
        }
    }
}

/// Every span that starts inside the message and outside every code block
/// gives exactly one emote piece; a span that starts inside a code block
/// gives none.
pub proof fn lemma_emote_fidelity(msg: Seq<u8>, spans: Seq<Extent>, i: int)
    requires
        well_formed(msg.len() as int, spans),
        0 <= i < spans.len(),
        spans[i].start < msg.len(),
    ensures
        emote_count(layout(msg, spans), i) == if inside_code(layout(msg, spans), spans[i].start) {
            0nat
        } else {
            1nat
        },
{
    lemma_spans_sorted(msg.len() as int, spans, 0, i);
    assert(earliest_start(spans, 0) <= spans[0].start);
    lemma_count_from(msg, spans, 0, 0, i);
}

/// True when one of the pieces is text that ends at offset `to`.
pub open spec fn text_reaches(pieces: Seq<Piece>, to: int) -> bool {
    exists|k: int|
        0 <= k < pieces.len() && match #[trigger] pieces[k] {
            Piece::Text { end, .. } => end == to,
            _ => false,
        }
}

proof fn lemma_reaches_add(a: Seq<Piece>, b: Seq<Piece>, to: int)
    ensures
        text_reaches(a + b, to) <==> text_reaches(a, to) || text_reaches(b, to),
{
    let all = a + b;
    if text_reaches(a, to) {
        let k = choose|k: int|
            0 <= k < a.len() && match #[trigger] a[k] {
                Piece::Text { end, .. } => end == to,
                _ => false,
            };
        assert(all[k] == a[k]);
    }
    if text_reaches(b, to) {
        let k = choose|k: int|
            0 <= k < b.len() && match #[trigger] b[k] {
                Piece::Text { end, .. } => end == to,
                _ => false,
            };
        assert(all[a.len() + k] == b[k]);
    }
    if text_reaches(all, to) {
        let k = choose|k: int|
            0 <= k < all.len() && match #[trigger] all[k] {
                Piece::Text { end, .. } => end == to,
                _ => false,
            };
        if k < a.len() {
            assert(all[k] == a[k]);
        } else {
            assert(all[k] == b[k - a.len()]);
        }
    }
}

/// A run of text, then an emote or a code block, then a tail: text reaches
/// `to` when the run does or when text of the tail does.
proof fn lemma_reaches_step(from: int, mid: int, piece: Piece, tail: Seq<Piece>, to: int)
    requires
        !(piece is Text),
    ensures
        text_reaches(text_between(from, mid) + seq![piece] + tail, to) <==> (from < mid && mid
            == to) || text_reaches(tail, to),
{
    let text = text_between(from, mid);
    let one = seq![piece];
    lemma_reaches_add(text + one, tail, to);
    lemma_reaches_add(text, one, to);
    if from < mid {
        assert(text[0] == Piece::Text { start: from, end: mid });
    }
    if text_reaches(one, to) {
        let k = choose|k: int|
            0 <= k < one.len() && match #[trigger] one[k] {
                Piece::Text { end, .. } => end == to,
                _ => false,
            };
        assert(one[k] == piece);
    }
}

/// From `cursor` on, with the spans before `next` dealt with: a span that
/// starts at the very end of the message is kept once when no span before it
/// starts there too and text leads up to the end, and is dropped otherwise.
pub proof fn lemma_count_at_end(msg: Seq<u8>, spans: Seq<Extent>, cursor: int, next: int, i: int)
    requires
        well_formed(msg.len() as int, spans),
        0 <= cursor <= msg.len(),
        0 <= next <= i < spans.len(),
        spans[i].start == msg.len(),
        next == 0 || spans[next - 1].start < msg.len() || cursor >= msg.len(),
    ensures
        emote_count(layout_from(msg, spans, cursor, next), i) == if (i == 0 || spans[i - 1].start
            < msg.len()) && text_reaches(
            layout_from(msg, spans, cursor, next),
            msg.len() as int,
        ) {
            1nat
        } else {
            0nat
        },
    decreases msg.len() - cursor, spans.len() - next,
{
    let len = msg.len() as int;
    let all = layout_from(msg, spans, cursor, next);
    lemma_spans_sorted(len, spans, next, i);
    if cursor >= len {
    } else if next < spans.len() && spans[next].start < cursor {
        lemma_count_at_end(msg, spans, cursor, next + 1, i);
    } else {
        lemma_next_tick(msg, cursor);
        let tick = next_tick(msg, cursor);
        if tick < len && (next >= spans.len() || tick < spans[next].start) {
            lemma_fence_end(msg, tick);
            let end = fence_end(msg, tick);
            let piece = Piece::Codeblock { start: tick, end };
            let tail = layout_from(msg, spans, end, next);
            lemma_count_at_end(msg, spans, end, next, i);
            lemma_step(cursor, tick, piece, tail, i, len);
            lemma_reaches_step(cursor, tick, piece, tail, len);
        } else {
            let span = spans[next];
            let piece = Piece::Emote { index: next, start: span.start, end: span.end };
            let tail = layout_from(msg, spans, span.end, next + 1);
            lemma_step(cursor, span.start, piece, tail, i, len);
            lemma_reaches_step(cursor, span.start, piece, tail, len);
            if i == next {
                assert(tail =~= Seq::<Piece>::empty());
            } else {
                lemma_spans_sorted(len, spans, next, i - 1);
                lemma_count_at_end(msg, spans, span.end, next + 1, i);
            }
        }
    }
}

/// A span that starts at the very end of the message gives exactly one
/// emote piece when it is the first span to start there and text leads up to
/// the end of the message; otherwise it gives none.
pub proof fn lemma_emote_at_end(msg: Seq<u8>, spans: Seq<Extent>, i: int)
    requires
        well_formed(msg.len() as int, spans),
        0 <= i < spans.len(),
        spans[i].start == msg.len(),
    ensures
        emote_count(layout(msg, spans), i) == if (i == 0 || spans[i - 1].start < msg.len())
            && text_reaches(layout(msg, spans), msg.len() as int) {
            1nat
        } else {
            0nat
        },
{
    lemma_count_at_end(msg, spans, 0, 0, i);
}

/// The emotes that are kept appear in the order of their spans, and no span
/// appears twice.
pub proof fn lemma_emotes_in_order(msg: Seq<u8>, spans: Seq<Extent>)
    requires
        well_formed(msg.len() as int, spans),
    ensures
        ascending(layout(msg, spans)),
{
    lemma_indices_from(msg, spans, 0, 0);
}

} // verus!
