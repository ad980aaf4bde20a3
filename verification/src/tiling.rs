//! What the pieces of a layout cover.
//!
//! The pieces of a message lie end to end from its first byte to its last,
//! no text piece is empty, and putting the bytes of all pieces together gives
//! the message back.

use vstd::prelude::*;
use crate::layout::{
    fence_end, layout, layout_from, lemma_fence_end, text_between, well_formed, Extent, Piece,
};
use crate::parts::{part_of, segments, PartView};
use crate::scan::{lemma_next_tick, next_tick};

verus! {

/// The pieces lie end to end and cover exactly `[from, to)`: the first starts
/// at `from`, each next one starts where the one before it ends, and the last
/// ends at `to`. No piece ends before it starts.
pub open spec fn tiles(pieces: Seq<Piece>, from: int, to: int) -> bool
    decreases pieces.len(),
{
    if pieces.len() == 0 {
        from == to
    } else {
        &&& pieces[0].start() == from
        &&& pieces[0].start() <= pieces[0].end()
        &&& tiles(pieces.drop_first(), pieces[0].end(), to)
    }
}

/// No text piece is empty.
pub open spec fn texts_nonempty(pieces: Seq<Piece>) -> bool {
    forall|k: int|
        0 <= k < pieces.len() ==> match #[trigger] pieces[k] {
            Piece::Text { start, end } => start < end,
            _ => true,
        }
}

/// The bytes of the message that the pieces cover, put together in order.
pub open spec fn joined(msg: Seq<u8>, pieces: Seq<Piece>) -> Seq<u8>
    decreases pieces.len(),
{
    if pieces.len() == 0 {
        Seq::empty()
    } else {
        msg.subrange(pieces[0].start(), pieces[0].end()) + joined(msg, pieces.drop_first())
    }
}

/// The bytes that a part stands for when the message is put together again:
/// text and code blocks stand for themselves, an emote for the bytes of the
/// message that its span covers.
pub open spec fn source(msg: Seq<u8>, spans: Seq<Extent>, ids: Seq<Seq<u8>>, piece: Piece) -> Seq<
    u8,
> {
    match part_of(msg, ids, piece) {
        PartView::Text(bytes) => bytes,
        PartView::Codeblock(bytes) => bytes,
        PartView::Emote(_) => match piece {
            Piece::Emote { index, .. } => msg.subrange(spans[index].start, spans[index].end),
            _ => Seq::empty(),
        },
    }
}

/// The message put together again from the parts of the given pieces.
pub open spec fn rebuilt(
    msg: Seq<u8>,
    spans: Seq<Extent>,
    ids: Seq<Seq<u8>>,
    pieces: Seq<Piece>,
) -> Seq<u8>
    decreases pieces.len(),
{
    if pieces.len() == 0 {
        Seq::empty()
    } else {
        source(msg, spans, ids, pieces[0]) + rebuilt(msg, spans, ids, pieces.drop_first())
    }
}

/// Every emote piece carries the number of a span and that span's range.
pub open spec fn emotes_match(spans: Seq<Extent>, pieces: Seq<Piece>) -> bool {
    forall|k: int|
        0 <= k < pieces.len() ==> match #[trigger] pieces[k] {
            Piece::Emote { index, start, end } => 0 <= index < spans.len() && start
                == spans[index].start && end == spans[index].end,
            _ => true,
        }
}

proof fn lemma_tiles_one(piece: Piece, tail: Seq<Piece>, to: int)
    requires
        piece.start() <= piece.end(),
        tiles(tail, piece.end(), to),
    ensures
        tiles(seq![piece] + tail, piece.start(), to),
{
    let all = seq![piece] + tail;
    assert(all[0] == piece);
    assert(all.drop_first() =~= tail);
}

proof fn lemma_tiles_text(from: int, mid: int, tail: Seq<Piece>, to: int)
    requires
        from <= mid,
        tiles(tail, mid, to),
    ensures
        tiles(text_between(from, mid) + tail, from, to),
{
    if from < mid {
        lemma_tiles_one(Piece::Text { start: from, end: mid }, tail, to);
    } else {
        assert(text_between(from, mid) + tail =~= tail);
    }
}

/// The pieces from `cursor` on cover the message from `cursor` to its end.
pub proof fn lemma_layout_from_tiles(msg: Seq<u8>, spans: Seq<Extent>, cursor: int, next: int)
    requires
        well_formed(msg.len() as int, spans),
        0 <= cursor <= msg.len(),
        0 <= next,
    ensures
        tiles(layout_from(msg, spans, cursor, next), cursor, msg.len() as int),
        texts_nonempty(layout_from(msg, spans, cursor, next)),
        emotes_match(spans, layout_from(msg, spans, cursor, next)),
    decreases msg.len() - cursor, spans.len() - next,
{
    let len = msg.len() as int;
    let all = layout_from(msg, spans, cursor, next);
    if cursor >= len {
    } else if next < spans.len() && spans[next].start < cursor {
        lemma_layout_from_tiles(msg, spans, cursor, next + 1);
    } else {
        lemma_next_tick(msg, cursor);
        let tick = next_tick(msg, cursor);
        if tick < len && (next >= spans.len() || tick < spans[next].start) {
            lemma_fence_end(msg, tick);
            let end = fence_end(msg, tick);
            let piece = Piece::Codeblock { start: tick, end };
            let tail = layout_from(msg, spans, end, next);
            lemma_layout_from_tiles(msg, spans, end, next);
            lemma_tiles_one(piece, tail, len);
            lemma_tiles_text(cursor, tick, seq![piece] + tail, len);
            assert(all =~= text_between(cursor, tick) + (seq![piece] + tail));
        } else if next < spans.len() {
            let span = spans[next];
            let piece = Piece::Emote { index: next, start: span.start, end: span.end };
            let tail = layout_from(msg, spans, span.end, next + 1);
            lemma_layout_from_tiles(msg, spans, span.end, next + 1);
            lemma_tiles_one(piece, tail, len);
            lemma_tiles_text(cursor, span.start, seq![piece] + tail, len);
            assert(all =~= text_between(cursor, span.start) + (seq![piece] + tail));
        } else {
            let piece = Piece::Text { start: cursor, end: len };
            assert(all =~= seq![piece]);
            assert(all.drop_first() =~= Seq::<Piece>::empty());
            assert(tiles(all.drop_first(), len, len));
        }
    }
}

/// Pieces that cover `[from, to)` of the message hold, put together, exactly
/// the bytes of that range.
pub proof fn lemma_joined(msg: Seq<u8>, pieces: Seq<Piece>, from: int, to: int)
    requires
        tiles(pieces, from, to),
        0 <= from,
        to <= msg.len(),
    ensures
        from <= to,
        joined(msg, pieces) == msg.subrange(from, to),
    decreases pieces.len(),
{
    if pieces.len() == 0 {
        assert(msg.subrange(from, to) =~= Seq::<u8>::empty());
    } else {
        let mid = pieces[0].end();
        lemma_joined(msg, pieces.drop_first(), mid, to);
        assert(msg.subrange(from, mid) + msg.subrange(mid, to) =~= msg.subrange(from, to));
    }
}

/// Where each emote piece carries its span's range, putting the parts
/// together is putting the covered bytes together.
pub proof fn lemma_rebuilt_is_joined(
    msg: Seq<u8>,
    spans: Seq<Extent>,
    ids: Seq<Seq<u8>>,
    pieces: Seq<Piece>,
)
    requires
        emotes_match(spans, pieces),
    ensures
        rebuilt(msg, spans, ids, pieces) == joined(msg, pieces),
    decreases pieces.len(),
{
    if pieces.len() > 0 {
        let rest = pieces.drop_first();
        assert forall|k: int| 0 <= k < rest.len() implies match #[trigger] rest[k] {
            Piece::Emote { index, start, end } => 0 <= index < spans.len() && start
                == spans[index].start && end == spans[index].end,
            _ => true,
        } by {
            assert(rest[k] == pieces[k + 1]);
        }
        lemma_rebuilt_is_joined(msg, spans, ids, rest);
        assert(source(msg, spans, ids, pieces[0]) == msg.subrange(
            pieces[0].start(),
            pieces[0].end(),
        ));
    }
}

/// The pieces of a message cover it from its first byte to its last, in
/// order, without gaps and without overlap; a span that was dropped covers
/// nothing.
pub proof fn lemma_coverage(msg: Seq<u8>, spans: Seq<Extent>)
    requires
        well_formed(msg.len() as int, spans),
    ensures
        tiles(layout(msg, spans), 0, msg.len() as int),
        emotes_match(spans, layout(msg, spans)),
{
    lemma_layout_from_tiles(msg, spans, 0, 0);
}

/// No text part of a segmentation is empty.
pub proof fn lemma_no_empty_text(msg: Seq<u8>, spans: Seq<Extent>, ids: Seq<Seq<u8>>)
    requires
        well_formed(msg.len() as int, spans),
    ensures
        texts_nonempty(layout(msg, spans)),
        forall|k: int|
            0 <= k < segments(msg, spans, ids).len() ==> #[trigger] segments(msg, spans, ids)[k]
                != PartView::Text(Seq::empty()),
{
    lemma_layout_from_tiles(msg, spans, 0, 0);
    let pieces = layout(msg, spans);
    lemma_pieces_in_range(pieces, 0, msg.len() as int);
    assert forall|k: int| 0 <= k < segments(msg, spans, ids).len() implies #[trigger] segments(
        msg,
        spans,
        ids,
    )[k] != PartView::Text(Seq::empty()) by {
        let piece = pieces[k];
        assert(segments(msg, spans, ids)[k] == part_of(msg, ids, piece));
        match piece {
            Piece::Text { start, end } => {
                assert(msg.subrange(start, end).len() == end - start);
            },
            _ => {},
        }
    }
}

/// Pieces that cover `[from, to)` each lie in that range.
pub proof fn lemma_pieces_in_range(pieces: Seq<Piece>, from: int, to: int)
    requires
        tiles(pieces, from, to),
    ensures
        from <= to,
        forall|k: int|
            0 <= k < pieces.len() ==> from <= (#[trigger] pieces[k]).start() <= pieces[k].end()
                <= to,
    decreases pieces.len(),
{
    if pieces.len() > 0 {
        let rest = pieces.drop_first();
        lemma_pieces_in_range(rest, pieces[0].end(), to);
        assert forall|k: int| 0 <= k < pieces.len() implies from <= (#[trigger] pieces[k]).start()
            <= pieces[k].end() <= to by {
            if k > 0 {
                assert(pieces[k] == rest[k - 1]);
            }
        }
    }
}

/// Putting the parts of a segmentation together again gives the message
/// back: text and code blocks as they are, each emote replaced by the bytes
/// that its span covers.
pub proof fn lemma_round_trip(msg: Seq<u8>, spans: Seq<Extent>, ids: Seq<Seq<u8>>)
    requires
        well_formed(msg.len() as int, spans),
    ensures
        rebuilt(msg, spans, ids, layout(msg, spans)) == msg,
{
    let pieces = layout(msg, spans);
    lemma_layout_from_tiles(msg, spans, 0, 0);
    lemma_rebuilt_is_joined(msg, spans, ids, pieces);
    lemma_joined(msg, pieces, 0, msg.len() as int);
    assert(msg.subrange(0, msg.len() as int) =~= msg);
}

} // verus!
