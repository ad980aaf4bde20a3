//! The parts of a message and the segmenter that produces them.

use std::ops::Range;
use vstd::prelude::*;
use vstd::string::StringSliceAdditionalSpecFns;
use vstd::utf8::{is_char_boundary, valid_utf8};
use crate::layout::{
    earliest_start, fence_end, layout, layout_from, lemma_fence_end, ordered, text_between,
    well_formed, within, Extent, Piece,
};
use crate::scan::{
    find_tick, find_triple, lemma_next_tick, lemma_next_triple, next_tick, next_triple,
    starts_triple, triple_at,
};
use crate::text::{lemma_ascii_is_char, lemma_boundary_iff, lemma_str_valid, slice};
use crate::tiling::lemma_no_empty_text;

verus! {

/// One part of a segmented message.
///
/// `Text` and `Codeblock` borrow their bytes from the message, a code block
/// with its fences. `Emote` carries the identifier that the caller gave for
/// the span, and none of the message.
#[derive(Debug, PartialEq, Eq)]
pub enum MessagePart<'a, 'e> {
    Text(&'a str),
    Emote(&'e str),
    Codeblock(&'a str),
}

/// What a part is, as bytes.
pub enum PartView {
    Text(Seq<u8>),
    Emote(Seq<u8>),
    Codeblock(Seq<u8>),
}

impl<'a, 'e> View for MessagePart<'a, 'e> {
    type V = PartView;

    open spec fn view(&self) -> PartView {
        match self {
            MessagePart::Text(s) => PartView::Text(s.spec_bytes()),
            MessagePart::Emote(id) => PartView::Emote(id.spec_bytes()),
            MessagePart::Codeblock(s) => PartView::Codeblock(s.spec_bytes()),
        }
    }
}

/// The views of a sequence of parts, in order.
pub open spec fn views(parts: Seq<MessagePart>) -> Seq<PartView> {
    parts.map_values(|p: MessagePart| p@)
}

/// The byte ranges of a list of emote spans.
pub open spec fn extents(emotes: Seq<(&str, Range<usize>)>) -> Seq<Extent> {
    Seq::new(
        emotes.len(),
        |i: int| Extent { start: emotes[i].1.start as int, end: emotes[i].1.end as int },
    )
}

/// The identifiers of a list of emote spans, as bytes.
pub open spec fn idents(emotes: Seq<(&str, Range<usize>)>) -> Seq<Seq<u8>> {
    Seq::new(emotes.len(), |i: int| emotes[i].0.spec_bytes())
}

/// Every span starts and ends where a character of the message starts.
pub open spec fn on_boundaries(msg: Seq<u8>, spans: Seq<Extent>) -> bool {
    forall|i: int|
        0 <= i < spans.len() ==> is_char_boundary(msg, (#[trigger] spans[i]).start)
            && is_char_boundary(msg, spans[i].end)
}

/// Why a list of emote spans is refused.
#[derive(Debug, PartialEq, Eq, Clone, Copy)]
pub enum PreconditionError {
    /// A span starts before the span before it ends.
    NotSorted,
    /// A span ends before it starts, reaches past the end of the message, or
    /// starts or ends in the middle of a character.
    OutOfRange,
}

/// What a check of the spans against the message finds. Order is looked at
/// first, for the whole list, and the ranges after that.
pub open spec fn verdict(msg: Seq<u8>, spans: Seq<Extent>) -> Result<(), PreconditionError> {
    if !ordered(spans) {
        Err(PreconditionError::NotSorted)
    } else if !(within(msg.len() as int, spans) && on_boundaries(msg, spans)) {
        Err(PreconditionError::OutOfRange)
    } else {
        Ok(())
    }
}

/// The part that a piece of the layout stands for.
pub open spec fn part_of(msg: Seq<u8>, ids: Seq<Seq<u8>>, piece: Piece) -> PartView {
    match piece {
        Piece::Text { start, end } => PartView::Text(msg.subrange(start, end)),
        Piece::Emote { index, .. } => PartView::Emote(ids[index]),
        Piece::Codeblock { start, end } => PartView::Codeblock(msg.subrange(start, end)),
    }
}

/// The parts that a sequence of pieces stands for.
pub open spec fn render(msg: Seq<u8>, ids: Seq<Seq<u8>>, pieces: Seq<Piece>) -> Seq<PartView> {
    pieces.map_values(|p: Piece| part_of(msg, ids, p))
}

/// The segmentation of a message: the parts of its layout.
pub open spec fn segments(msg: Seq<u8>, spans: Seq<Extent>, ids: Seq<Seq<u8>>) -> Seq<PartView> {
    render(msg, ids, layout(msg, spans))
}

/// Finds where the code block that opens at `at` ends.
pub fn close_fence(msg: &[u8], at: usize) -> (end: usize)
    requires
        at < msg@.len(),
    ensures
        end == fence_end(msg@, at as int),
        at < end <= msg@.len(),
{
    let len = msg.len();
    proof {
        lemma_fence_end(msg@, at as int);
    }
    if starts_triple(msg, at) {
        let close = find_triple(msg, at + 3);
        if close < len {
            close + 3
        } else {
            len
        }
    } else {
        let close = find_tick(msg, at + 1);
        if close < len {
            close + 1
        } else {
            len
        }
    }
}

/// A code block that opens at a backtick ends on a character boundary.
pub proof fn lemma_fence_end_boundary(msg: Seq<u8>, at: int)
    requires
        valid_utf8(msg),
        0 <= at < msg.len(),
    ensures
        is_char_boundary(msg, fence_end(msg, at)),
{
    let end = fence_end(msg, at);
    lemma_fence_end(msg, at);
    if triple_at(msg, at) {
        lemma_next_triple(msg, at + 3);
        if next_triple(msg, at + 3) < msg.len() {
            lemma_ascii_is_char(msg, end - 1);
        } else {
            lemma_boundary_iff(msg, end);
        }
    } else {
        lemma_next_tick(msg, at + 1);
        if next_tick(msg, at + 1) < msg.len() {
            lemma_ascii_is_char(msg, end - 1);
        } else {
            lemma_boundary_iff(msg, end);
        }
    }
}

/// Adding a part that stands for a piece keeps parts and pieces in step.
proof fn lemma_render_push(
    msg: Seq<u8>,
    ids: Seq<Seq<u8>>,
    before: Seq<MessagePart>,
    part: MessagePart,
    pieces: Seq<Piece>,
    piece: Piece,
)
    requires
        views(before) == render(msg, ids, pieces),
        part@ == part_of(msg, ids, piece),
    ensures
        views(before.push(part)) == render(msg, ids, pieces.push(piece)),
{
    let left = views(before.push(part));
    let right = render(msg, ids, pieces.push(piece));
    assert(views(before).len() == before.len());
    assert(render(msg, ids, pieces).len() == pieces.len());
    assert(left.len() == right.len());
    assert forall|i: int| 0 <= i < left.len() implies left[i] == right[i] by {
        if i < before.len() {
            assert(left[i] == views(before)[i]);
            assert(right[i] == render(msg, ids, pieces)[i]);
        }
    }
    assert(left =~= right);
}

/// Splits a message into text, emotes and code blocks.
///
/// `emotes` gives, for each emote in the message, its identifier and the
/// byte range it covers. The ranges must be in order, must not overlap, and
/// must lie in the message on character boundaries.
///
/// The result is the segmentation that `segments` defines: the message is
/// read from left to right; a backtick that comes strictly before the next
/// emote opens a code block, which runs to its closing fence or else to the
/// end of the message; an emote that starts inside a code block is dropped;
/// what lies between is text, and empty text is left out.
pub fn parse_parts<'msg, 'e>(msg: &'msg str, emotes: &'e [(&'e str, Range<usize>)]) -> (parts: Vec<
    MessagePart<'msg, 'e>,
>) where 'msg: 'e
    requires
        well_formed(msg.spec_bytes().len() as int, extents(emotes@)),
        on_boundaries(msg.spec_bytes(), extents(emotes@)),
    ensures
        views(parts@) == segments(msg.spec_bytes(), extents(emotes@), idents(emotes@)),
        forall|k: int|
            0 <= k < parts@.len() ==> (#[trigger] parts@[k])@ != PartView::Text(Seq::empty()),
{
    let bytes = msg.as_bytes();
    let len = bytes.len();
    let ghost spans = extents(emotes@);
    let ghost ids = idents(emotes@);
    let mut parts: Vec<MessagePart<'msg, 'e>> = Vec::new();
    let mut cursor: usize = 0;
    let mut next: usize = 0;
    let ghost mut done: Seq<Piece> = Seq::empty();
    proof {
        lemma_str_valid(msg);
        lemma_boundary_iff(bytes@, 0);
        lemma_boundary_iff(bytes@, len as int);
    }
    while cursor < len
        invariant
            bytes@ == msg.spec_bytes(),
            len == bytes@.len(),
            spans == extents(emotes@),
            ids == idents(emotes@),
            valid_utf8(bytes@),
            well_formed(len as int, spans),
            on_boundaries(bytes@, spans),
            cursor <= len,
            next <= emotes@.len(),
            is_char_boundary(bytes@, cursor as int),
            is_char_boundary(bytes@, len as int),
            done + layout_from(bytes@, spans, cursor as int, next as int) == layout(bytes@, spans),
            views(parts@) == render(bytes@, ids, done),
        decreases len - cursor, emotes@.len() - next,
    {
        let ghost start = done;
        let ghost rest = layout_from(bytes@, spans, cursor as int, next as int);
        if next < emotes.len() && emotes[next].1.start < cursor {
            next += 1;
        } else {
            let tick = find_tick(bytes, cursor);
            let code_first = tick < len && (next >= emotes.len() || tick < emotes[next].1.start);
            if !code_first && next >= emotes.len() {
                let text = slice(msg, cursor, len);
                let ghost before = parts@;
                parts.push(MessagePart::Text(text));
                proof {
                    let piece = Piece::Text { start: cursor as int, end: len as int };
                    lemma_render_push(bytes@, ids, before, MessagePart::Text(text), done, piece);
                    assert(rest == seq![piece]);
                    assert(done.push(piece) + Seq::<Piece>::empty() =~= done + rest);
                    done = done.push(piece);
                }
                cursor = len;
            } else {
                let upto = if code_first {
                    tick
                } else {
                    emotes[next].1.start
                };
                proof {
                    lemma_next_tick(bytes@, cursor as int);
                    if code_first {
                        lemma_ascii_is_char(bytes@, tick as int);
                    } else {
                        assert(spans[next as int].start == upto);
                    }
                }
                if cursor < upto {
                    let text = slice(msg, cursor, upto);
                    let ghost before = parts@;
                    parts.push(MessagePart::Text(text));
                    proof {
                        let piece = Piece::Text { start: cursor as int, end: upto as int };
                        lemma_render_push(
                            bytes@,
                            ids,
                            before,
                            MessagePart::Text(text),
                            done,
                            piece,
                        );
                        done = done.push(piece);
                    }
                }
                assert(done =~= start + text_between(cursor as int, upto as int));
                if code_first {
                    let end = close_fence(bytes, tick);
                    proof {
                        lemma_fence_end_boundary(bytes@, tick as int);
                    }
                    let code = slice(msg, tick, end);
                    let ghost before = parts@;
                    parts.push(MessagePart::Codeblock(code));
                    proof {
                        let piece = Piece::Codeblock { start: tick as int, end: end as int };
                        let tail = layout_from(bytes@, spans, end as int, next as int);
                        lemma_render_push(
                            bytes@,
                            ids,
                            before,
                            MessagePart::Codeblock(code),
                            done,
                            piece,
                        );
                        assert(rest == text_between(cursor as int, tick as int) + seq![piece]
                            + tail);
                        assert(done.push(piece) + tail =~= start + rest);
                        done = done.push(piece);
                    }
                    cursor = end;
                } else {
                    let end = emotes[next].1.end;
                    let id = emotes[next].0;
                    let ghost before = parts@;
                    parts.push(MessagePart::Emote(id));
                    proof {
                        let piece = Piece::Emote {
                            index: next as int,
                            start: upto as int,
                            end: end as int,
                        };
                        let tail = layout_from(bytes@, spans, end as int, next + 1);
                        assert(spans[next as int].end == end);
                        assert(ids[next as int] == id.spec_bytes());
                        lemma_render_push(bytes@, ids, before, MessagePart::Emote(id), done, piece);
                        assert(rest == text_between(cursor as int, upto as int) + seq![piece]
                            + tail);
                        assert(done.push(piece) + tail =~= start + rest);
                        done = done.push(piece);
                    }
                    cursor = end;
                    next += 1;
                }
            }
        }
    }
    assert(done =~= layout(bytes@, spans));
    proof {
        lemma_no_empty_text(bytes@, spans, ids);
        assert forall|k: int| 0 <= k < parts@.len() implies (#[trigger] parts@[k])@
            != PartView::Text(Seq::empty()) by {
            assert(views(parts@)[k] == parts@[k]@);
        }
    }
    parts
}

/// Checks a list of emote spans against a message: that the spans are in
/// order and do not overlap, and that each is a range of the message that
/// starts and ends on a character boundary.
pub fn check_spans(msg: &str, emotes: &[(&str, Range<usize>)]) -> (found: Result<
    (),
    PreconditionError,
>)
    ensures
        found == verdict(msg.spec_bytes(), extents(emotes@)),
{
    let ghost spans = extents(emotes@);
    let len = msg.as_bytes().len();
    let mut pos: usize = 0;
    let mut i: usize = 0;
    while i < emotes.len()
        invariant
            spans == extents(emotes@),
            i <= emotes@.len(),
            pos == earliest_start(spans, i as int),
            forall|j: int| 0 <= j < i ==> #[trigger] earliest_start(spans, j) <= spans[j].start,
        decreases emotes@.len() - i,
    {
        if emotes[i].1.start < pos {
            assert(!(earliest_start(spans, i as int) <= spans[i as int].start));
            return Err(PreconditionError::NotSorted);
        }
        pos = emotes[i].1.end;
        i += 1;
    }
    let mut i: usize = 0;
    while i < emotes.len()
        invariant
            spans == extents(emotes@),
            len == msg.spec_bytes().len(),
            ordered(spans),
            i <= emotes@.len(),
            forall|j: int|
                0 <= j < i ==> (#[trigger] spans[j]).start <= spans[j].end <= len
                    && is_char_boundary(msg.spec_bytes(), spans[j].start) && is_char_boundary(
                    msg.spec_bytes(),
                    spans[j].end,
                ),
        decreases emotes@.len() - i,
    {
        let start = emotes[i].1.start;
        let end = emotes[i].1.end;
        if !(start <= end && end <= len && msg.is_char_boundary(start) && msg.is_char_boundary(
            end,
        )) {
            assert(spans[i as int].start == start && spans[i as int].end == end);
            return Err(PreconditionError::OutOfRange);
        }
        i += 1;
    }
    Ok(())
}

/// Splits a message into parts as `parse_parts` does, after checking the
/// spans. A list that is out of order or overlaps is refused, whatever the
/// message; so is one with a span that is no range of the message.
pub fn try_parse_parts<'msg, 'e>(msg: &'msg str, emotes: &'e [(&'e str, Range<usize>)]) -> (out:
    Result<Vec<MessagePart<'msg, 'e>>, PreconditionError>) where 'msg: 'e
    ensures
        match out {
            Ok(parts) => {
                &&& verdict(msg.spec_bytes(), extents(emotes@)) is Ok
                &&& views(parts@) == segments(
                    msg.spec_bytes(),
                    extents(emotes@),
                    idents(emotes@),
                )
            },
            Err(why) => verdict(msg.spec_bytes(), extents(emotes@)) == Err::<
                (),
                PreconditionError,
            >(why),
        },
        !ordered(extents(emotes@)) ==> out == Err::<Vec<MessagePart<'msg, 'e>>, PreconditionError>(
            PreconditionError::NotSorted,
        ),
{
    match check_spans(msg, emotes) {
        Ok(()) => Ok(parse_parts(msg, emotes)),
        Err(why) => Err(why),
    }
}

/// Tells whether two byte strings are the same.
pub fn same_bytes(a: &[u8], b: &[u8]) -> (same: bool)
    ensures
        same == (a@ == b@),
{
    if a.len() != b.len() {
        return false;
    }
    let mut i: usize = 0;
    while i < a.len()
        invariant
            a@.len() == b@.len(),
            i <= a@.len(),
            forall|j: int| 0 <= j < i ==> a@[j] == b@[j],
        decreases a@.len() - i,
    {
        if a[i] != b[i] {
            return false;
        }
        i += 1;
    }
    assert(a@ =~= b@);
    true
}

/// Tells whether two parts are of the same kind and hold the same bytes.
pub fn same_part(a: &MessagePart, b: &MessagePart) -> (same: bool)
    ensures
        same == (a@ == b@),
{
    match (a, b) {
        (MessagePart::Text(x), MessagePart::Text(y)) => same_bytes(x.as_bytes(), y.as_bytes()),
        (MessagePart::Emote(x), MessagePart::Emote(y)) => same_bytes(x.as_bytes(), y.as_bytes()),
        (MessagePart::Codeblock(x), MessagePart::Codeblock(y)) => same_bytes(
            x.as_bytes(),
            y.as_bytes(),
        ),
        _ => false,
    }
}

/// Tells whether two lists of parts are the same, part by part.
pub fn same_parts(a: &[MessagePart], b: &[MessagePart]) -> (same: bool)
    ensures
        same == (views(a@) == views(b@)),
{
    if a.len() != b.len() {
        assert(views(a@).len() != views(b@).len());
        return false;
    }
    let mut i: usize = 0;
    while i < a.len()
        invariant
            a@.len() == b@.len(),
            i <= a@.len(),
            forall|j: int| 0 <= j < i ==> a@[j]@ == b@[j]@,
        decreases a@.len() - i,
    {
        if !same_part(&a[i], &b[i]) {
            assert(views(a@)[i as int] == a@[i as int]@);
            assert(views(b@)[i as int] == b@[i as int]@);
            return false;
        }
        i += 1;
    }
    assert(views(a@) =~= views(b@));
    true
}

} // verus!
