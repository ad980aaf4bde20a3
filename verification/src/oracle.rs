//! The message that a list of parts makes, and the proof that segmenting it
//! gives the parts back.

use vstd::prelude::*;
use crate::fuzz::Shape;
use crate::layout::{earliest_start, well_formed, Extent};
use crate::parts::PartView;

verus! {

/// The message: the bytes of all parts, one after the other.
pub open spec fn message_of(parts: Seq<Shape>) -> Seq<u8>
    decreases parts.len(),
{
    if parts.len() == 0 {
        Seq::empty()
    } else {
        message_of(parts.drop_last()) + parts.last().bytes()
    }
}

/// The emote spans: for each emote part, in order, the range of the message
/// that its text takes.
pub open spec fn spans_of(parts: Seq<Shape>) -> Seq<Extent>
    decreases parts.len(),
{
    if parts.len() == 0 {
        Seq::empty()
    } else if parts.last() is Emote {
        spans_of(parts.drop_last()).push(
            Extent {
                start: message_of(parts.drop_last()).len() as int,
                end: message_of(parts).len() as int,
            },
        )
    } else {
        spans_of(parts.drop_last())
    }
}

/// The identifiers of the emote parts, in order.
pub open spec fn ids_of(parts: Seq<Shape>) -> Seq<Seq<u8>>
    decreases parts.len(),
{
    if parts.len() == 0 {
        Seq::empty()
    } else {
        match parts.last() {
            Shape::Emote { id, .. } => ids_of(parts.drop_last()).push(id),
            _ => ids_of(parts.drop_last()),
        }
    }
}

/// The part that segmentation should give back for a part of the list.
pub open spec fn expected_part(shape: Shape) -> PartView {
    match shape {
        Shape::Text(t) => PartView::Text(t),
        Shape::Emote { id, .. } => PartView::Emote(id),
        Shape::Open(t) => PartView::Codeblock(t),
        Shape::Closed(t) => PartView::Codeblock(t),
    }
}

/// The parts that segmentation should give back.
pub open spec fn expected_of(parts: Seq<Shape>) -> Seq<PartView> {
    parts.map_values(|s: Shape| expected_part(s))
}

/// Where part number `k` starts in the message; for `k == parts.len()`, the
/// length of the message.
pub open spec fn offset(parts: Seq<Shape>, k: int) -> int {
    message_of(parts.take(k)).len() as int
}

/// How many emotes stand before part number `k`.
pub open spec fn rank(parts: Seq<Shape>, k: int) -> int {
    spans_of(parts.take(k)).len() as int
}

/// The message up to part `k` is the start of the whole message, and part
/// `k` follows it.
pub proof fn lemma_message_prefix(parts: Seq<Shape>, k: int)
    requires
        0 <= k <= parts.len(),
    ensures
        offset(parts, k) <= message_of(parts).len(),
        message_of(parts.take(k)) == message_of(parts).subrange(0, offset(parts, k)),
    decreases parts.len(),
{
    if k == parts.len() {
        assert(parts.take(k) =~= parts);
        assert(message_of(parts).subrange(0, offset(parts, k)) =~= message_of(parts));
    } else {
        let before = parts.drop_last();
        assert(before.take(k) =~= parts.take(k));
        lemma_message_prefix(before, k);
        assert(message_of(parts.take(k)) =~= message_of(parts).subrange(0, offset(parts, k)));
    }
}

/// Part `k` stands in the message from `offset(k)` to `offset(k + 1)`.
pub proof fn lemma_part_place(parts: Seq<Shape>, k: int)
    requires
        0 <= k < parts.len(),
    ensures
        0 <= offset(parts, k),
        offset(parts, k + 1) == offset(parts, k) + parts[k].bytes().len(),
        offset(parts, k + 1) <= message_of(parts).len(),
        message_of(parts).subrange(offset(parts, k), offset(parts, k + 1)) == parts[k].bytes(),
{
    let upto = parts.take(k + 1);
    assert(upto.drop_last() =~= parts.take(k));
    assert(upto.last() == parts[k]);
    lemma_message_prefix(parts, k + 1);
    assert(message_of(upto) == message_of(parts.take(k)) + parts[k].bytes());
    assert(message_of(parts).subrange(offset(parts, k), offset(parts, k + 1))
        =~= parts[k].bytes()) by {
        let whole = message_of(parts);
        let head = message_of(upto);
        assert(head == whole.subrange(0, offset(parts, k + 1)));
        assert forall|j: int| 0 <= j < parts[k].bytes().len() implies whole[offset(parts, k) + j]
            == parts[k].bytes()[j] by {
            assert(head[offset(parts, k) + j] == parts[k].bytes()[j]);
            assert(whole.subrange(0, offset(parts, k + 1))[offset(parts, k) + j] == whole[offset(
                parts,
                k,
            ) + j]);
        }
    }
}

/// The byte number `j` of part `k` stands in the message at `offset(k) + j`.
pub proof fn lemma_byte_at(parts: Seq<Shape>, k: int, j: int)
    requires
        0 <= k < parts.len(),
        0 <= j < parts[k].bytes().len(),
    ensures
        0 <= offset(parts, k) + j < message_of(parts).len(),
        message_of(parts)[offset(parts, k) + j] == parts[k].bytes()[j],
{
    lemma_part_place(parts, k);
    let whole = message_of(parts);
    assert(whole.subrange(offset(parts, k), offset(parts, k + 1))[j] == whole[offset(parts, k)
        + j]);
}

/// The end of the list is the end of the message, and the start its start.
pub proof fn lemma_offset_ends(parts: Seq<Shape>)
    ensures
        offset(parts, 0) == 0,
        rank(parts, 0) == 0,
        offset(parts, parts.len() as int) == message_of(parts).len(),
        rank(parts, parts.len() as int) == spans_of(parts).len(),
{
    assert(parts.take(parts.len() as int) =~= parts);
    assert(parts.take(0) =~= Seq::<Shape>::empty());
}

/// There are as many identifiers as spans.
pub proof fn lemma_ids_len(parts: Seq<Shape>)
    ensures
        ids_of(parts).len() == spans_of(parts).len(),
    decreases parts.len(),
{
    if parts.len() > 0 {
        lemma_ids_len(parts.drop_last());
    }
}

/// The spans and identifiers up to part `k` are the first of all spans and
/// identifiers.
pub proof fn lemma_spans_prefix(parts: Seq<Shape>, k: int)
    requires
        0 <= k <= parts.len(),
    ensures
        rank(parts, k) <= spans_of(parts).len(),
        spans_of(parts.take(k)) == spans_of(parts).take(rank(parts, k)),
        ids_of(parts.take(k)) == ids_of(parts).take(rank(parts, k)),
    decreases parts.len(),
{
    lemma_ids_len(parts);
    lemma_ids_len(parts.take(k));
    if k == parts.len() {
        assert(parts.take(k) =~= parts);
        assert(spans_of(parts).take(rank(parts, k)) =~= spans_of(parts));
        assert(ids_of(parts).take(rank(parts, k)) =~= ids_of(parts));
    } else {
        let before = parts.drop_last();
        assert(before.take(k) =~= parts.take(k));
        lemma_spans_prefix(before, k);
        lemma_ids_len(before);
        assert(spans_of(parts.take(k)) =~= spans_of(parts).take(rank(parts, k)));
        assert(ids_of(parts.take(k)) =~= ids_of(parts).take(rank(parts, k)));
    }
}

/// An emote part has the span and the identifier of its rank, and the rank
/// goes up after it; after any other part the rank stays.
pub proof fn lemma_rank_step(parts: Seq<Shape>, k: int)
    requires
        0 <= k < parts.len(),
    ensures
        0 <= rank(parts, k),
        rank(parts, k + 1) <= spans_of(parts).len(),
        match parts[k] {
            Shape::Emote { id, .. } => {
                &&& rank(parts, k + 1) == rank(parts, k) + 1
                &&& spans_of(parts)[rank(parts, k)] == Extent {
                    start: offset(parts, k),
                    end: offset(parts, k + 1),
                }
                &&& ids_of(parts)[rank(parts, k)] == id
            },
            _ => rank(parts, k + 1) == rank(parts, k),
        },
{
    let upto = parts.take(k + 1);
    assert(upto.drop_last() =~= parts.take(k));
    assert(upto.last() == parts[k]);
    lemma_spans_prefix(parts, k + 1);
    lemma_ids_len(parts.take(k));
    match parts[k] {
        Shape::Emote { id, .. } => {
            let r = rank(parts, k);
            lemma_ids_len(upto);
            lemma_ids_len(parts);
            lemma_part_place(parts, k);
            assert(spans_of(upto) == spans_of(parts.take(k)).push(
                Extent { start: offset(parts, k), end: offset(parts, k + 1) },
            ));
            assert(ids_of(upto) == ids_of(parts.take(k)).push(id));
            assert(rank(parts, k + 1) == r + 1);
            assert(spans_of(upto)[r] == spans_of(parts).take(r + 1)[r]);
            assert(ids_of(upto)[r] == ids_of(parts).take(r + 1)[r]);
        },
        _ => {},
    }
}

/// No span from the rank of part `k` on starts before part `k`.
pub proof fn lemma_later_spans(parts: Seq<Shape>, k: int, m: int)
    requires
        0 <= k <= parts.len(),
        rank(parts, k) <= m < spans_of(parts).len(),
    ensures
        offset(parts, k) <= spans_of(parts)[m].start,
    decreases parts.len(),
{
    if k == parts.len() {
        lemma_offset_ends(parts);
    } else {
        let before = parts.drop_last();
        assert(before.take(k) =~= parts.take(k));
        if m < spans_of(before).len() {
            lemma_later_spans(before, k, m);
        } else {
            lemma_message_prefix(before, k);
        }
    }
}

/// The spans of a list of parts are in order and lie in its message.
pub proof fn lemma_spans_well_formed(parts: Seq<Shape>)
    ensures
        well_formed(message_of(parts).len() as int, spans_of(parts)),
    decreases parts.len(),
{
    let spans = spans_of(parts);
    let len = message_of(parts).len() as int;
    if parts.len() > 0 {
        let before = parts.drop_last();
        let old_spans = spans_of(before);
        lemma_spans_well_formed(before);
        assert forall|i: int| 0 <= i < spans.len() implies #[trigger] earliest_start(spans, i)
            <= spans[i].start by {
            if i < old_spans.len() {
                assert(earliest_start(old_spans, i) <= old_spans[i].start);
            } else if i > 0 {
                assert(old_spans[i - 1].end <= message_of(before).len());
            }
        }
        assert forall|i: int| 0 <= i < spans.len() implies (#[trigger] spans[i]).start
            <= spans[i].end <= len by {
            if i < old_spans.len() {
                assert(old_spans[i].start <= old_spans[i].end <= message_of(before).len());
            }
        }
    }
}

} // verus!
