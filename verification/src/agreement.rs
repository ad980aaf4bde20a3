//! Segmenting the message of a coherent list of parts gives the parts back.

use vstd::prelude::*;
use crate::bytes::{contains_byte, contains_triple, quad_at};
use crate::fuzz::{coherent, part_ok, Shape};
use crate::layout::{fence_end, layout_from, text_between, well_formed, Piece};
use crate::oracle::{
    expected_of, expected_part, ids_of, lemma_byte_at, lemma_later_spans, lemma_offset_ends,
    lemma_part_place, lemma_rank_step, lemma_spans_well_formed, message_of, offset, rank, spans_of,
};
use crate::parts::{part_of, render, segments};
use crate::scan::{
    lemma_next_tick, lemma_next_tick_is, lemma_next_triple_is, next_tick, triple_at, FENCE,
};

verus! {

/// The bytes of part `k` are the bytes of the message from `offset(k)` on.
proof fn lemma_bytes_at(parts: Seq<Shape>, k: int)
    requires
        0 <= k < parts.len(),
    ensures
        0 <= offset(parts, k),
        offset(parts, k + 1) == offset(parts, k) + parts[k].bytes().len(),
        offset(parts, k + 1) <= message_of(parts).len(),
        forall|j: int|
            0 <= j < parts[k].bytes().len() ==> message_of(parts)[offset(parts, k) + j]
                == #[trigger] parts[k].bytes()[j],
{
    lemma_part_place(parts, k);
    assert forall|j: int| 0 <= j < parts[k].bytes().len() implies message_of(parts)[offset(
        parts,
        k,
    ) + j] == #[trigger] parts[k].bytes()[j] by {
        lemma_byte_at(parts, k, j);
    }
}

/// After a code block the message ends or goes on with a byte that is no
/// backtick.
proof fn lemma_after_code(parts: Seq<Shape>, k: int)
    requires
        coherent(parts),
        0 <= k < parts.len(),
        parts[k].is_code(),
    ensures
        offset(parts, k + 1) <= message_of(parts).len(),
        offset(parts, k + 1) < message_of(parts).len() ==> message_of(parts)[offset(parts, k + 1)]
            != FENCE,
        parts[k] is Open ==> offset(parts, k + 1) == message_of(parts).len(),
{
    lemma_part_place(parts, k);
    lemma_offset_ends(parts);
    assert(part_ok(parts, k));
    if k + 1 < parts.len() {
        assert(part_ok(parts, k + 1));
        let t = parts[k + 1].bytes();
        assert(parts[k + 1] is Text);
        assert(t[0] != FENCE);
        lemma_byte_at(parts, k + 1, 0);
    }
}

/// In the message, the code block of part `k` ends where the part ends.
pub proof fn lemma_code_end(parts: Seq<Shape>, k: int)
    requires
        coherent(parts),
        0 <= k < parts.len(),
        parts[k].is_code(),
    ensures
        0 <= offset(parts, k) < message_of(parts).len(),
        message_of(parts)[offset(parts, k)] == FENCE,
        fence_end(message_of(parts), offset(parts, k)) == offset(parts, k + 1),
{
    let msg = message_of(parts);
    let t = parts[k].bytes();
    let a = offset(parts, k);
    let b = offset(parts, k + 1);
    let n = t.len() as int;
    lemma_bytes_at(parts, k);
    lemma_after_code(parts, k);
    assert(part_ok(parts, k));
    assert(t[0] == FENCE);
    assert(msg[a + 0] == t[0]);
    if triple_at(t, 0) {
        assert(msg[a + 1] == t[1] && msg[a + 2] == t[2]);
        assert(triple_at(msg, a));
        assert(triple_at(t, n - 3));
        let close = if parts[k] is Closed {
            b - 3
        } else {
            b
        };
        let inner = if parts[k] is Closed {
            t.subrange(3, n - 3)
        } else {
            t.subrange(3, n)
        };
        assert(!contains_triple(inner));
        assert forall|j: int| a + 3 <= j < close implies !triple_at(msg, j) by {
            if triple_at(msg, j) {
                let i = j - a;
                assert(msg[a + i] == t[i]);
                assert(msg[a + (i + 1)] == t[i + 1]);
                assert(msg[a + (i + 2)] == t[i + 2]);
                if i + 3 <= 3 + inner.len() {
                    assert(inner[i - 3] == t[i]);
                    assert(inner[i - 3 + 1] == t[i + 1]);
                    assert(inner[i - 3 + 2] == t[i + 2]);
                    assert(triple_at(inner, i - 3));
                } else {
                    assert(t[n - 3] == FENCE && t[n - 2] == FENCE && t[n - 1] == FENCE);
                    assert(quad_at(t, i));
                }
            }
        }
        if parts[k] is Closed {
            assert(msg[a + (n - 3)] == t[n - 3]);
            assert(msg[a + (n - 2)] == t[n - 2]);
            assert(msg[a + (n - 1)] == t[n - 1]);
            assert(triple_at(msg, b - 3));
        }
        lemma_next_triple_is(msg, a + 3, close);
    } else {
        if n >= 3 {
            assert(msg[a + 1] == t[1] && msg[a + 2] == t[2]);
        }
        assert(!triple_at(msg, a));
        let close = if parts[k] is Closed {
            b - 1
        } else {
            b
        };
        let inner = if parts[k] is Closed {
            t.subrange(1, n - 1)
        } else {
            t.subrange(1, n)
        };
        assert(!contains_byte(inner, FENCE));
        assert forall|j: int| a + 1 <= j < close implies msg[j] != FENCE by {
            let i = j - a;
            assert(msg[a + i] == t[i]);
            assert(inner[i - 1] == t[i]);
        }
        if parts[k] is Closed {
            assert(msg[a + (n - 1)] == t[n - 1]);
        }
        lemma_next_tick_is(msg, a + 1, close);
    }
}

/// The piece of the layout that part `k` should become.
pub open spec fn piece_of(parts: Seq<Shape>, k: int) -> Piece {
    match parts[k] {
        Shape::Text(_) => Piece::Text { start: offset(parts, k), end: offset(parts, k + 1) },
        Shape::Emote { .. } => Piece::Emote {
            index: rank(parts, k),
            start: offset(parts, k),
            end: offset(parts, k + 1),
        },
        _ => Piece::Codeblock { start: offset(parts, k), end: offset(parts, k + 1) },
    }
}

/// The piece of part `k` stands for the part that is expected of it.
proof fn lemma_piece_renders(parts: Seq<Shape>, k: int)
    requires
        0 <= k < parts.len(),
    ensures
        part_of(message_of(parts), ids_of(parts), piece_of(parts, k)) == expected_part(parts[k]),
{
    lemma_part_place(parts, k);
    lemma_rank_step(parts, k);
}

proof fn lemma_render_add(msg: Seq<u8>, ids: Seq<Seq<u8>>, a: Seq<Piece>, b: Seq<Piece>)
    ensures
        render(msg, ids, a + b) == render(msg, ids, a) + render(msg, ids, b),
{
    assert(render(msg, ids, a + b) =~= render(msg, ids, a) + render(msg, ids, b));
}

/// From the start of part `k`, or of the text before it, the layout goes on
/// with that text, then with the piece of part `k`, then from the end of
/// part `k`. Part `k` is an emote or a code block.
proof fn lemma_piece(parts: Seq<Shape>, k: int, from: int)
    requires
        coherent(parts),
        0 <= k < parts.len(),
        !(parts[k] is Text),
        from == offset(parts, k) || (k > 0 && parts[k - 1] is Text && from == offset(
            parts,
            k - 1,
        )),
    ensures
        from <= offset(parts, k),
        layout_from(message_of(parts), spans_of(parts), from, rank(parts, k)) == text_between(
            from,
            offset(parts, k),
        ) + seq![piece_of(parts, k)] + layout_from(
            message_of(parts),
            spans_of(parts),
            offset(parts, k + 1),
            rank(parts, k + 1),
        ),
{
    let msg = message_of(parts);
    let spans = spans_of(parts);
    let at = offset(parts, k);
    let r = rank(parts, k);
    lemma_spans_well_formed(parts);
    lemma_bytes_at(parts, k);
    lemma_rank_step(parts, k);
    assert(part_ok(parts, k));
    if from != at {
        lemma_bytes_at(parts, k - 1);
        lemma_rank_step(parts, k - 1);
        assert(part_ok(parts, k - 1));
        let before = parts[k - 1].bytes();
        assert forall|j: int| from <= j < at implies msg[j] != FENCE by {
            assert(msg[from + (j - from)] == before[j - from]);
        }
    }
    assert(0 <= from < msg.len());
    if r < spans.len() {
        lemma_later_spans(parts, k, r);
    }
    lemma_next_tick(msg, from);
    let tick = next_tick(msg, from);
    match parts[k] {
        Shape::Emote { text, .. } => {
            assert(msg[at + 0] == text[0]);
            assert(tick >= at);
        },
        _ => {
            lemma_code_end(parts, k);
            lemma_next_tick_is(msg, from, at);
            if r < spans.len() {
                lemma_later_spans(parts, k + 1, r);
            }
        },
    }
}

/// From the start of part `k` on, segmentation gives the parts from `k` on.
proof fn lemma_tail(parts: Seq<Shape>, k: int)
    requires
        coherent(parts),
        0 <= k <= parts.len(),
    ensures
        render(
            message_of(parts),
            ids_of(parts),
            layout_from(message_of(parts), spans_of(parts), offset(parts, k), rank(parts, k)),
        ) == expected_of(parts).skip(k),
    decreases parts.len() - k,
{
    let msg = message_of(parts);
    let spans = spans_of(parts);
    let ids = ids_of(parts);
    let here = layout_from(msg, spans, offset(parts, k), rank(parts, k));
    let want = expected_of(parts).skip(k);
    lemma_spans_well_formed(parts);
    lemma_offset_ends(parts);
    if k == parts.len() {
        lemma_spans_well_formed(parts.take(k));
        assert(here =~= Seq::<Piece>::empty());
        assert(render(msg, ids, here) =~= want);
    } else {
        lemma_part_place(parts, k);
        lemma_rank_step(parts, k);
        lemma_piece_renders(parts, k);
        assert(part_ok(parts, k));
        assert(0 <= rank(parts, k));
        if parts[k] is Text && k + 1 == parts.len() {
            let t = parts[k].bytes();
            lemma_bytes_at(parts, k);
            assert forall|j: int| offset(parts, k) <= j < msg.len() implies msg[j] != FENCE by {
                assert(msg[offset(parts, k) + (j - offset(parts, k))] == t[j - offset(parts, k)]);
            }
            lemma_next_tick_is(msg, offset(parts, k), msg.len() as int);
            assert(here =~= seq![piece_of(parts, k)]);
            assert(render(msg, ids, here) =~= want);
        } else {
            let j = if parts[k] is Text {
                k + 1
            } else {
                k
            };
            if parts[k] is Text {
                assert(part_ok(parts, k + 1));
                lemma_rank_step(parts, k + 1);
                lemma_piece_renders(parts, k + 1);
                lemma_part_place(parts, k + 1);
            }
            lemma_piece(parts, j, offset(parts, k));
            lemma_tail(parts, j + 1);
            let lead = text_between(offset(parts, k), offset(parts, j));
            let rest = layout_from(msg, spans, offset(parts, j + 1), rank(parts, j + 1));
            assert(here == lead + seq![piece_of(parts, j)] + rest);
            lemma_render_add(msg, ids, lead + seq![piece_of(parts, j)], rest);
            lemma_render_add(msg, ids, lead, seq![piece_of(parts, j)]);
            if parts[k] is Text {
                assert(lead =~= seq![piece_of(parts, k)]);
            } else {
                assert(lead =~= Seq::<Piece>::empty());
            }
            assert(render(msg, ids, here) =~= want);
        }
    }
}

/// Segmenting the message that a coherent list of parts makes, with the
/// spans of its emotes, gives back the parts of the list: each text and each
/// code block as it stands, each emote by its identifier.
pub proof fn lemma_agreement(parts: Seq<Shape>)
    requires
        coherent(parts),
    ensures
        well_formed(message_of(parts).len() as int, spans_of(parts)),
        segments(message_of(parts), spans_of(parts), ids_of(parts)) == expected_of(parts),
{
    lemma_spans_well_formed(parts);
    lemma_offset_ends(parts);
    lemma_tail(parts, 0);
    assert(expected_of(parts).skip(0) =~= expected_of(parts));
}

} // verus!
