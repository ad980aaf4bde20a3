//! Making a test case from a list of parts: the message, the emote spans,
//! and the parts that segmentation should give back.

use std::ops::Range;
use vstd::prelude::*;
use vstd::string::{StringExecFns, StringSliceAdditionalSpecFns};
use vstd::utf8::{encode_utf8, is_char_boundary, valid_utf8};
use crate::fuzz::{coherent, part_ok, shapes, FuzzMessagePart, Shape};
use crate::layout::Extent;
use crate::oracle::{
    expected_of, expected_part, ids_of, lemma_byte_at, lemma_offset_ends, lemma_part_place,
    lemma_rank_step, message_of, offset, rank, spans_of,
};
use crate::parts::{extents, idents, on_boundaries, views, MessagePart};
use crate::text::{lemma_ascii_is_char, lemma_encode_add};

verus! {

/// A test case: a message, the spans of its emotes with their identifiers,
/// and the parts that segmentation should give back.
#[derive(Debug)]
pub struct Case<'a> {
    pub message: String,
    pub emotes: Vec<(&'a str, Range<usize>)>,
    pub parts: Vec<MessagePart<'a, 'a>>,
}

/// The number of bytes of a string.
pub fn byte_len(s: &String) -> (len: usize)
    ensures
        len == encode_utf8(s@).len(),
{
    s.as_str().as_bytes().len()
}

/// Makes the test case of a list of parts. The message is the text of all
/// parts in a row; each emote gives a span, where its text stands, and is
/// expected back by its identifier; text and code blocks are expected back
/// as they are.
pub fn compose<'a>(data: &'a [FuzzMessagePart]) -> (case: Case<'a>)
    ensures
        encode_utf8(case.message@) == message_of(shapes(data@)),
        extents(case.emotes@) == spans_of(shapes(data@)),
        idents(case.emotes@) == ids_of(shapes(data@)),
        views(case.parts@) == expected_of(shapes(data@)),
{
    let ghost shown = shapes(data@);
    let mut message = String::new();
    let mut emotes: Vec<(&'a str, Range<usize>)> = Vec::new();
    let mut parts: Vec<MessagePart<'a, 'a>> = Vec::new();
    let mut i: usize = 0;
    proof {
        assert(shown.take(0) =~= Seq::<Shape>::empty());
        assert(extents(emotes@) =~= spans_of(shown.take(0)));
        assert(idents(emotes@) =~= ids_of(shown.take(0)));
        assert(views(parts@) =~= expected_of(shown.take(0)));
    }
    while i < data.len()
        invariant
            shown == shapes(data@),
            i <= data@.len(),
            encode_utf8(message@) == message_of(shown.take(i as int)),
            extents(emotes@) == spans_of(shown.take(i as int)),
            idents(emotes@) == ids_of(shown.take(i as int)),
            views(parts@) == expected_of(shown.take(i as int)),
        decreases data@.len() - i,
    {
        let ghost before = shown.take(i as int);
        let ghost upto = shown.take(i + 1);
        let ghost old_message = message@;
        let ghost old_emotes = emotes@;
        let ghost old_parts = parts@;
        proof {
            assert(upto.drop_last() =~= before);
            assert(upto.last() == shown[i as int]);
            assert(shown[i as int] == data@[i as int]@);
        }
        match &data[i] {
            FuzzMessagePart::Text(t) => {
                let text = t.as_str();
                parts.push(MessagePart::Text(text));
                message.append(text);
                proof {
                    lemma_encode_add(old_message, text@);
                }
            },
            FuzzMessagePart::Emote(e) => {
                let text = e.text.as_str();
                let id = e.id.as_str();
                parts.push(MessagePart::Emote(id));
                let start = byte_len(&message);
                message.append(text);
                let end = byte_len(&message);
                emotes.push((id, start..end));
                proof {
                    lemma_encode_add(old_message, text@);
                    assert(extents(emotes@) =~= extents(old_emotes).push(
                        Extent { start: start as int, end: end as int },
                    ));
                    assert(idents(emotes@) =~= idents(old_emotes).push(id.spec_bytes()));
                }
            },
            FuzzMessagePart::Codeblock(c) => {
                let text = c.text();
                parts.push(MessagePart::Codeblock(text));
                message.append(text);
                proof {
                    lemma_encode_add(old_message, text@);
                }
            },
        }
        proof {
            assert(extents(emotes@) =~= spans_of(upto));
            assert(idents(emotes@) =~= ids_of(upto));
            assert(views(parts@) =~= expected_of(before).push(expected_part(shown[i as int])));
            assert(views(parts@) =~= expected_of(upto));
        }
        i += 1;
    }
    proof {
        assert(shown.take(i as int) =~= shown);
    }
    Case { message, emotes, parts }
}

/// The spans of the emotes before part `k` start and end where characters
/// of the message start: an emote's text is made of ASCII letters and
/// digits.
proof fn lemma_boundaries_upto(parts: Seq<Shape>, k: int)
    requires
        coherent(parts),
        valid_utf8(message_of(parts)),
        0 <= k <= parts.len(),
    ensures
        rank(parts, k) <= spans_of(parts).len(),
        forall|m: int|
            0 <= m < rank(parts, k) ==> is_char_boundary(
                message_of(parts),
                (#[trigger] spans_of(parts)[m]).start,
            ) && is_char_boundary(message_of(parts), spans_of(parts)[m].end),
    decreases k,
{
    lemma_offset_ends(parts);
    if k > 0 {
        lemma_boundaries_upto(parts, k - 1);
        lemma_rank_step(parts, k - 1);
        lemma_part_place(parts, k - 1);
        assert(part_ok(parts, k - 1));
        match parts[k - 1] {
            Shape::Emote { text, .. } => {
                let msg = message_of(parts);
                lemma_byte_at(parts, k - 1, 0);
                lemma_byte_at(parts, k - 1, text.len() - 1);
                lemma_ascii_is_char(msg, offset(parts, k - 1));
                lemma_ascii_is_char(msg, offset(parts, k) - 1);
            },
            _ => {},
        }
    }
}

/// The spans of a coherent list of parts start and end where characters of
/// its message start.
pub proof fn lemma_spans_on_boundaries(parts: Seq<Shape>)
    requires
        coherent(parts),
        valid_utf8(message_of(parts)),
    ensures
        on_boundaries(message_of(parts), spans_of(parts)),
{
    lemma_offset_ends(parts);
    lemma_boundaries_upto(parts, parts.len() as int);
}

} // verus!
