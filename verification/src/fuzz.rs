//! Messages made from parts, for testing the segmenter against itself.
//!
//! A list of parts, each with the text it stands for, is turned into a
//! message, a list of emote spans and the parts that segmentation should give
//! back. Lists in which two parts could run into each other are not
//! admitted; for every list that is, segmentation gives back exactly the
//! parts the message was made from.

use vstd::prelude::*;
use vstd::slice::slice_subrange;
use vstd::utf8::encode_utf8;
use crate::agreement::lemma_agreement;
use crate::bytes::{
    all_alnum, all_ident, contains_byte, contains_control, contains_pair, contains_quad,
    contains_triple, ends_with, has_byte, has_control, has_pair, has_quad, has_triple, only_alnum,
    only_ident, starts_with, SPACE,
};
use crate::compose::{compose, lemma_spans_on_boundaries};
use crate::parts::{parse_parts, same_parts};
use crate::scan::{starts_triple, triple_at, FENCE};
use crate::text::lemma_str_valid;

verus! {

/// An emote: the text that stands for it in a message, and its identifier.
#[derive(Debug)]
pub struct FuzzEmote {
    pub text: String,
    pub id: String,
}

/// One part from which a message is made.
#[derive(Debug)]
pub enum FuzzMessagePart {
    Text(String),
    Emote(FuzzEmote),
    Codeblock(FuzzCodeblock),
}

/// A code block with its fences: one that is closed, or one that is left
/// open and so has to end the message.
#[derive(Debug)]
pub enum FuzzCodeblock {
    Open(String),
    Closed(String),
}

/// What a part is, as bytes.
pub enum Shape {
    Text(Seq<u8>),
    Emote { text: Seq<u8>, id: Seq<u8> },
    Open(Seq<u8>),
    Closed(Seq<u8>),
}

impl Shape {
    /// The bytes that the part adds to the message.
    pub open spec fn bytes(self) -> Seq<u8> {
        match self {
            Shape::Text(t) => t,
            Shape::Emote { text, .. } => text,
            Shape::Open(t) => t,
            Shape::Closed(t) => t,
        }
    }

    /// True for a code block, open or closed.
    pub open spec fn is_code(self) -> bool {
        self is Open || self is Closed
    }
}

impl View for FuzzCodeblock {
    type V = Shape;

    open spec fn view(&self) -> Shape {
        match self {
            FuzzCodeblock::Open(t) => Shape::Open(encode_utf8(t@)),
            FuzzCodeblock::Closed(t) => Shape::Closed(encode_utf8(t@)),
        }
    }
}

impl View for FuzzMessagePart {
    type V = Shape;

    open spec fn view(&self) -> Shape {
        match self {
            FuzzMessagePart::Text(t) => Shape::Text(encode_utf8(t@)),
            FuzzMessagePart::Emote(e) => Shape::Emote {
                text: encode_utf8(e.text@),
                id: encode_utf8(e.id@),
            },
            FuzzMessagePart::Codeblock(c) => c@,
        }
    }
}

/// The shapes of a list of parts, in order.
pub open spec fn shapes(data: Seq<FuzzMessagePart>) -> Seq<Shape> {
    data.map_values(|p: FuzzMessagePart| p@)
}

impl FuzzCodeblock {
    /// The text of the code block, fences included.
    pub fn text(&self) -> (t: &str)
        ensures
            t@ == match *self {
                FuzzCodeblock::Open(s) => s@,
                FuzzCodeblock::Closed(s) => s@,
            },
            encode_utf8(t@) == self@.bytes(),
    {
        match self {
            FuzzCodeblock::Open(t) => t.as_str(),
            FuzzCodeblock::Closed(t) => t.as_str(),
        }
    }
}

impl FuzzMessagePart {
    /// The emote, when the part is one.
    pub fn as_emote(&self) -> (found: Option<&FuzzEmote>)
        ensures
            found == match *self {
                FuzzMessagePart::Emote(e) => Some(&e),
                _ => None,
            },
    {
        if let Self::Emote(v) = self {
            Some(v)
        } else {
            None
        }
    }
}

/// A text part that can stand in a message: not empty, after an emote only
/// with a space first, and without control characters, double spaces and
/// backticks.
pub open spec fn text_ok(t: Seq<u8>, after_emote: bool) -> bool {
    &&& t.len() > 0
    &&& after_emote ==> t[0] == SPACE
    &&& !contains_control(t)
    &&& !contains_pair(t, SPACE)
    &&& !contains_byte(t, FENCE)
}

/// An emote that can stand in a message: text of letters and digits, an
/// identifier of letters, digits and underscores, neither empty.
pub open spec fn emote_ok(text: Seq<u8>, id: Seq<u8>) -> bool {
    &&& text.len() > 0
    &&& id.len() > 0
    &&& all_alnum(text)
    &&& all_ident(id)
}

/// A closed code block: it opens and closes with the same fence, one
/// backtick or three, holds no such fence in between, and nowhere four
/// backticks in a row.
pub open spec fn closed_ok(t: Seq<u8>) -> bool {
    &&& starts_with(t, FENCE)
    &&& !contains_quad(t)
    &&& if triple_at(t, 0) {
        &&& t.len() >= 6
        &&& triple_at(t, t.len() - 3)
        &&& !contains_triple(t.subrange(3, t.len() - 3))
    } else {
        &&& t.len() >= 2
        &&& ends_with(t, FENCE)
        &&& !contains_byte(t.subrange(1, t.len() - 1), FENCE)
    }
}

/// An open code block: it opens with a fence and ends with one, and holds no
/// such fence after the one that opens it.
pub open spec fn open_ok(t: Seq<u8>) -> bool {
    &&& starts_with(t, FENCE)
    &&& !contains_quad(t)
    &&& if triple_at(t, 0) {
        &&& triple_at(t, t.len() - 3)
        &&& !contains_triple(t.subrange(3, t.len() as int))
    } else {
        &&& ends_with(t, FENCE)
        &&& !contains_byte(t.subrange(1, t.len() as int), FENCE)
    }
}

/// Part number `i` can stand where it does: it is well made, and it cannot
/// run into the part before it.
pub open spec fn part_ok(parts: Seq<Shape>, i: int) -> bool {
    let after_text = i > 0 && parts[i - 1] is Text;
    let after_emote = i > 0 && parts[i - 1] is Emote;
    let after_code = i > 0 && parts[i - 1].is_code();
    match parts[i] {
        Shape::Text(t) => !after_text && text_ok(t, after_emote),
        Shape::Emote { text, id } => {
            &&& after_text ==> ends_with(parts[i - 1].bytes(), SPACE)
            &&& !after_emote
            &&& !after_code
            &&& emote_ok(text, id)
        },
        Shape::Closed(t) => !after_code && !after_emote && closed_ok(t),
        Shape::Open(t) => !after_code && i == parts.len() - 1 && !after_emote && open_ok(t),
    }
}

/// Every part can stand where it does.
pub open spec fn coherent(parts: Seq<Shape>) -> bool {
    forall|i: int| 0 <= i < parts.len() ==> part_ok(parts, i)
}

/// True when one of the parts is an emote.
pub open spec fn any_emote(parts: Seq<Shape>) -> bool {
    exists|i: int| 0 <= i < parts.len() && parts[i] is Emote
}

/// The lists that are put to the test: at least five parts, an emote among
/// them, and every part where it can stand.
pub open spec fn admitted(parts: Seq<Shape>) -> bool {
    parts.len() >= 5 && any_emote(parts) && coherent(parts)
}

/// The bytes of a string.
pub fn bytes_of(s: &String) -> (b: &[u8])
    ensures
        b@ == encode_utf8(s@),
{
    s.as_str().as_bytes()
}

/// Tells whether a text part can stand in a message.
pub fn text_admitted(t: &[u8], after_emote: bool) -> (ok: bool)
    ensures
        ok == text_ok(t@, after_emote),
{
    if t.len() == 0 {
        return false;
    }
    if after_emote && t[0] != SPACE {
        return false;
    }
    !has_control(t) && !has_pair(t, SPACE) && !has_byte(t, FENCE)
}

/// Tells whether an emote can stand in a message.
pub fn emote_admitted(text: &[u8], id: &[u8]) -> (ok: bool)
    ensures
        ok == emote_ok(text@, id@),
{
    text.len() > 0 && id.len() > 0 && only_alnum(text) && only_ident(id)
}

/// Tells whether a closed code block is well made.
pub fn closed_admitted(t: &[u8]) -> (ok: bool)
    ensures
        ok == closed_ok(t@),
{
    let len = t.len();
    if len == 0 || t[0] != FENCE || has_quad(t) {
        return false;
    }
    if starts_triple(t, 0) {
        len >= 6 && starts_triple(t, len - 3) && !has_triple(slice_subrange(t, 3, len - 3))
    } else {
        len >= 2 && t[len - 1] == FENCE && !has_byte(slice_subrange(t, 1, len - 1), FENCE)
    }
}

/// Tells whether an open code block is well made.
pub fn open_admitted(t: &[u8]) -> (ok: bool)
    ensures
        ok == open_ok(t@),
{
    let len = t.len();
    if len == 0 || t[0] != FENCE || has_quad(t) {
        return false;
    }
    if starts_triple(t, 0) {
        starts_triple(t, len - 3) && !has_triple(slice_subrange(t, 3, len))
    } else {
        t[len - 1] == FENCE && !has_byte(slice_subrange(t, 1, len), FENCE)
    }
}

/// Tells whether part number `i` can stand where it does.
pub fn part_admitted(data: &[FuzzMessagePart], i: usize) -> (ok: bool)
    requires
        i < data@.len(),
    ensures
        ok == part_ok(shapes(data@), i as int),
{
    let ghost parts = shapes(data@);
    assert(parts[i as int] == data@[i as int]@);
    let mut after_text = false;
    let mut after_emote = false;
    let mut after_code = false;
    let mut spaced = false;
    if i > 0 {
        assert(parts[i - 1] == data@[i - 1]@);
        match &data[i - 1] {
            FuzzMessagePart::Text(t) => {
                let b = bytes_of(t);
                after_text = true;
                spaced = b.len() > 0 && b[b.len() - 1] == SPACE;
            },
            FuzzMessagePart::Emote(_) => {
                after_emote = true;
            },
            FuzzMessagePart::Codeblock(c) => {
                assert(c@.is_code());
                after_code = true;
            },
        }
    }
    match &data[i] {
        FuzzMessagePart::Text(t) => !after_text && text_admitted(bytes_of(t), after_emote),
        FuzzMessagePart::Emote(e) => (!after_text || spaced) && !after_emote && !after_code
            && emote_admitted(bytes_of(&e.text), bytes_of(&e.id)),
        FuzzMessagePart::Codeblock(FuzzCodeblock::Closed(t)) => !after_code && !after_emote
            && closed_admitted(bytes_of(t)),
        FuzzMessagePart::Codeblock(FuzzCodeblock::Open(t)) => !after_code && i == data.len() - 1
            && !after_emote && open_admitted(bytes_of(t)),
    }
}

/// Tells whether a list of parts is put to the test.
pub fn admits(data: &[FuzzMessagePart]) -> (ok: bool)
    ensures
        ok == admitted(shapes(data@)),
{
    let ghost parts = shapes(data@);
    if data.len() < 5 {
        return false;
    }
    let mut seen = false;
    let mut i: usize = 0;
    while i < data.len()
        invariant
            parts == shapes(data@),
            i <= data@.len(),
            seen == (exists|j: int| 0 <= j < i && parts[j] is Emote),
        decreases data@.len() - i,
    {
        assert(parts[i as int] == data@[i as int]@);
        if data[i].as_emote().is_some() {
            seen = true;
        }
        i += 1;
    }
    if !seen {
        return false;
    }
    let mut i: usize = 0;
    while i < data.len()
        invariant
            parts == shapes(data@),
            i <= data@.len(),
            forall|j: int| 0 <= j < i ==> part_ok(parts, j),
        decreases data@.len() - i,
    {
        if !part_admitted(data, i) {
            return false;
        }
        i += 1;
    }
    true
}

/// How the test of one list of parts ended.
#[derive(Debug, PartialEq, Eq, Clone, Copy)]
pub enum FuzzOutcome {
    /// The list was not admitted, and nothing was tested.
    Skipped,
    /// Segmentation gave back the parts of the list.
    Agreed,
    /// Segmentation gave back something else.
    Differed,
}

/// Tests the segmenter on one list of parts: makes the message of the list,
/// segments it, and compares what comes back with the list.
///
/// A list that is not admitted is skipped. For a list that is admitted the
/// comparison is made, and it is proved to succeed: `Differed` never comes
/// back.
pub fn fuzz(data: Vec<FuzzMessagePart>) -> (outcome: FuzzOutcome)
    ensures
        outcome == if admitted(shapes(data@)) {
            FuzzOutcome::Agreed
        } else {
            FuzzOutcome::Skipped
        },
{
    let list = data.as_slice();
    if !admits(list) {
        return FuzzOutcome::Skipped;
    }
    let case = compose(list);
    let message = case.message.as_str();
    proof {
        lemma_agreement(shapes(data@));
        lemma_str_valid(message);
        lemma_spans_on_boundaries(shapes(data@));
    }
    let got = parse_parts(message, case.emotes.as_slice());
    if same_parts(got.as_slice(), case.parts.as_slice()) {
        FuzzOutcome::Agreed
    } else {
        FuzzOutcome::Differed
    }
}

} // verus!
