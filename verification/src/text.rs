//! Cutting a string at byte offsets.
//!
//! A `&str` can only be cut where a character starts. The facts here say
//! where that is in terms of single bytes, so that a cut next to an ASCII
//! byte, such as a backtick, is known to be allowed.

use vstd::prelude::*;
use vstd::string::StringSliceAdditionalSpecFns;
use vstd::utf8::{
    encode_utf8, encode_utf8_valid_utf8, is_char_boundary,
    is_char_boundary_iff_not_is_continuation_byte, is_char_boundary_start_end_of_seq,
    is_continuation_byte, valid_utf8, valid_utf8_split,
};

verus! {

/// The bytes of a string are valid UTF-8.
pub proof fn lemma_str_valid(s: &str)
    ensures
        valid_utf8(s.spec_bytes()),
{
    encode_utf8_valid_utf8(s@);
}

/// The bytes of two strings put together are the bytes of the first and
/// then the bytes of the second.
pub proof fn lemma_encode_add(a: Seq<char>, b: Seq<char>)
    ensures
        encode_utf8(a + b) == encode_utf8(a) + encode_utf8(b),
    decreases a.len(),
{
    if a.len() == 0 {
        assert(a + b =~= b);
        assert(encode_utf8(a) + encode_utf8(b) =~= encode_utf8(b));
    } else {
        assert((a + b).drop_first() =~= a.drop_first() + b);
        lemma_encode_add(a.drop_first(), b);
        assert(encode_utf8(a + b) =~= encode_utf8(a) + encode_utf8(b));
    }
}

/// In valid UTF-8 an offset is a character boundary exactly when it is the
/// end of the bytes or the byte there is no continuation byte.
pub proof fn lemma_boundary_iff(bytes: Seq<u8>, at: int)
    requires
        valid_utf8(bytes),
        0 <= at <= bytes.len(),
    ensures
        is_char_boundary(bytes, at) <==> (at == bytes.len() || !is_continuation_byte(bytes[at])),
{
    if at == bytes.len() {
        is_char_boundary_start_end_of_seq(bytes);
    } else {
        is_char_boundary_iff_not_is_continuation_byte(bytes, at);
    }
}

/// An ASCII byte is a character of its own: there is a boundary before it
/// and one after it.
pub proof fn lemma_ascii_is_char(bytes: Seq<u8>, at: int)
    requires
        valid_utf8(bytes),
        0 <= at < bytes.len(),
        bytes[at] <= 0x7f,
    ensures
        is_char_boundary(bytes, at),
        is_char_boundary(bytes, at + 1),
{
    lemma_boundary_iff(bytes, at);
    valid_utf8_split(bytes, at);
    let tail = bytes.subrange(at, bytes.len() as int);
    assert(tail[0] == bytes[at]);
    let rest = tail.subrange(1, tail.len() as int);
    assert(valid_utf8(rest));
    if at + 1 < bytes.len() {
        assert(rest[0] == bytes[at + 1]);
        assert(!is_continuation_byte(rest[0]));
    }
    lemma_boundary_iff(bytes, at + 1);
}

/// A boundary of the whole is a boundary of any prefix that reaches it, when
/// the prefix itself ends on a boundary.
pub proof fn lemma_boundary_in_prefix(bytes: Seq<u8>, from: int, to: int)
    requires
        valid_utf8(bytes),
        0 <= from <= to <= bytes.len(),
        is_char_boundary(bytes, from),
        is_char_boundary(bytes, to),
    ensures
        valid_utf8(bytes.subrange(0, to)),
        is_char_boundary(bytes.subrange(0, to), from),
{
    valid_utf8_split(bytes, to);
    lemma_boundary_iff(bytes, from);
    lemma_boundary_iff(bytes.subrange(0, to), from);
}

/// The part of `msg` between two byte offsets that are character boundaries.
pub fn slice<'a>(msg: &'a str, from: usize, to: usize) -> (part: &'a str)
    requires
        from <= to <= msg.spec_bytes().len(),
        is_char_boundary(msg.spec_bytes(), from as int),
        is_char_boundary(msg.spec_bytes(), to as int),
    ensures
        part.spec_bytes() == msg.spec_bytes().subrange(from as int, to as int),
{
    let (head, _) = msg.split_at(to);
    proof {
        lemma_str_valid(msg);
        lemma_boundary_in_prefix(msg.spec_bytes(), from as int, to as int);
    }
    let (_, part) = head.split_at(from);
    assert(part.spec_bytes() =~= msg.spec_bytes().subrange(from as int, to as int));
    part
}

} // verus!
