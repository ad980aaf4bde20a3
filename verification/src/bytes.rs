//! Simple questions about the bytes of a string: whether a byte or a run of
//! bytes occurs in it, and whether all of it is of one kind.
//!
//! A byte below `0x80` in a string is always a character of its own, so a
//! question about ASCII characters is a question about bytes.

use vstd::prelude::*;
use crate::scan::{find_triple, lemma_next_triple, triple_at, FENCE};

verus! {

/// The space character.
pub const SPACE: u8 = 0x20;

/// True when `x` occurs in `t`.
pub open spec fn contains_byte(t: Seq<u8>, x: u8) -> bool {
    exists|i: int| 0 <= i < t.len() && t[i] == x
}

/// True when `x` stands at `at` and again right after it.
pub open spec fn pair_at(t: Seq<u8>, at: int, x: u8) -> bool {
    0 <= at && at + 2 <= t.len() && t[at] == x && t[at + 1] == x
}

/// True when `x` occurs twice in a row in `t`.
pub open spec fn contains_pair(t: Seq<u8>, x: u8) -> bool {
    exists|at: int| pair_at(t, at, x)
}

/// True when three backticks in a row occur in `t`.
pub open spec fn contains_triple(t: Seq<u8>) -> bool {
    exists|at: int| triple_at(t, at)
}

/// True when four backticks in a row start at `at`.
pub open spec fn quad_at(t: Seq<u8>, at: int) -> bool {
    triple_at(t, at) && at + 4 <= t.len() && t[at + 3] == FENCE
}

/// True when four backticks in a row occur in `t`.
pub open spec fn contains_quad(t: Seq<u8>) -> bool {
    exists|at: int| quad_at(t, at)
}

/// An ASCII control character: below the space, or the delete character.
pub open spec fn is_control(b: u8) -> bool {
    b <= 0x1f || b == 0x7f
}

/// True when a control character occurs in `t`.
pub open spec fn contains_control(t: Seq<u8>) -> bool {
    exists|i: int| 0 <= i < t.len() && is_control(t[i])
}

/// An ASCII digit or letter.
pub open spec fn is_alnum(b: u8) -> bool {
    (0x30 <= b <= 0x39) || (0x41 <= b <= 0x5a) || (0x61 <= b <= 0x7a)
}

/// Every byte of `t` is an ASCII digit or letter.
pub open spec fn all_alnum(t: Seq<u8>) -> bool {
    forall|i: int| 0 <= i < t.len() ==> is_alnum(#[trigger] t[i])
}

/// Every byte of `t` is an ASCII digit, a letter or an underscore.
pub open spec fn all_ident(t: Seq<u8>) -> bool {
    forall|i: int| 0 <= i < t.len() ==> (is_alnum(#[trigger] t[i]) || t[i] == 0x5f)
}

/// True when `t` is not empty and begins with `x`.
pub open spec fn starts_with(t: Seq<u8>, x: u8) -> bool {
    t.len() > 0 && t[0] == x
}

/// True when `t` is not empty and ends with `x`.
pub open spec fn ends_with(t: Seq<u8>, x: u8) -> bool {
    t.len() > 0 && t[t.len() - 1] == x
}

/// Tells whether `x` occurs in `t`.
pub fn has_byte(t: &[u8], x: u8) -> (yes: bool)
    ensures
        yes == contains_byte(t@, x),
{
    let mut i: usize = 0;
    while i < t.len()
        invariant
            i <= t@.len(),
            forall|j: int| 0 <= j < i ==> t@[j] != x,
        decreases t@.len() - i,
    {
        if t[i] == x {
            return true;
        }
        i += 1;
    }
    false
}

/// Tells whether `x` occurs twice in a row in `t`.
pub fn has_pair(t: &[u8], x: u8) -> (yes: bool)
    ensures
        yes == contains_pair(t@, x),
{
    let mut i: usize = 0;
    while i < t.len()
        invariant
            i <= t@.len(),
            forall|j: int| 0 <= j < i ==> !pair_at(t@, j, x),
        decreases t@.len() - i,
    {
        if t.len() - i >= 2 && t[i] == x && t[i + 1] == x {
            assert(pair_at(t@, i as int, x));
            return true;
        }
        i += 1;
    }
    false
}

/// Tells whether three backticks in a row occur in `t`.
pub fn has_triple(t: &[u8]) -> (yes: bool)
    ensures
        yes == contains_triple(t@),
{
    let at = find_triple(t, 0);
    proof {
        lemma_next_triple(t@, 0);
    }
    at < t.len()
}

/// Tells whether four backticks in a row occur in `t`.
pub fn has_quad(t: &[u8]) -> (yes: bool)
    ensures
        yes == contains_quad(t@),
{
    let mut i: usize = 0;
    while i < t.len()
        invariant
            i <= t@.len(),
            forall|j: int| 0 <= j < i ==> !quad_at(t@, j),
        decreases t@.len() - i,
    {
        if t.len() - i >= 4 && t[i] == FENCE && t[i + 1] == FENCE && t[i + 2] == FENCE && t[i + 3]
            == FENCE {
            assert(quad_at(t@, i as int));
            return true;
        }
        i += 1;
    }
    false
}

/// Tells whether a control character occurs in `t`.
pub fn has_control(t: &[u8]) -> (yes: bool)
    ensures
        yes == contains_control(t@),
{
    let mut i: usize = 0;
    while i < t.len()
        invariant
            i <= t@.len(),
            forall|j: int| 0 <= j < i ==> !is_control(t@[j]),
        decreases t@.len() - i,
    {
        if t[i] <= 0x1f || t[i] == 0x7f {
            return true;
        }
        i += 1;
    }
    false
}

/// Tells whether a byte is an ASCII digit or letter.
pub fn alnum(b: u8) -> (yes: bool)
    ensures
        yes == is_alnum(b),
{
    (0x30 <= b && b <= 0x39) || (0x41 <= b && b <= 0x5a) || (0x61 <= b && b <= 0x7a)
}

/// Tells whether every byte of `t` is an ASCII digit or letter.
pub fn only_alnum(t: &[u8]) -> (yes: bool)
    ensures
        yes == all_alnum(t@),
{
    let mut i: usize = 0;
    while i < t.len()
        invariant
            i <= t@.len(),
            forall|j: int| 0 <= j < i ==> is_alnum(#[trigger] t@[j]),
        decreases t@.len() - i,
    {
        if !alnum(t[i]) {
            return false;
        }
        i += 1;
    }
    true
}

/// Tells whether every byte of `t` is an ASCII digit, a letter or an
/// underscore.
pub fn only_ident(t: &[u8]) -> (yes: bool)
    ensures
        yes == all_ident(t@),
{
    let mut i: usize = 0;
    while i < t.len()
        invariant
            i <= t@.len(),
            forall|j: int| 0 <= j < i ==> (is_alnum(#[trigger] t@[j]) || t@[j] == 0x5f),
        decreases t@.len() - i,
    {
        if !(alnum(t[i]) || t[i] == 0x5f) {
            return false;
        }
        i += 1;
    }
    true
}

} // verus!
