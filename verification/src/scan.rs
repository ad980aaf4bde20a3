//! Searching a byte string for code fences.
//!
//! A fence is a single backtick or three backticks in a row. Positions are
//! byte offsets; a search that finds nothing answers with the length of the
//! message, the position just past its last byte.

use vstd::prelude::*;

verus! {

/// The backtick, the byte that code fences are made of.
pub const FENCE: u8 = 0x60;

/// The first position at or after `from` that holds a backtick, or
/// `msg.len()` when there is none.
pub open spec fn next_tick(msg: Seq<u8>, from: int) -> int
    decreases msg.len() - from,
{
    if from < 0 || from >= msg.len() {
        msg.len() as int
    } else if msg[from] == FENCE {
        from
    } else {
        next_tick(msg, from + 1)
    }
}

/// True when three backticks in a row start at position `at`.
pub open spec fn triple_at(msg: Seq<u8>, at: int) -> bool {
    &&& 0 <= at
    &&& at + 3 <= msg.len()
    &&& msg[at] == FENCE
    &&& msg[at + 1] == FENCE
    &&& msg[at + 2] == FENCE
}

/// The first position at or after `from` where three backticks start, or
/// `msg.len()` when there is none.
pub open spec fn next_triple(msg: Seq<u8>, from: int) -> int
    decreases msg.len() - from,
{
    if from < 0 || from >= msg.len() {
        msg.len() as int
    } else if triple_at(msg, from) {
        from
    } else {
        next_triple(msg, from + 1)
    }
}

/// `next_tick` names the least backtick position from `from` on.
pub proof fn lemma_next_tick(msg: Seq<u8>, from: int)
    requires
        0 <= from <= msg.len(),
    ensures
        from <= next_tick(msg, from) <= msg.len(),
        next_tick(msg, from) < msg.len() ==> msg[next_tick(msg, from)] == FENCE,
        forall|j: int| from <= j < next_tick(msg, from) ==> msg[j] != FENCE,
    decreases msg.len() - from,
{
    if from < msg.len() && msg[from] != FENCE {
        lemma_next_tick(msg, from + 1);
    }
}

/// A backtick at `k` with none before it from `from` on is what `next_tick`
/// finds; with `k == msg.len()` this is the case of no backtick at all.
pub proof fn lemma_next_tick_is(msg: Seq<u8>, from: int, k: int)
    requires
        0 <= from <= k <= msg.len(),
        k < msg.len() ==> msg[k] == FENCE,
        forall|j: int| from <= j < k ==> msg[j] != FENCE,
    ensures
        next_tick(msg, from) == k,
    decreases k - from,
{
    if from < k {
        lemma_next_tick_is(msg, from + 1, k);
    }
}

/// `next_triple` names the least position from `from` on where three
/// backticks start.
pub proof fn lemma_next_triple(msg: Seq<u8>, from: int)
    requires
        0 <= from <= msg.len(),
    ensures
        from <= next_triple(msg, from) <= msg.len(),
        next_triple(msg, from) < msg.len() ==> triple_at(msg, next_triple(msg, from)),
        forall|j: int| from <= j < next_triple(msg, from) ==> !triple_at(msg, j),
    decreases msg.len() - from,
{
    if from < msg.len() && !triple_at(msg, from) {
        lemma_next_triple(msg, from + 1);
    }
}

/// Three backticks at `k` with no earlier start from `from` on are what
/// `next_triple` finds; with `k == msg.len()` this is the case of none.
pub proof fn lemma_next_triple_is(msg: Seq<u8>, from: int, k: int)
    requires
        0 <= from <= k <= msg.len(),
        k < msg.len() ==> triple_at(msg, k),
        forall|j: int| from <= j < k ==> !triple_at(msg, j),
    ensures
        next_triple(msg, from) == k,
    decreases k - from,
{
    if from < k {
        lemma_next_triple_is(msg, from + 1, k);
    }
}

/// Finds the first backtick at or after `from`.
pub fn find_tick(msg: &[u8], from: usize) -> (at: usize)
    requires
        from <= msg@.len(),
    ensures
        at == next_tick(msg@, from as int),
        from <= at <= msg@.len(),
{
    let mut at: usize = from;
    while at < msg.len() && msg[at] != FENCE
        invariant
            from <= at <= msg@.len(),
            forall|j: int| from <= j < at ==> msg@[j] != FENCE,
        decreases msg@.len() - at,
    {
        at += 1;
    }
    proof {
        lemma_next_tick_is(msg@, from as int, at as int);
    }
    at
}

/// Tells whether three backticks in a row start at `at`.
pub fn starts_triple(msg: &[u8], at: usize) -> (yes: bool)
    requires
        at <= msg@.len(),
    ensures
        yes == triple_at(msg@, at as int),
{
    msg.len() - at >= 3 && msg[at] == FENCE && msg[at + 1] == FENCE && msg[at + 2] == FENCE
}

/// Finds the first position at or after `from` where three backticks start.
pub fn find_triple(msg: &[u8], from: usize) -> (at: usize)
    requires
        from <= msg@.len(),
    ensures
        at == next_triple(msg@, from as int),
        from <= at <= msg@.len(),
{
    let mut at: usize = from;
    while at < msg.len() && !starts_triple(msg, at)
        invariant
            from <= at <= msg@.len(),
            forall|j: int| from <= j < at ==> !triple_at(msg@, j),
        decreases msg@.len() - at,
    {
        at += 1;
    }
    proof {
        lemma_next_triple_is(msg@, from as int, at as int);
    }
    at
}

} // verus!
