//! Wrap-around arithmetic for the 16-bit identifiers used on the wire.
//!
//! `MessageId`, `PacketId` and `Tick` all wrap at 16 bits. Two identifiers
//! are compared by their signed wrap-around distance: the difference is
//! reduced modulo 2^16 into the range [-2^15, 2^15), so an identifier is
//! "newer" than another when the reduced difference is positive. Two
//! identifiers exactly 2^15 apart compare as older (the distance is
//! -2^15), matching the convention that ids more than 2^15 apart carry no
//! useful order.

use vstd::prelude::*;

verus! {

/// Signed wrap-around distance from `b` to `a`: the unique integer `d`
/// with `-0x8000 <= d < 0x8000` and `a == (b + d) mod 0x10000`.
pub open spec fn wrap_diff(a: u16, b: u16) -> int {
    let d = (a - b) % 0x10000;
    if d >= 0x8000 {
        d - 0x10000
    } else {
        d
    }
}

/// `a` is strictly newer than `b` by wrap-around distance.
pub open spec fn wrap_gt(a: u16, b: u16) -> bool {
    wrap_diff(a, b) > 0
}

/// The successor of `a` on the 16-bit circle.
pub open spec fn wrap_next(a: u16) -> u16 {
    if a == 0xffff {
        0
    } else {
        (a + 1) as u16
    }
}

proof fn lemma_mod_shift(x: int)
    requires
        -0x10000 <= x < 0x10000,
    ensures
        (x + 0x10000) % 0x10000 == x % 0x10000,
        0 <= x % 0x10000 < 0x10000,
        x >= 0 ==> x % 0x10000 == x,
        x < 0 ==> x % 0x10000 == x + 0x10000,
{
    assert((x + 0x10000) % 0x10000 == x % 0x10000) by (nonlinear_arith)
        requires -0x10000 <= x < 0x10000;
    assert(0 <= x % 0x10000 < 0x10000) by (nonlinear_arith);
    assert(x >= 0 ==> x % 0x10000 == x) by (nonlinear_arith)
        requires x < 0x10000;
    assert(x < 0 ==> x % 0x10000 == x + 0x10000) by (nonlinear_arith)
        requires -0x10000 <= x;
}

/// Executable signed wrap-around distance from `b` to `a`.
pub fn wrapping_diff(a: u16, b: u16) -> (r: i32)
    ensures
        r == wrap_diff(a, b),
{
    let d: u32 = (a as u32 + 0x10000 - b as u32) % 0x10000;
    proof {
        lemma_mod_shift(a - b);
    }
    if d >= 0x8000 {
        d as i32 - 0x10000
    } else {
        d as i32
    }
}

/// `a` is strictly newer than `b` by wrap-around distance.
pub fn wrapping_gt(a: u16, b: u16) -> (r: bool)
    ensures
        r == wrap_gt(a, b),
{
    wrapping_diff(a, b) > 0
}

/// The successor of `a` on the 16-bit circle.
pub fn wrapping_next(a: u16) -> (r: u16)
    ensures
        r == wrap_next(a),
{
    if a == 0xffff {
        0
    } else {
        a + 1
    }
}

/// The predecessor of `a` on the 16-bit circle, `n` steps back.
pub open spec fn wrap_sub(a: u16, n: u16) -> u16 {
    if a >= n {
        (a - n) as u16
    } else {
        (a - n + 0x10000) as u16
    }
}

/// Executable predecessor of `a`, `n` steps back on the 16-bit circle.
pub fn wrapping_sub(a: u16, n: u16) -> (r: u16)
    ensures
        r == wrap_sub(a, n),
{
    if a >= n {
        a - n
    } else {
        (a as u32 + 0x10000 - n as u32) as u16
    }
}

/// The distance from an identifier to its successor is one, so a run of
/// consecutive identifiers is strictly increasing by wrap-around order.
pub proof fn lemma_wrap_next_gt(a: u16)
    ensures
        wrap_diff(wrap_next(a), a) == 1,
        wrap_gt(wrap_next(a), a),
{
    lemma_mod_shift(wrap_next(a) - a);
}

/// Wrap-around distance is zero exactly on equal identifiers.
pub proof fn lemma_wrap_diff_zero(a: u16, b: u16)
    ensures
        (wrap_diff(a, b) == 0) <==> (a == b),
{
    lemma_mod_shift(a - b);
}

} // verus!
