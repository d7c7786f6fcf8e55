//! Comparisons of 32-bit TCP sequence numbers under wrap-around.
use vstd::prelude::*;

verus! {

/// `(a - b) mod 2^32`: how far `a` lies ahead of `b` in sequence space.
pub open spec fn seq_dist(a: u32, b: u32) -> int {
    if a >= b {
        a - b
    } else {
        a - b + 0x1_0000_0000
    }
}

/// `a + n` in sequence space, for a non-negative offset `n`.
pub open spec fn seq_add(a: u32, n: int) -> u32 {
    ((a + n) % 0x1_0000_0000) as u32
}

/// `a` comes strictly before `b`: `(a - b) mod 2^32` exceeds `2^31`.
pub open spec fn seq_lt(a: u32, b: u32) -> bool {
    seq_dist(a, b) > 0x8000_0000
}

/// `x` lies strictly between `start` and `end`.
pub open spec fn seq_between(start: u32, x: u32, end: u32) -> bool {
    seq_lt(start, x) && seq_lt(x, end)
}

/// Whether sequence number `lhs` comes before `rhs`.
pub fn wrapping_lt(lhs: u32, rhs: u32) -> (r: bool)
    ensures
        r == seq_lt(lhs, rhs),
{
    lhs.wrapping_sub(rhs) > 0x8000_0000u32
}

/// Whether `x` lies strictly between `start` and `end`, both ends excluded.
pub fn is_between_wrapped(start: u32, x: u32, end: u32) -> (r: bool)
    ensures
        r == seq_between(start, x, end),
{
    wrapping_lt(start, x) && wrapping_lt(x, end)
}

/// `wrapping_add` is addition in sequence space.
pub proof fn lemma_wrapping_add(a: u32, b: u32)
    ensures
        vstd::wrapping::u32_specs::wrapping_add(a, b) == seq_add(a, b as int),
{
}

/// Subtracting one is adding `2^32 - 1`.
pub proof fn lemma_wrapping_sub_one(a: u32)
    ensures
        vstd::wrapping::u32_specs::wrapping_sub(a, 1) == seq_add(a, 0xFFFF_FFFF),
{
}

/// Adding in two steps is adding the sum.
pub proof fn lemma_seq_add_add(a: u32, m: int, n: int)
    requires
        0 <= m,
        0 <= n,
    ensures
        seq_add(seq_add(a, m), n) == seq_add(a, m + n),
{
    assert(((a + m) % 0x1_0000_0000 + n) % 0x1_0000_0000 == (a + m + n) % 0x1_0000_0000) by (nonlinear_arith);
}

/// No sequence number comes before itself.
pub proof fn lemma_lt_irreflexive(a: u32)
    ensures
        !seq_lt(a, a),
{
}

/// `between` is exactly the conjunction of two `lt` tests, and excludes
/// both of its ends.
pub proof fn lemma_between_exclusive(s: u32, x: u32, e: u32)
    ensures
        seq_between(s, x, e) == (seq_lt(s, x) && seq_lt(x, e)),
        x == s ==> !seq_between(s, x, e),
        x == e ==> !seq_between(s, x, e),
{
}


/// A number reached by moving forward at most `2^31` does not come before
/// its start.
pub proof fn lemma_forward_not_before(a: u32, d: int)
    requires
        0 <= d <= 0x8000_0000,
    ensures
        seq_dist(seq_add(a, d), a) == d,
        !seq_lt(seq_add(a, d), a),
{
    if a + d < 0x1_0000_0000 {
        assert((a + d) % 0x1_0000_0000 == a + d);
    } else {
        assert((a + d) % 0x1_0000_0000 == a + d - 0x1_0000_0000);
    }
}

/// Every number is its distance ahead of another, added to that other.
pub proof fn lemma_add_dist(x: u32, a: u32)
    ensures
        seq_add(a, seq_dist(x, a)) == x,
        0 <= seq_dist(x, a) < 0x1_0000_0000,
{
    if x >= a {
        assert((a + (x - a)) % 0x1_0000_0000 == x);
    } else {
        assert((a + (x - a + 0x1_0000_0000)) % 0x1_0000_0000 == x);
    }
}

/// Inside the window `(nxt - 1, nxt + w)` lies exactly what is less than
/// `w` ahead of `nxt`.
pub proof fn lemma_in_window(nxt: u32, w: int, x: u32)
    requires
        0 < w < 0x8000_0000,
        seq_between(seq_add(nxt, 0xFFFF_FFFF), x, seq_add(nxt, w)),
    ensures
        seq_dist(x, nxt) < w,
{
    if nxt + w < 0x1_0000_0000 {
        assert(seq_add(nxt, w) == nxt + w);
    } else {
        assert(seq_add(nxt, w) == nxt + w - 0x1_0000_0000);
    }
    if nxt >= 1 {
        assert(seq_add(nxt, 0xFFFF_FFFF) == nxt - 1);
    } else {
        assert(seq_add(nxt, 0xFFFF_FFFF) == 0xFFFF_FFFF);
    }
}


/// `seq_add` by a number below `2^32`, without the modulus.
pub proof fn lemma_seq_add_small(a: u32, k: int)
    requires
        0 <= k < 0x1_0000_0000,
    ensures
        seq_add(a, k) == (if a + k < 0x1_0000_0000 { a + k } else { a + k - 0x1_0000_0000 }),
{
    if a + k < 0x1_0000_0000 {
        assert((a + k) % 0x1_0000_0000 == a + k);
    } else {
        assert((a + k) % 0x1_0000_0000 == a + k - 0x1_0000_0000);
    }
}

/// A segment at `seq`, not ahead of `nxt`, whose left edge or whose edge
/// `e` further on lies in the window `(nxt - 1, nxt + w)`, with
/// `e <= plen`: the data it carries ends `plen - (nxt - seq)` past `nxt`.
pub proof fn lemma_edge_forward(nxt: u32, seq: u32, w: int, e: int, plen: int) -> (d: int)
    requires
        0 < w < 0x1_0000,
        0 <= e <= plen <= 0xFFFF,
        !seq_lt(nxt, seq),
        seq_between(seq_add(nxt, 0xFFFF_FFFF), seq, seq_add(nxt, w))
            || seq_between(seq_add(nxt, 0xFFFF_FFFF), seq_add(seq, e), seq_add(nxt, w)),
    ensures
        0 <= d <= 0xFFFF,
        seq_dist(nxt, seq) <= plen,
        d == plen - seq_dist(nxt, seq),
        seq_add(seq, plen) == seq_add(nxt, d),
{
    lemma_seq_add_small(nxt, 0xFFFF_FFFF);
    lemma_seq_add_small(nxt, w);
    lemma_seq_add_small(seq, e);
    lemma_seq_add_small(seq, plen);
    let off = seq_dist(nxt, seq);
    assert(off <= e);
    let d = plen - off;
    lemma_seq_add_small(nxt, d);
    d
}


/// Moving `x` forward by `m` moves its distance ahead of `y` by `m`, as
/// long as that stays below `2^32`.
pub proof fn lemma_dist_forward(x: u32, y: u32, m: int)
    requires
        0 <= m,
        seq_dist(x, y) + m < 0x1_0000_0000,
    ensures
        seq_dist(seq_add(x, m), y) == seq_dist(x, y) + m,
{
    lemma_seq_add_small(x, m);
}

} // verus!
