//! Bitboards: a `u64` whose bit `s` stands for square `s` (a1 = 0, h8 = 63).
//! A bitboard is viewed as the set of squares whose bits are set.
use vstd::prelude::*;
use vstd::std_specs::bits::{u64_trailing_zeros, axiom_u64_trailing_zeros};

verus! {

/// Whether bit `s` of `bb` is set (false outside `0..64`).
pub open spec fn has(bb: u64, s: int) -> bool {
    0 <= s < 64 && (bb >> (s as u64)) & 1 == 1
}

/// The set of squares of a bitboard.
pub open spec fn bb_view(bb: u64) -> Set<int> {
    Set::new(|s: int| has(bb, s))
}

/// All squares of the board.
pub open spec fn all_squares() -> Set<int> {
    Set::new(|s: int| 0 <= s < 64)
}

proof fn bv_and(a: u64, b: u64, s: u64)
    ensures
        ((a & b) >> s) & 1 == 1 <==> ((a >> s) & 1 == 1 && (b >> s) & 1 == 1),
{
    assert(((a & b) >> s) & 1 == 1 <==> ((a >> s) & 1 == 1 && (b >> s) & 1 == 1)) by (bit_vector);
}

proof fn bv_or(a: u64, b: u64, s: u64)
    ensures
        ((a | b) >> s) & 1 == 1 <==> ((a >> s) & 1 == 1 || (b >> s) & 1 == 1),
{
    assert(((a | b) >> s) & 1 == 1 <==> ((a >> s) & 1 == 1 || (b >> s) & 1 == 1)) by (bit_vector);
}

proof fn bv_not(a: u64, s: u64)
    requires
        s < 64,
    ensures
        ((!a) >> s) & 1 == 1 <==> !((a >> s) & 1 == 1),
{
    assert(((!a) >> s) & 1 == 1 <==> !((a >> s) & 1 == 1)) by (bit_vector)
        requires
            s < 64,
    ;
}

proof fn bv_single(t: u64, s: u64)
    requires
        t < 64,
        s < 64,
    ensures
        ((1u64 << t) >> s) & 1 == 1 <==> s == t,
{
    assert(((1u64 << t) >> s) & 1 == 1 <==> s == t) by (bit_vector)
        requires
            t < 64,
            s < 64,
    ;
}

proof fn bv_zero(s: u64)
    ensures
        !((0u64 >> s) & 1 == 1),
{
    assert(!((0u64 >> s) & 1 == 1)) by (bit_vector);
}

proof fn bv_full(s: u64)
    requires
        s < 64,
    ensures
        (0xffff_ffff_ffff_ffffu64 >> s) & 1 == 1,
{
    assert((0xffff_ffff_ffff_ffffu64 >> s) & 1 == 1) by (bit_vector)
        requires
            s < 64,
    ;
}

proof fn bv_shl(x: u64, k: u64, t: u64)
    requires
        k < 64,
        t < 64,
    ensures
        ((x << k) >> t) & 1 == 1 <==> (t >= k && (x >> ((t - k) as u64)) & 1 == 1),
{
    assert(((x << k) >> t) & 1 == 1 <==> (t >= k && (x >> ((t - k) as u64)) & 1 == 1))
        by (bit_vector)
        requires
            k < 64,
            t < 64,
    ;
}

proof fn bv_shr(x: u64, k: u64, t: u64)
    requires
        k < 64,
        t < 64,
    ensures
        ((x >> k) >> t) & 1 == 1 <==> (t + k < 64 && (x >> ((t + k) as u64)) & 1 == 1),
{
    assert(((x >> k) >> t) & 1 == 1 <==> (t + k < 64 && (x >> ((t + k) as u64)) & 1 == 1))
        by (bit_vector)
        requires
            k < 64,
            t < 64,
    ;
}

proof fn bv_poplsb(x: u64, t: u64, s: u64)
    requires
        t < 64,
        s < 64,
        (x >> t) & 1 == 1,
        x << ((64 - t) as u64) == 0,
    ensures
        ((x & ((x - 1) as u64)) >> s) & 1 == 1 <==> ((x >> s) & 1 == 1 && s != t),
{
    assert(((x & ((x - 1) as u64)) >> s) & 1 == 1 <==> ((x >> s) & 1 == 1 && s != t))
        by (bit_vector)
        requires
            t < 64,
            s < 64,
            (x >> t) & 1 == 1,
            x << ((64 - t) as u64) == 0,
    ;
}

pub proof fn lemma_view_and(a: u64, b: u64)
    ensures
        bb_view(a & b) == bb_view(a).intersect(bb_view(b)),
{
    assert forall|s: int| bb_view(a & b).contains(s) <==> bb_view(a).intersect(bb_view(b)).contains(s) by {
        if 0 <= s < 64 {
            bv_and(a, b, s as u64);
        }
    }
    assert(bb_view(a & b) =~= bb_view(a).intersect(bb_view(b)));
}

pub proof fn lemma_view_or(a: u64, b: u64)
    ensures
        bb_view(a | b) == bb_view(a).union(bb_view(b)),
{
    assert forall|s: int| bb_view(a | b).contains(s) <==> bb_view(a).union(bb_view(b)).contains(s) by {
        if 0 <= s < 64 {
            bv_or(a, b, s as u64);
        }
    }
    assert(bb_view(a | b) =~= bb_view(a).union(bb_view(b)));
}

pub proof fn lemma_view_not(a: u64)
    ensures
        bb_view(!a) == all_squares().difference(bb_view(a)),
{
    assert forall|s: int| bb_view(!a).contains(s) <==> all_squares().difference(bb_view(a)).contains(s) by {
        if 0 <= s < 64 {
            bv_not(a, s as u64);
        }
    }
    assert(bb_view(!a) =~= all_squares().difference(bb_view(a)));
}

pub proof fn lemma_view_and_not(a: u64, b: u64)
    ensures
        bb_view(a & !b) == bb_view(a).difference(bb_view(b)),
{
    lemma_view_and(a, !b);
    lemma_view_not(b);
    assert(bb_view(a & !b) =~= bb_view(a).difference(bb_view(b)));
}

pub proof fn lemma_view_single(t: u64)
    requires
        t < 64,
    ensures
        bb_view(1u64 << t) == set![t as int],
{
    assert forall|s: int| bb_view(1u64 << t).contains(s) <==> set![t as int].contains(s) by {
        if 0 <= s < 64 {
            bv_single(t, s as u64);
        }
    }
    assert(bb_view(1u64 << t) =~= set![t as int]);
}

pub proof fn lemma_view_zero()
    ensures
        bb_view(0) == Set::<int>::empty(),
{
    assert forall|s: int| !bb_view(0).contains(s) by {
        if 0 <= s < 64 {
            bv_zero(s as u64);
        }
    }
    assert(bb_view(0) =~= Set::<int>::empty());
}

pub proof fn lemma_view_full()
    ensures
        bb_view(0xffff_ffff_ffff_ffffu64) == all_squares(),
{
    assert forall|s: int| bb_view(0xffff_ffff_ffff_ffffu64).contains(s) <==> all_squares().contains(s) by {
        if 0 <= s < 64 {
            bv_full(s as u64);
        }
    }
    assert(bb_view(0xffff_ffff_ffff_ffffu64) =~= all_squares());
}

/// A bitboard is zero exactly when its set of squares is empty.
pub proof fn lemma_view_empty(a: u64)
    ensures
        (a == 0) <==> (bb_view(a) == Set::<int>::empty()),
{
    lemma_view_zero();
    if a != 0 {
        axiom_u64_trailing_zeros(a);
        let t = u64_trailing_zeros(a);
        assert(has(a, t as int));
        assert(bb_view(a).contains(t as int));
    }
}

/// Shifting a bitboard up by `k` moves every square up by `k`.
pub proof fn lemma_view_shl(x: u64, k: u64)
    requires
        k < 64,
    ensures
        bb_view(x << k) == Set::new(|t: int| 0 <= t < 64 && bb_view(x).contains(t - k)),
{
    assert forall|t: int|
        bb_view(x << k).contains(t) <==> (0 <= t < 64 && bb_view(x).contains(t - k)) by {
        if 0 <= t < 64 {
            bv_shl(x, k, t as u64);
        }
    }
    assert(bb_view(x << k) =~= Set::new(|t: int| 0 <= t < 64 && bb_view(x).contains(t - k)));
}

/// Shifting a bitboard down by `k` moves every square down by `k`.
pub proof fn lemma_view_shr(x: u64, k: u64)
    requires
        k < 64,
    ensures
        bb_view(x >> k) == Set::new(|t: int| 0 <= t < 64 && bb_view(x).contains(t + k)),
{
    assert forall|t: int|
        bb_view(x >> k).contains(t) <==> (0 <= t < 64 && bb_view(x).contains(t + k)) by {
        if 0 <= t < 64 {
            bv_shr(x, k, t as u64);
        }
    }
    assert(bb_view(x >> k) =~= Set::new(|t: int| 0 <= t < 64 && bb_view(x).contains(t + k)));
}

/// The set of a bitboard with one square removed.
pub fn bb_clear(bb: u64, s: u8) -> (r: u64)
    requires
        s < 64,
    ensures
        bb_view(r) == bb_view(bb).remove(s as int),
{
    proof {
        lemma_view_and_not(bb, 1u64 << (s as u64));
        lemma_view_single(s as u64);
        assert(bb_view(bb).difference(set![s as int]) =~= bb_view(bb).remove(s as int));
    }
    bb & !(1u64 << s)
}

/// The set of a bitboard with one square added.
pub fn bb_set(bb: u64, s: u8) -> (r: u64)
    requires
        s < 64,
    ensures
        bb_view(r) == bb_view(bb).insert(s as int),
{
    proof {
        lemma_view_or(bb, 1u64 << (s as u64));
        lemma_view_single(s as u64);
        assert(bb_view(bb).union(set![s as int]) =~= bb_view(bb).insert(s as int));
    }
    bb | (1u64 << s)
}

/// Whether square `s` is in the bitboard.
pub fn bb_test(bb: u64, s: u8) -> (r: bool)
    requires
        s < 64,
    ensures
        r == bb_view(bb).contains(s as int),
{
    proof {
        lemma_view_and(bb, 1u64 << (s as u64));
        lemma_view_single(s as u64);
        lemma_view_empty(bb & (1u64 << (s as u64)));
        if bb_view(bb).contains(s as int) {
            assert(bb_view(bb & (1u64 << (s as u64))).contains(s as int));
        } else {
            assert(bb_view(bb & (1u64 << (s as u64))) =~= Set::<int>::empty());
        }
    }
    bb & (1u64 << s) != 0
}

/// The lowest square of a nonempty bitboard (`bb_lsb`).
pub fn bb_lsb(bb: u64) -> (r: u8)
    requires
        bb != 0,
    ensures
        r < 64,
        bb_view(bb).contains(r as int),
        forall|s: int| 0 <= s < r ==> !bb_view(bb).contains(s),
{
    proof {
        axiom_u64_trailing_zeros(bb);
        let t = u64_trailing_zeros(bb);
        assert forall|s: int| 0 <= s < t implies !bb_view(bb).contains(s) by {
            assert((bb >> (s as u64)) & 1u64 == 0u64);
        }
    }
    bb.trailing_zeros() as u8
}

/// Removes the lowest square of a nonempty bitboard and returns it (`bb_poplsb`).
pub fn bb_poplsb(bb: &mut u64) -> (r: u8)
    requires
        *old(bb) != 0,
    ensures
        r < 64,
        bb_view(*old(bb)).contains(r as int),
        forall|s: int| 0 <= s < r ==> !bb_view(*old(bb)).contains(s),
        bb_view(*final(bb)) == bb_view(*old(bb)).remove(r as int),
        *final(bb) < *old(bb),
{
    let sq = bb_lsb(*bb);
    let x = *bb;
    proof {
        axiom_u64_trailing_zeros(x);
        let t = u64_trailing_zeros(x);
        if (sq as u32) < t {
            assert((x >> (sq as u64)) & 1u64 == 0u64);
        }
        if t < (sq as u32) {
            assert(!bb_view(x).contains(t as int));
        }
        assert(t == sq);
        assert(x << ((64 - t) as u64) == 0);
        assert forall|s: int| bb_view(x & ((x - 1) as u64)).contains(s) <==> bb_view(x).remove(sq as int).contains(s) by {
            if 0 <= s < 64 {
                bv_poplsb(x, t as u64, s as u64);
            }
        }
        assert(bb_view(x & ((x - 1) as u64)) =~= bb_view(x).remove(sq as int));
        assert(x != 0 ==> x & ((x - 1) as u64) < x) by (bit_vector);
    }
    *bb = x & (x - 1);
    sq
}


/// The squares off the h-file.
pub proof fn lemma_view_not_h_file()
    ensures
        bb_view(!0x8080_8080_8080_8080u64) == Set::new(|t: int| 0 <= t < 64 && t % 8 != 7),
{
    assert forall|t: int| bb_view(!0x8080_8080_8080_8080u64).contains(t) <==> (0 <= t < 64 && t % 8 != 7) by {
        if 0 <= t < 64 {
            let u = t as u64;
            assert(((!0x8080_8080_8080_8080u64) >> u) & 1 == 1 <==> u % 8 != 7) by (bit_vector)
                requires u < 64;
        }
    }
    assert(bb_view(!0x8080_8080_8080_8080u64) =~= Set::new(|t: int| 0 <= t < 64 && t % 8 != 7));
}

/// The squares off the a-file.
pub proof fn lemma_view_not_a_file()
    ensures
        bb_view(!0x0101_0101_0101_0101u64) == Set::new(|t: int| 0 <= t < 64 && t % 8 != 0),
{
    assert forall|t: int| bb_view(!0x0101_0101_0101_0101u64).contains(t) <==> (0 <= t < 64 && t % 8 != 0) by {
        if 0 <= t < 64 {
            let u = t as u64;
            assert(((!0x0101_0101_0101_0101u64) >> u) & 1 == 1 <==> u % 8 != 0) by (bit_vector)
                requires u < 64;
        }
    }
    assert(bb_view(!0x0101_0101_0101_0101u64) =~= Set::new(|t: int| 0 <= t < 64 && t % 8 != 0));
}


/// A set other than the empty set has an element.
pub proof fn lemma_nonempty_has(s: Set<int>)
    requires
        s != Set::<int>::empty(),
    ensures
        exists|x: int| s.contains(x),
{
    if !(exists|x: int| s.contains(x)) {
        assert(s =~= Set::<int>::empty());
    }
}

} // verus!
