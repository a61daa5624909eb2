//! Bitboards read as sets of squares.
//!
//! A bitboard is a 64-bit word; square `s` belongs to it when bit `s` is set.
//! Everything the rest of the crate states about bitboards is stated through
//! [`bb_has`]. The lemmas here connect the machine operations (`|`, `&`, `!`,
//! shifts) to that reading.

use vstd::prelude::*;

verus! {

/// Bit `i` of the word `bb`.
pub open spec fn bit(bb: u64, i: u64) -> bool {
    (bb >> i) & 1 == 1
}

/// Square `sq` is a member of the bitboard `bb`.
pub open spec fn bb_has(bb: u64, sq: int) -> bool {
    0 <= sq < 64 && bit(bb, sq as u64)
}

/// The bitboard that holds exactly the square `sq`.
pub open spec fn single(sq: int) -> u64 {
    1u64 << (sq as u64)
}

/// The bits of unions, intersections, differences and complements, of the
/// empty and the full word, and of a word with one bit.
proof fn lemma_bit_boolean()
    by (bit_vector)
    ensures
        forall|a: u64, b: u64, i: u64| i < 64 ==> #[trigger] bit(a | b, i) == (bit(a, i) || bit(b, i)),
        forall|a: u64, b: u64, i: u64| i < 64 ==> #[trigger] bit(a & b, i) == (bit(a, i) && bit(b, i)),
        forall|a: u64, b: u64, i: u64| i < 64 ==> #[trigger] bit(a ^ b, i) == (bit(a, i) != bit(b, i)),
        forall|a: u64, i: u64| i < 64 ==> #[trigger] bit(!a, i) == !bit(a, i),
        forall|i: u64| i < 64 ==> !#[trigger] bit(0u64, i),
        forall|i: u64| i < 64 ==> #[trigger] bit(0xffff_ffff_ffff_ffffu64, i),
        forall|s: u64, i: u64| s < 64 && i < 64 ==> #[trigger] bit(1u64 << s, i) == (s == i),
{
}

/// The bits of a word shifted by one, two, eight or sixteen places.
proof fn lemma_bit_shift()
    by (bit_vector)
    ensures
        forall|a: u64, i: u64| i < 64 ==> #[trigger] bit(a << 8, i) == (i >= 8 && bit(a, (i - 8) as u64)),
        forall|a: u64, i: u64| i < 64 ==> #[trigger] bit(a >> 8, i) == (i < 56 && bit(a, (i + 8) as u64)),
        forall|a: u64, i: u64| i < 64 ==> #[trigger] bit(a << 1, i) == (i >= 1 && bit(a, (i - 1) as u64)),
        forall|a: u64, i: u64| i < 64 ==> #[trigger] bit(a >> 1, i) == (i < 63 && bit(a, (i + 1) as u64)),
        forall|a: u64, i: u64| i < 64 ==> #[trigger] bit(a << 2, i) == (i >= 2 && bit(a, (i - 2) as u64)),
        forall|a: u64, i: u64| i < 64 ==> #[trigger] bit(a >> 2, i) == (i < 62 && bit(a, (i + 2) as u64)),
        forall|a: u64, i: u64| i < 64 ==> #[trigger] bit(a << 16, i) == (i >= 16 && bit(a, (i - 16) as u64)),
        forall|a: u64, i: u64| i < 64 ==> #[trigger] bit(a >> 16, i) == (i < 48 && bit(a, (i + 16) as u64)),
{
}

/// Membership in a union.
pub broadcast proof fn lemma_has_or(a: u64, b: u64, s: int)
    ensures
        #[trigger] bb_has(a | b, s) == (bb_has(a, s) || bb_has(b, s)),
{
    lemma_bit_boolean();
}

/// Membership in an intersection.
pub broadcast proof fn lemma_has_and(a: u64, b: u64, s: int)
    ensures
        #[trigger] bb_has(a & b, s) == (bb_has(a, s) && bb_has(b, s)),
{
    lemma_bit_boolean();
}

/// Membership in a symmetric difference.
pub broadcast proof fn lemma_has_xor(a: u64, b: u64, s: int)
    ensures
        #[trigger] bb_has(a ^ b, s) == (bb_has(a, s) != bb_has(b, s)),
{
    lemma_bit_boolean();
}

/// Membership in a complement.
pub broadcast proof fn lemma_has_not(a: u64, s: int)
    ensures
        #[trigger] bb_has(!a, s) == (0 <= s < 64 && !bb_has(a, s)),
{
    lemma_bit_boolean();
}

/// The empty bitboard has no member.
pub broadcast proof fn lemma_has_zero(s: int)
    ensures
        !#[trigger] bb_has(0u64, s),
{
    lemma_bit_boolean();
}

/// The full bitboard holds every square.
pub broadcast proof fn lemma_has_full(s: int)
    ensures
        #[trigger] bb_has(0xffff_ffff_ffff_ffffu64, s) == (0 <= s < 64),
{
    lemma_bit_boolean();
}

/// A one-square bitboard holds that square and no other.
pub broadcast proof fn lemma_has_single(sq: int, s: int)
    requires
        0 <= sq < 64,
    ensures
        #[trigger] bb_has(single(sq), s) == (s == sq),
{
    lemma_bit_boolean();
}

/// Moving every square up one rank.
pub broadcast proof fn lemma_has_shl8(a: u64, s: int)
    ensures
        #[trigger] bb_has(a << 8, s) == (8 <= s < 64 && bb_has(a, s - 8)),
{
    lemma_bit_shift();
}

/// Moving every square down one rank.
pub broadcast proof fn lemma_has_shr8(a: u64, s: int)
    ensures
        #[trigger] bb_has(a >> 8, s) == (0 <= s < 56 && bb_has(a, s + 8)),
{
    lemma_bit_shift();
}

/// Moving every square one step towards higher indices.
pub broadcast proof fn lemma_has_shl1(a: u64, s: int)
    ensures
        #[trigger] bb_has(a << 1, s) == (1 <= s < 64 && bb_has(a, s - 1)),
{
    lemma_bit_shift();
}

/// Moving every square one step towards lower indices.
pub broadcast proof fn lemma_has_shr1(a: u64, s: int)
    ensures
        #[trigger] bb_has(a >> 1, s) == (0 <= s < 63 && bb_has(a, s + 1)),
{
    lemma_bit_shift();
}

/// Moving every square two steps towards higher indices.
pub broadcast proof fn lemma_has_shl2(a: u64, s: int)
    ensures
        #[trigger] bb_has(a << 2, s) == (2 <= s < 64 && bb_has(a, s - 2)),
{
    lemma_bit_shift();
}

/// Moving every square two steps towards lower indices.
pub broadcast proof fn lemma_has_shr2(a: u64, s: int)
    ensures
        #[trigger] bb_has(a >> 2, s) == (0 <= s < 62 && bb_has(a, s + 2)),
{
    lemma_bit_shift();
}

/// Moving every square up two ranks.
pub broadcast proof fn lemma_has_shl16(a: u64, s: int)
    ensures
        #[trigger] bb_has(a << 16, s) == (16 <= s < 64 && bb_has(a, s - 16)),
{
    lemma_bit_shift();
}

/// Moving every square down two ranks.
pub broadcast proof fn lemma_has_shr16(a: u64, s: int)
    ensures
        #[trigger] bb_has(a >> 16, s) == (0 <= s < 48 && bb_has(a, s + 16)),
{
    lemma_bit_shift();
}

/// Two bitboards with the same members are the same word.
pub proof fn lemma_ext(a: u64, b: u64)
    requires
        forall|s: int| 0 <= s < 64 ==> bb_has(a, s) == bb_has(b, s),
    ensures
        a == b,
{
    if a != b {
        let x = a ^ b;
        assert(x != 0) by (bit_vector)
            requires
                x == a ^ b,
                a != b,
        ;
        vstd::std_specs::bits::axiom_u64_trailing_zeros(x);
        let i = vstd::std_specs::bits::u64_trailing_zeros(x) as u64;
        assert(bit(x, i));
        lemma_bit_boolean();
        assert(bb_has(a, i as int) == bb_has(b, i as int));
    }
}

/// A bitboard without members is zero.
pub proof fn lemma_empty(a: u64)
    requires
        forall|s: int| 0 <= s < 64 ==> !bb_has(a, s),
    ensures
        a == 0,
{
    lemma_bit_boolean();
    lemma_ext(a, 0);
}

/// A nonzero bitboard has a member.
pub proof fn lemma_nonzero(a: u64)
    requires
        a != 0,
    ensures
        exists|s: int| bb_has(a, s),
{
    vstd::std_specs::bits::axiom_u64_trailing_zeros(a);
    let i = vstd::std_specs::bits::u64_trailing_zeros(a);
    assert(bb_has(a, i as int));
}

/// Taking one from a word and meeting the result with the word clears the
/// lowest set bit and no other.
proof fn lemma_bit_lowest()
    by (bit_vector)
    ensures
        forall|b: u64, i: u64, j: u64|
            i < 64 && j < 64 && #[trigger] bit(b, i) && (b << ((64 - i) as u64)) == 0 ==> #[trigger] bit(
                b & ((b - 1) as u64),
                j,
            ) == (bit(b, j) && j != i),
{
}

/// Index of the lowest member of a nonzero bitboard; 64 for the empty one.
pub open spec fn lowest(bb: u64) -> int {
    vstd::std_specs::bits::u64_trailing_zeros(bb) as int
}

/// `lowest(bb)` is a member of a nonzero `bb`, and no smaller square is.
pub proof fn lemma_lowest(bb: u64)
    ensures
        0 <= lowest(bb) <= 64,
        bb == 0 <==> lowest(bb) == 64,
        bb != 0 ==> bb_has(bb, lowest(bb)),
        forall|s: int| 0 <= s < lowest(bb) ==> !bb_has(bb, s),
{
    vstd::std_specs::bits::axiom_u64_trailing_zeros(bb);
    let i = vstd::std_specs::bits::u64_trailing_zeros(bb) as u64;
    assert forall|s: int| 0 <= s < lowest(bb) implies !bb_has(bb, s) by {
        let j = s as u64;
        assert((bb >> j) & 1u64 == 0u64);
    }
}

/// Clearing the lowest set bit removes exactly the lowest member.
pub proof fn lemma_drop_lowest(bb: u64)
    requires
        bb != 0,
    ensures
        forall|s: int| #[trigger]
            bb_has(bb & ((bb - 1) as u64), s) == (bb_has(bb, s) && s != lowest(bb)),
{
    vstd::std_specs::bits::axiom_u64_trailing_zeros(bb);
    lemma_bit_lowest();
    let i = vstd::std_specs::bits::u64_trailing_zeros(bb) as u64;
    assert(bit(bb, i));
    assert((bb << ((64 - i) as u64)) == 0);
    assert forall|s: int| #[trigger]
        bb_has(bb & ((bb - 1) as u64), s) == (bb_has(bb, s) && s != lowest(bb)) by {
        if 0 <= s < 64 {
            let j = s as u64;
            assert(bit(bb & ((bb - 1) as u64), j) == (bit(bb, j) && j != i));
        }
    }
}

/// Number of members of `bb` among the squares below `n`.
pub open spec fn popcount_upto(bb: u64, n: int) -> int
    decreases n,
{
    if n <= 0 {
        0
    } else {
        popcount_upto(bb, n - 1) + if bb_has(bb, n - 1) {
            1int
        } else {
            0int
        }
    }
}

/// Number of members of `bb`.
pub open spec fn popcount(bb: u64) -> int {
    popcount_upto(bb, 64)
}

/// Counts are between zero and the number of squares looked at.
pub proof fn lemma_popcount_bounds(bb: u64, n: int)
    requires
        0 <= n,
    ensures
        0 <= popcount_upto(bb, n) <= n,
    decreases n,
{
    if n > 0 {
        lemma_popcount_bounds(bb, n - 1);
    }
}

/// A bitboard with no member below `n` counts zero there.
pub proof fn lemma_popcount_none(bb: u64, n: int)
    requires
        forall|s: int| 0 <= s < n ==> !bb_has(bb, s),
    ensures
        popcount_upto(bb, n) == 0,
    decreases n,
{
    if n > 0 {
        lemma_popcount_none(bb, n - 1);
    }
}

/// Removing one member lowers the count by one wherever that member is counted.
pub proof fn lemma_popcount_remove(a: u64, b: u64, p: int, n: int)
    requires
        bb_has(a, p),
        forall|s: int| bb_has(b, s) == (bb_has(a, s) && s != p),
    ensures
        popcount_upto(b, n) == popcount_upto(a, n) - if p < n {
            1int
        } else {
            0int
        },
    decreases n,
{
    if n > 0 {
        lemma_popcount_remove(a, b, p, n - 1);
    }
}

/// A bitboard counts one exactly when it holds one square and no other.
pub proof fn lemma_popcount_one(bb: u64)
    ensures
        popcount(bb) == 1 <==> (bb != 0 && forall|s: int| bb_has(bb, s) ==> s == lowest(bb)),
        popcount(bb) == 0 <==> bb == 0,
{
    lemma_lowest(bb);
    if bb == 0 {
        lemma_bit_boolean();
        lemma_popcount_none(bb, 64);
    } else {
        let rest = bb & ((bb - 1) as u64);
        lemma_drop_lowest(bb);
        lemma_popcount_remove(bb, rest, lowest(bb), 64);
        lemma_popcount_bounds(rest, 64);
        if forall|s: int| bb_has(bb, s) ==> s == lowest(bb) {
            lemma_popcount_none(rest, 64);
        } else {
            let s = choose|s: int| bb_has(bb, s) && s != lowest(bb);
            assert(bb_has(rest, s));
            lemma_lowest(rest);
            let q = lowest(rest);
            if rest == 0 {
                lemma_bit_boolean();
                assert(!bb_has(rest, s));
            }
            let rest2 = rest & ((rest - 1) as u64);
            lemma_drop_lowest(rest);
            lemma_popcount_remove(rest, rest2, q, 64);
            lemma_popcount_bounds(rest2, 64);
        }
    }
}

/// Number of members of `bb` on rank `r`.
pub open spec fn row_count(bb: u64, r: int) -> int {
    popcount_upto(bb, 8 * r + 8) - popcount_upto(bb, 8 * r)
}

/// One if `sq` is a member of `bb`, else zero.
pub open spec fn one_if(bb: u64, sq: int) -> int {
    if bb_has(bb, sq) {
        1
    } else {
        0
    }
}

/// The members of a rank are counted square by square.
pub proof fn lemma_row_count(bb: u64, r: int)
    requires
        0 <= r < 8,
    ensures
        row_count(bb, r) == one_if(bb, 8 * r) + one_if(bb, 8 * r + 1) + one_if(bb, 8 * r + 2)
            + one_if(bb, 8 * r + 3) + one_if(bb, 8 * r + 4) + one_if(bb, 8 * r + 5) + one_if(
            bb,
            8 * r + 6,
        ) + one_if(bb, 8 * r + 7),
{
    reveal_with_fuel(popcount_upto, 9);
}

/// The members of a bitboard are the members of its eight ranks.
pub proof fn lemma_popcount_rows(bb: u64)
    ensures
        popcount(bb) == row_count(bb, 0) + row_count(bb, 1) + row_count(bb, 2) + row_count(bb, 3)
            + row_count(bb, 4) + row_count(bb, 5) + row_count(bb, 6) + row_count(bb, 7),
{
    assert(popcount_upto(bb, 0) == 0);
}

/// Taking the mask from a subset of the mask and meeting the result with
/// the mask gives the next subset in increasing order, and zero after the
/// mask itself.
proof fn lemma_bit_subsets()
    by (bit_vector)
    ensures
        forall|v: u64, m: u64|
            v & m == v ==> #[trigger] (v.wrapping_sub(m) & m) & m == v.wrapping_sub(m) & m,
        forall|v: u64, m: u64| v & m == v && v != m ==> #[trigger] (v.wrapping_sub(m) & m) > v,
        forall|v: u64, m: u64| v & m == v && v == m ==> #[trigger] (v.wrapping_sub(m) & m) == 0,
        forall|v: u64, m: u64, w: u64|
            v & m == v && #[trigger] (w & m) == w && w > v ==> w >= #[trigger] (v.wrapping_sub(m)
                & m),
        forall|v: u64, m: u64| v & m == v ==> v <= m,
        forall|occ: u64, m: u64| #[trigger] ((occ & m) & m) == occ & m,
        forall|m: u64| #[trigger] (0u64 & m) == 0,
{
}

/// The next subset of `m` after the subset `v`, in increasing order; zero
/// after the last one, which is `m` itself.
pub open spec fn next_subset(v: u64, m: u64) -> u64 {
    v.wrapping_sub(m) & m
}

/// Stepping from a subset of `m` to the next visits every subset of `m`
/// once, in increasing order, and comes back to zero after `m`.
pub proof fn lemma_next_subset(v: u64, m: u64)
    requires
        v & m == v,
    ensures
        next_subset(v, m) & m == next_subset(v, m),
        v != m ==> next_subset(v, m) > v,
        v == m ==> next_subset(v, m) == 0,
        v <= m,
        forall|w: u64| #[trigger] (w & m) == w && w > v ==> w >= next_subset(v, m),
{
    lemma_bit_subsets();
}

/// What is left of a bitboard inside `m` is a subset of `m`, and so is the
/// empty bitboard.
pub proof fn lemma_and_is_subset(occ: u64, m: u64)
    ensures
        (occ & m) & m == occ & m,
        0u64 & m == 0,
{
    lemma_bit_subsets();
}

/// The top `b` bits of a word are a number below two to the `b`, which for
/// `b` up to twelve is at most 4096.
proof fn lemma_bit_index()
    by (bit_vector)
    ensures
        forall|y: u64, b: u64|
            1 <= b <= 12 ==> #[trigger] (y >> ((64 - b) as u64)) < (1u64 << b),
        forall|b: u64| 1 <= b <= 12 ==> 2 <= #[trigger] (1u64 << b) <= 4096,
        1u64 << 5u64 == 32,
        1u64 << 6u64 == 64,
        1u64 << 7u64 == 128,
        1u64 << 9u64 == 512,
        1u64 << 10u64 == 1024,
        1u64 << 11u64 == 2048,
        1u64 << 12u64 == 4096,
{
}

/// The top `b` bits of a word are a number below `2^b`.
pub proof fn lemma_index_bound(y: u64, b: u64)
    requires
        1 <= b <= 12,
    ensures
        (y >> ((64 - b) as u64)) < (1u64 << b),
        2 <= (1u64 << b) <= 4096,
{
    lemma_bit_index();
}

/// Two to the power `b`, for the numbers of blocker squares that occur.
pub open spec fn small_power(b: int) -> int {
    if b == 5 {
        32
    } else if b == 6 {
        64
    } else if b == 7 {
        128
    } else if b == 9 {
        512
    } else if b == 10 {
        1024
    } else if b == 11 {
        2048
    } else if b == 12 {
        4096
    } else {
        0
    }
}

/// One shifted left by `b` places is two to the power `b`.
pub proof fn lemma_small_power(b: u64)
    requires
        small_power(b as int) != 0,
    ensures
        (1u64 << b) == small_power(b as int),
{
    lemma_bit_index();
}

/// The bitboard of the squares below `n` that satisfy `p`.
pub open spec fn bb_upto(p: spec_fn(int) -> bool, n: int) -> u64
    decreases n,
{
    if n <= 0 {
        0
    } else if p(n - 1) {
        bb_upto(p, n - 1) | single(n - 1)
    } else {
        bb_upto(p, n - 1)
    }
}

/// The bitboard of the squares that satisfy `p`.
pub open spec fn bb_of(p: spec_fn(int) -> bool) -> u64 {
    bb_upto(p, 64)
}

/// `bb_upto(p, n)` holds the squares below `n` that satisfy `p`.
pub proof fn lemma_bb_upto(p: spec_fn(int) -> bool, n: int)
    requires
        0 <= n <= 64,
    ensures
        forall|t: int| #[trigger] bb_has(bb_upto(p, n), t) == (0 <= t < n && p(t)),
    decreases n,
{
    if n > 0 {
        lemma_bb_upto(p, n - 1);
        let prev = bb_upto(p, n - 1);
        assert forall|t: int| #[trigger] bb_has(bb_upto(p, n), t) == (0 <= t < n && p(t)) by {
            lemma_has_single(n - 1, t);
            lemma_has_or(prev, single(n - 1), t);
        }
    } else {
        assert forall|t: int| !#[trigger] bb_has(bb_upto(p, n), t) by {
            lemma_has_zero(t);
        }
    }
}

/// `bb_of(p)` holds exactly the squares of the board that satisfy `p`.
pub proof fn lemma_bb_of(p: spec_fn(int) -> bool)
    ensures
        forall|t: int| #[trigger] bb_has(bb_of(p), t) == (0 <= t < 64 && p(t)),
{
    lemma_bb_upto(p, 64);
}

pub broadcast group group_has {
    lemma_has_or,
    lemma_has_and,
    lemma_has_xor,
    lemma_has_not,
    lemma_has_zero,
    lemma_has_full,
    lemma_has_single,
    lemma_has_shl8,
    lemma_has_shr8,
    lemma_has_shl1,
    lemma_has_shr1,
    lemma_has_shl2,
    lemma_has_shr2,
    lemma_has_shl16,
    lemma_has_shr16,
}

} // verus!
