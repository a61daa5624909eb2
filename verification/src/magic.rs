//! Magic tables: for a rook or a bishop on each square, the attack set for
//! every set of blockers, found by one multiplication and one shift.

use vstd::prelude::*;
use crate::attack::{
    gen_rook_attack, gen_bishop_attack, rook_mask, bishop_mask, rook_mask_has, bishop_mask_has,
};
use crate::bitboard::bb_popcnt;
use crate::bits::{
    small_power, lemma_small_power, bb_has, group_has, popcount, next_subset, row_count, lemma_ext,
    lemma_row_count, lemma_popcount_rows, lemma_next_subset, lemma_and_is_subset,
    lemma_index_bound, lemma_popcount_one, lemma_popcount_bounds,
};
use crate::geometry::{
    rook_reach, bishop_reach, straight, diagonal, between, dist, lemma_clear_depends_on_between,
};
use crate::square::{rank, file, sq_at, lemma_square, lemma_coordinates};

verus! {

broadcast use group_has;

/// The multiplier for a rook on each square.
pub const ROOK_MAGIC: [u64; 64] = [
    0xd080044000148022,
    0x2440002008401002,
    0x5200104008802200,
    0x200100440082200,
    0x2080040002080080,
    0x100080100040002,
    0x2080008002000100,
    0x100020126804900,
    0x1000800080400022,
    0x804000200080,
    0x682801001802000,
    0x4434800800809000,
    0x2405001100040800,
    0x300800400020080,
    0xc1000200010004,
    0xe702002090440102,
    0x848008400020,
    0x4840008080402000,
    0x1010020004010,
    0x8420010082202,
    0x406020008042010,
    0xc400808002000400,
    0x40001884210,
    0x10002002089004c,
    0x4080a180004000,
    0x810100400020,
    0x822004200201880,
    0x1000100080080080,
    0x18040080080080,
    0x1a1000900040002,
    0x2004040800100,
    0x80c802080004100,
    0x30400020801080,
    0x804000802000,
    0x1460020010100400,
    0x1240801000800800,
    0x41000801001004,
    0x4008004804200,
    0xa090020001010004,
    0x4006102001084,
    0x440410080010029,
    0x2010002000404000,
    0x2000100020008080,
    0x8001000210100,
    0x8a40080011010005,
    0x2114001008020200,
    0x2042000804020001,
    0x8000404100820004,
    0x40088008402880,
    0x2004021009200,
    0x10012004080220,
    0x8840100080080080,
    0x8000400088080,
    0xc200440100801,
    0x4800200010080,
    0x242c0100488200,
    0x20110020408009,
    0x1681004018208202,
    0x7104082000410411,
    0xc081000200501,
    0x802002008100402,
    0x2241000208140003,
    0x22090210804,
    0x2008004021040082,
];

/// The multiplier for a bishop on each square.
pub const BISHOP_MAGIC: [u64; 64] = [
    0x710823004208010,
    0x11012124008030,
    0x2810808200485800,
    0x404441280020000,
    0x20040422a0400000,
    0x880540000240,
    0xc009109004a1040a,
    0x900c804108200300,
    0x42410a6004040051,
    0x20942c848008088,
    0x8020420092008810,
    0x71192401043000,
    0x2004020211222014,
    0x9010090000,
    0x4a12114000,
    0x49042250108608b,
    0x4020004083224202,
    0x20205782a0c00,
    0x1010002810404308,
    0x8226104010021,
    0x2894100202020012,
    0x1201004100a008,
    0x800648201242000,
    0x810a002280492880,
    0x29a00ac0240108,
    0x4600002880120,
    0x4004040802080011,
    0x2a0080001004008,
    0x6001001001004010,
    0x5010100820080c4,
    0x8191406190110,
    0xa002003200808820,
    0x46020040a0208,
    0x91082040024480,
    0x8008220121080800,
    0x8002008020020200,
    0x40004012010100,
    0x84004080041000,
    0x9104840842709800,
    0x25108108503e0a00,
    0x5084500410300500,
    0x141042120000508,
    0x4a4120110000103,
    0xa000284200892802,
    0x880100410408,
    0x4040400840a0200,
    0x281080b0800601,
    0x104414c00210101,
    0x6800808820130800,
    0x805402a00142,
    0x1005844100088,
    0x4220100208840b4,
    0x2004001202021103,
    0x100200410009822,
    0x4200444809c0161,
    0x6008884084144088,
    0x4200220820880800,
    0xc0102704109402,
    0x2002110101014112,
    0x80208040208848,
    0x1000011020220,
    0x400806082008c082,
    0x40102121440084,
    0x42810040a4410a1,
];

/// A rook (`rook` true) or bishop on `s` attacks `t` when `occ` holds the
/// occupied squares.
pub open spec fn slider_reach(rook: bool, s: int, occ: u64, t: int) -> bool {
    if rook {
        rook_reach(s, occ, t)
    } else {
        bishop_reach(s, occ, t)
    }
}

/// Square `t` can block a rook (`rook` true) or bishop on `s`.
pub open spec fn slider_mask_has(rook: bool, s: int, t: int) -> bool {
    if rook {
        rook_mask_has(s, t)
    } else {
        bishop_mask_has(s, t)
    }
}

/// The bitboard `m` holds exactly the squares that can block a rook or
/// bishop on `s`.
pub open spec fn is_mask(rook: bool, s: int, m: u64) -> bool {
    forall|t: int| bb_has(m, t) == slider_mask_has(rook, s, t)
}

/// The bitboard of the squares that can block a rook or bishop on `s`.
pub open spec fn mask_of(rook: bool, s: int) -> u64 {
    choose|m: u64| is_mask(rook, s, m)
}

/// The multiplier for a rook or bishop on `s`.
pub open spec fn magic_of(rook: bool, s: int) -> u64 {
    if rook {
        ROOK_MAGIC[s]
    } else {
        BISHOP_MAGIC[s]
    }
}

/// Number of table entries for a square with the blocker mask `mask`: two
/// to the number of squares in the mask.
pub open spec fn slots(mask: u64) -> int {
    (1u64 << (popcount(mask) as u64)) as int
}

/// The table index, within a square's entries, of the blockers `occ`: the
/// blockers inside the mask times the multiplier, of which the top bits are
/// kept, as many as the mask has squares.
pub open spec fn magic_index(mask: u64, magic: u64, occ: u64) -> int {
    ((occ & mask).wrapping_mul(magic) >> ((64 - popcount(mask)) as u64)) as int
}

/// The table index, within the entries of square `s`, of the blockers `occ`.
pub open spec fn magic_slot(rook: bool, s: int, occ: u64) -> int {
    magic_index(mask_of(rook, s), magic_of(rook, s), occ)
}

/// The blockers `v` and `w` give a slider on `s` the same attack set.
pub open spec fn same_attack(rook: bool, s: int, v: u64, w: u64) -> bool {
    forall|t: int| slider_reach(rook, s, v, t) == slider_reach(rook, s, w, t)
}

/// The multiplier of square `s` is sound: blockers that share a table
/// index give the same attack set.
pub open spec fn magic_ok_at(rook: bool, s: int) -> bool {
    forall|v: u64, w: u64| #[trigger]
        magic_slot(rook, s, v) == #[trigger] magic_slot(rook, s, w) ==> same_attack(rook, s, v, w)
}

/// All 64 multipliers are sound.
pub open spec fn magics_ok(rook: bool) -> bool {
    forall|s: int| 0 <= s < 64 ==> #[trigger] magic_ok_at(rook, s)
}

/// Where the entries of square `s` start in the table: after the entries
/// of all squares before it.
pub open spec fn offset_of(rook: bool, s: int) -> int
    decreases s,
{
    if s <= 0 {
        0
    } else {
        offset_of(rook, s - 1) + slots(mask_of(rook, s - 1))
    }
}

/// A bitboard that holds exactly the blocker squares of `s` is the mask of
/// `s`.
pub proof fn lemma_mask_unique(rook: bool, s: int, m: u64)
    requires
        is_mask(rook, s, m),
    ensures
        m == mask_of(rook, s),
{
    let c = mask_of(rook, s);
    assert(is_mask(rook, s, c));
    lemma_ext(m, c);
}

/// Blockers outside the mask do not change what a slider attacks.
pub proof fn lemma_mask_relevance(rook: bool, s: int, m: u64, occ: u64)
    requires
        0 <= s < 64,
        is_mask(rook, s, m),
    ensures
        same_attack(rook, s, occ, occ & m),
{
    assert forall|t: int| slider_reach(rook, s, occ, t) == slider_reach(rook, s, occ & m, t) by {
        let on_line = if rook {
            straight(s, t)
        } else {
            diagonal(s, t)
        };
        if on_line {
            assert forall|u: int| between(s, t, u) implies bb_has(occ, u) == bb_has(occ & m, u) by {
                lemma_square(s);
                lemma_square(t);
                lemma_square(u);
                assert(slider_mask_has(rook, s, u));
            }
            lemma_clear_depends_on_between(s, t, occ, occ & m);
        }
    }
}

/// A slider attacks at least one square, whatever the blockers.
pub proof fn lemma_attack_nonempty(rook: bool, s: int, occ: u64)
    requires
        0 <= s < 64,
    ensures
        exists|t: int| slider_reach(rook, s, occ, t),
{
    lemma_square(s);
    let r = if rank(s) < 4 {
        rank(s) + 1
    } else {
        rank(s) - 1
    };
    let f = if rook {
        file(s)
    } else if file(s) < 4 {
        file(s) + 1
    } else {
        file(s) - 1
    };
    let t = sq_at(r, f);
    lemma_coordinates(r, f);
    assert(dist(s, t) == 1);
    assert(slider_reach(rook, s, occ, t));
}

/// One if `x` is a rank or file off the edge of the board, else zero.
pub open spec fn off_edge_count(x: int) -> int {
    if 1 <= x <= 6 {
        1
    } else {
        0
    }
}

/// How many blocker squares of a slider on `s` the rank `r` holds. For a
/// rook: its own rank holds the six squares off the edge but its own;
/// another rank holds its file's square, unless the rank is the first or
/// the eighth. For a bishop: another rank off the edge holds the squares
/// of the two diagonals that are off the edge.
pub open spec fn mask_row_count(rook: bool, s: int, r: int) -> int {
    let d = r - rank(s);
    if rook {
        if d == 0 {
            6 - off_edge_count(file(s))
        } else {
            off_edge_count(r)
        }
    } else if d == 0 || off_edge_count(r) == 0 {
        0
    } else {
        off_edge_count(file(s) + d) + off_edge_count(file(s) - d)
    }
}

/// How many blocker squares a slider on `s` has.
pub open spec fn mask_bits(rook: bool, s: int) -> int {
    mask_row_count(rook, s, 0) + mask_row_count(rook, s, 1) + mask_row_count(rook, s, 2)
        + mask_row_count(rook, s, 3) + mask_row_count(rook, s, 4) + mask_row_count(rook, s, 5)
        + mask_row_count(rook, s, 6) + mask_row_count(rook, s, 7)
}

/// A rank holds as many blocker squares as `mask_row_count` says.
proof fn lemma_mask_row(rook: bool, s: int, m: u64, r: int)
    requires
        0 <= s < 64,
        is_mask(rook, s, m),
        0 <= r < 8,
    ensures
        row_count(m, r) == mask_row_count(rook, s, r),
{
    lemma_row_count(m, r);
    lemma_square(s);
    lemma_coordinates(r, 0);
    lemma_coordinates(r, 1);
    lemma_coordinates(r, 2);
    lemma_coordinates(r, 3);
    lemma_coordinates(r, 4);
    lemma_coordinates(r, 5);
    lemma_coordinates(r, 6);
    lemma_coordinates(r, 7);
    assert(bb_has(m, 8 * r + 0) == slider_mask_has(rook, s, sq_at(r, 0)));
    assert(bb_has(m, 8 * r + 1) == slider_mask_has(rook, s, sq_at(r, 1)));
    assert(bb_has(m, 8 * r + 2) == slider_mask_has(rook, s, sq_at(r, 2)));
    assert(bb_has(m, 8 * r + 3) == slider_mask_has(rook, s, sq_at(r, 3)));
    assert(bb_has(m, 8 * r + 4) == slider_mask_has(rook, s, sq_at(r, 4)));
    assert(bb_has(m, 8 * r + 5) == slider_mask_has(rook, s, sq_at(r, 5)));
    assert(bb_has(m, 8 * r + 6) == slider_mask_has(rook, s, sq_at(r, 6)));
    assert(bb_has(m, 8 * r + 7) == slider_mask_has(rook, s, sq_at(r, 7)));
}

/// A blocker mask has as many squares as `mask_bits` says: at least one
/// and at most twelve.
pub proof fn lemma_mask_bits(rook: bool, s: int, m: u64)
    requires
        0 <= s < 64,
        is_mask(rook, s, m),
    ensures
        popcount(m) == mask_bits(rook, s),
        1 <= popcount(m) <= 12,
{
    lemma_popcount_rows(m);
    lemma_mask_row(rook, s, m, 0);
    lemma_mask_row(rook, s, m, 1);
    lemma_mask_row(rook, s, m, 2);
    lemma_mask_row(rook, s, m, 3);
    lemma_mask_row(rook, s, m, 4);
    lemma_mask_row(rook, s, m, 5);
    lemma_mask_row(rook, s, m, 6);
    lemma_mask_row(rook, s, m, 7);
    lemma_square(s);
    let r = if rank(s) < 4 {
        rank(s) + 1
    } else {
        rank(s) - 1
    };
    let f = if rook {
        file(s)
    } else if file(s) < 4 {
        file(s) + 1
    } else {
        file(s) - 1
    };
    let t = sq_at(r, f);
    lemma_coordinates(r, f);
    assert(slider_mask_has(rook, s, t));
    assert(bb_has(m, t));
    lemma_popcount_one(m);
    lemma_popcount_bounds(m, 64);
}

/// The table entry for the blockers `occ` of square `s`, whose entries
/// start at `base`, holds what a slider on `s` attacks.
pub open spec fn entry_ok(rook: bool, s: int, table: Seq<u64>, base: int, occ: u64) -> bool {
    let i = base + magic_slot(rook, s, occ);
    &&& 0 <= i < table.len()
    &&& forall|t: int| bb_has(table[i], t) == slider_reach(rook, s, occ, t)
}

/// The entries of square `s` are right for every subset of its mask below
/// `v`, and every entry that is not zero belongs to such a subset.
#[verifier::opaque]
pub open spec fn fill_state(rook: bool, s: int, table: Seq<u64>, base: int, v: u64) -> bool {
    let m = mask_of(rook, s);
    &&& 0 <= base
    &&& base + slots(m) <= table.len()
    &&& v & m == v
    &&& forall|w: u64| w & m == w && w < v ==> #[trigger] entry_ok(rook, s, table, base, w)
    &&& forall|j: int|
        base <= j < base + slots(m) && #[trigger] table[j] != 0 ==> exists|w: u64|
            w & m == w && w < v && base + #[trigger] magic_slot(rook, s, w) == j
}

/// The entries of square `s` are right for all blockers, and every entry
/// that is not zero belongs to some blockers.
#[verifier::opaque]
pub open spec fn square_filled(rook: bool, s: int, table: Seq<u64>, base: int) -> bool {
    let m = mask_of(rook, s);
    &&& 0 <= base
    &&& base + slots(m) <= table.len()
    &&& forall|occ: u64| #[trigger] entry_ok(rook, s, table, base, occ)
    &&& forall|j: int|
        base <= j < base + slots(m) && #[trigger] table[j] != 0 ==> exists|occ: u64|
            base + #[trigger] magic_slot(rook, s, occ) == j
}

/// The index of a set of blockers lies within the square's entries, of
/// which there are at most 4096.
pub proof fn lemma_slot_bound(rook: bool, s: int, occ: u64)
    requires
        0 <= s < 64,
    ensures
        0 <= magic_slot(rook, s, occ) < slots(mask_of(rook, s)),
        2 <= slots(mask_of(rook, s)) <= 4096,
        1 <= popcount(mask_of(rook, s)) <= 12,
{
    let m = mask_of(rook, s);
    lemma_mask_exists(rook, s);
    lemma_mask_bits(rook, s, m);
    let b = popcount(m) as u64;
    lemma_index_bound((occ & m).wrapping_mul(magic_of(rook, s)), b);
}

/// Every square has a blocker mask.
pub proof fn lemma_mask_exists(rook: bool, s: int)
    requires
        0 <= s < 64,
    ensures
        is_mask(rook, s, mask_of(rook, s)),
{
    let m = mask_witness(rook, s, 64);
    lemma_mask_witness(rook, s, 64);
    assert(is_mask(rook, s, m));
}

/// The blocker squares of `s` below `n`, as a bitboard.
pub open spec fn mask_witness(rook: bool, s: int, n: int) -> u64
    decreases n,
{
    if n <= 0 {
        0
    } else if slider_mask_has(rook, s, n - 1) {
        mask_witness(rook, s, n - 1) | crate::bits::single(n - 1)
    } else {
        mask_witness(rook, s, n - 1)
    }
}

/// `mask_witness(rook, s, n)` holds the blocker squares of `s` below `n`.
proof fn lemma_mask_witness(rook: bool, s: int, n: int)
    requires
        0 <= n <= 64,
    ensures
        forall|t: int| #[trigger]
            bb_has(mask_witness(rook, s, n), t) == (0 <= t < n && slider_mask_has(rook, s, t)),
    decreases n,
{
    if n > 0 {
        lemma_mask_witness(rook, s, n - 1);
        assert forall|t: int| #[trigger]
            bb_has(mask_witness(rook, s, n), t) == (0 <= t < n && slider_mask_has(
                rook,
                s,
                t,
            )) by {
            crate::bits::lemma_has_single(n - 1, t);
            let prev = mask_witness(rook, s, n - 1);
            assert(bb_has(prev, t) == (0 <= t < n - 1 && slider_mask_has(rook, s, t)));
            if slider_mask_has(rook, s, n - 1) {
                assert(mask_witness(rook, s, n) == prev | crate::bits::single(n - 1));
                assert(bb_has(prev | crate::bits::single(n - 1), t) == (bb_has(prev, t) || t == n
                    - 1));
            } else {
                assert(mask_witness(rook, s, n) == prev);
            }
        }
    } else {
        assert(mask_witness(rook, s, n) == 0);
        assert forall|t: int| !#[trigger] bb_has(mask_witness(rook, s, n), t) by {
            crate::bits::lemma_has_zero(t);
        }
    }
}

/// With all entries of the square zero and no subset done, filling can
/// start.
proof fn lemma_fill_start(rook: bool, s: int, table: Seq<u64>, base: int)
    requires
        0 <= s < 64,
        0 <= base,
        base + slots(mask_of(rook, s)) <= table.len(),
        forall|j: int| base <= j < base + slots(mask_of(rook, s)) ==> table[j] == 0,
    ensures
        fill_state(rook, s, table, base, 0),
{
    reveal(fill_state);
    lemma_and_is_subset(0, mask_of(rook, s));
}

/// Writing the attack set of the subset `v` to its entry, which was zero or
/// held the same set, leaves the entries right for all subsets up to `v`;
/// after the last subset they are right for all blockers.
proof fn lemma_fill_write(
    rook: bool,
    s: int,
    before: Seq<u64>,
    base: int,
    v: u64,
    attack: u64,
    after: Seq<u64>,
)
    requires
        0 <= s < 64,
        fill_state(rook, s, before, base, v),
        forall|t: int| bb_has(attack, t) == slider_reach(rook, s, v, t),
        before[base + magic_slot(rook, s, v)] == 0 || before[base + magic_slot(rook, s, v)]
            == attack,
        after == before.update(base + magic_slot(rook, s, v), attack),
    ensures
        next_subset(v, mask_of(rook, s)) != 0 ==> fill_state(
            rook,
            s,
            after,
            base,
            next_subset(v, mask_of(rook, s)),
        ),
        next_subset(v, mask_of(rook, s)) == 0 ==> square_filled(rook, s, after, base),
        v < mask_of(rook, s) ==> next_subset(v, mask_of(rook, s)) != 0,
        next_subset(v, mask_of(rook, s)) != 0 ==> v < next_subset(v, mask_of(rook, s))
            <= mask_of(rook, s),
{
    reveal(fill_state);
    reveal(square_filled);
    let m = mask_of(rook, s);
    let nx = next_subset(v, m);
    let slot = magic_slot(rook, s, v);
    lemma_mask_exists(rook, s);
    lemma_slot_bound(rook, s, v);
    lemma_next_subset(v, m);
    lemma_next_subset(nx, m);
    lemma_attack_nonempty(rook, s, v);
    // Every subset up to and including `v` now has its entry.
    assert forall|w: u64| w & m == w && w <= v implies entry_ok(rook, s, after, base, w) by {
        lemma_slot_bound(rook, s, w);
        if w < v {
            assert(entry_ok(rook, s, before, base, w));
            if magic_slot(rook, s, w) == slot {
                lemma_attack_nonempty(rook, s, w);
                let t = choose|t: int| slider_reach(rook, s, w, t);
                assert(bb_has(before[base + slot], t));
                assert(before[base + slot] != 0);
            }
        }
    }
    assert forall|j: int| base <= j < base + slots(m) && #[trigger] after[j] != 0 implies exists|
        w: u64,
    |
        w & m == w && w <= v && base + #[trigger] magic_slot(rook, s, w) == j by {
        if j == base + slot {
            assert(v & m == v && v <= v && base + magic_slot(rook, s, v) == j);
        } else {
            assert(before[j] != 0);
            let w = choose|w: u64|
                w & m == w && w < v && base + #[trigger] magic_slot(rook, s, w) == j;
            assert(w & m == w && w <= v && base + magic_slot(rook, s, w) == j);
        }
    }
    if nx != 0 {
        assert forall|w: u64| w & m == w && w < nx implies #[trigger] entry_ok(
            rook,
            s,
            after,
            base,
            w,
        ) by {
            if w > v {
                assert(w >= nx);
            }
        }
        assert forall|j: int|
            base <= j < base + slots(m) && #[trigger] after[j] != 0 implies exists|w: u64|
            w & m == w && w < nx && base + #[trigger] magic_slot(rook, s, w) == j by {
            let w = choose|w: u64|
                w & m == w && w <= v && base + #[trigger] magic_slot(rook, s, w) == j;
            assert(w & m == w && w < nx && base + magic_slot(rook, s, w) == j);
        }
    } else {
        assert(v == m);
        assert forall|occ: u64| #[trigger] entry_ok(rook, s, after, base, occ) by {
            let w = occ & m;
            lemma_and_is_subset(occ, m);
            lemma_next_subset(w, m);
            assert(entry_ok(rook, s, after, base, w));
            lemma_mask_relevance(rook, s, m, occ);
            assert(magic_slot(rook, s, occ) == magic_slot(rook, s, w));
            assert(same_attack(rook, s, occ, w));
        }
        assert forall|j: int|
            base <= j < base + slots(m) && #[trigger] after[j] != 0 implies exists|occ: u64|
            base + #[trigger] magic_slot(rook, s, occ) == j by {
            let w = choose|w: u64|
                w & m == w && w <= v && base + #[trigger] magic_slot(rook, s, w) == j;
            assert(base + magic_slot(rook, s, w) == j);
        }
    }
}

/// An entry that holds another attack set than that of the subset `v`
/// shows that the multiplier of the square is not sound.
proof fn lemma_fill_collision(
    rook: bool,
    s: int,
    before: Seq<u64>,
    base: int,
    v: u64,
    attack: u64,
)
    requires
        0 <= s < 64,
        fill_state(rook, s, before, base, v),
        forall|t: int| bb_has(attack, t) == slider_reach(rook, s, v, t),
        before[base + magic_slot(rook, s, v)] != 0,
        before[base + magic_slot(rook, s, v)] != attack,
    ensures
        !magic_ok_at(rook, s),
{
    reveal(fill_state);
    let m = mask_of(rook, s);
    let j = base + magic_slot(rook, s, v);
    lemma_slot_bound(rook, s, v);
    let w = choose|w: u64| w & m == w && w < v && base + #[trigger] magic_slot(rook, s, w) == j;
    assert(entry_ok(rook, s, before, base, w));
    if same_attack(rook, s, w, v) {
        assert forall|t: int| 0 <= t < 64 implies bb_has(before[j], t) == bb_has(attack, t) by {}
        lemma_ext(before[j], attack);
    }
    assert(magic_slot(rook, s, w) == magic_slot(rook, s, v));
}

/// Where every entry of a square is right, the square's multiplier is
/// sound.
pub proof fn lemma_filled_means_ok(rook: bool, s: int, table: Seq<u64>, base: int)
    requires
        square_filled(rook, s, table, base),
    ensures
        magic_ok_at(rook, s),
{
    reveal(square_filled);
    assert forall|v: u64, w: u64| #[trigger]
        magic_slot(rook, s, v) == #[trigger] magic_slot(rook, s, w) implies same_attack(
        rook,
        s,
        v,
        w,
    ) by {
        assert(entry_ok(rook, s, table, base, v));
        assert(entry_ok(rook, s, table, base, w));
    }
}

/// What holds of a square's entries depends on those entries alone.
pub proof fn lemma_filled_frame(rook: bool, s: int, t1: Seq<u64>, t2: Seq<u64>, base: int)
    requires
        0 <= s < 64,
        square_filled(rook, s, t1, base),
        t1.len() <= t2.len(),
        forall|j: int| base <= j < base + slots(mask_of(rook, s)) ==> t1[j] == t2[j],
    ensures
        square_filled(rook, s, t2, base),
{
    reveal(square_filled);
    assert forall|occ: u64| #[trigger] entry_ok(rook, s, t2, base, occ) by {
        lemma_slot_bound(rook, s, occ);
        assert(entry_ok(rook, s, t1, base, occ));
    }
}

/// The entries of all squares below `n` start no later than `offset_of(n)`
/// and end there at the latest; 64 squares take at most 262144 entries.
pub proof fn lemma_offsets(rook: bool, s: int, n: int)
    requires
        0 <= s < n <= 64,
    ensures
        0 <= offset_of(rook, s),
        offset_of(rook, s) + slots(mask_of(rook, s)) <= offset_of(rook, n),
        offset_of(rook, n) <= 4096 * n,
    decreases n,
{
    lemma_slot_bound(rook, n - 1, 0);
    if s < n - 1 {
        lemma_offsets(rook, s, n - 1);
    } else if s > 0 {
        lemma_offsets(rook, s - 1, s);
    }
}

/// Fills the entries of one square, which start at `base` and are all
/// zero: for every subset of the mask, the attack set goes to the subset's
/// index. Stops with `false` at an index that already holds another attack
/// set.
fn fill_square(
    table: &mut Vec<u64>,
    rook: bool,
    sq: u8,
    mask: u64,
    magic: u64,
    shift: u64,
    base: usize,
) -> (ok: bool)
    requires
        sq < 64,
        mask == mask_of(rook, sq as int),
        magic == magic_of(rook, sq as int),
        shift == 64 - popcount(mask),
        old(table).len() == base + slots(mask),
        forall|j: int| base <= j < base + slots(mask) ==> old(table)[j] == 0,
    ensures
        final(table).len() == old(table).len(),
        forall|j: int| 0 <= j < base ==> final(table)[j] == old(table)[j],
        ok ==> square_filled(rook, sq as int, final(table)@, base as int),
        !ok ==> !magic_ok_at(rook, sq as int),
{
    let mut variation: u64 = 0;
    let mut ok = true;
    proof {
        lemma_fill_start(rook, sq as int, table@, base as int);
        lemma_slot_bound(rook, sq as int, 0);
    }
    loop
        invariant_except_break
            fill_state(rook, sq as int, table@, base as int, variation),
            variation <= mask,
            ok,
        invariant
            sq < 64,
            mask == mask_of(rook, sq as int),
            magic == magic_of(rook, sq as int),
            shift == 64 - popcount(mask),
            1 <= popcount(mask) <= 12,
            table.len() == old(table).len(),
            table.len() == base + slots(mask),
            forall|j: int| 0 <= j < base ==> table[j] == old(table)[j],
        ensures
            ok ==> square_filled(rook, sq as int, table@, base as int),
            !ok ==> !magic_ok_at(rook, sq as int),
        decreases mask - variation,
    {
        let attack = if rook {
            gen_rook_attack(sq, variation)
        } else {
            gen_bishop_attack(sq, variation)
        };
        proof {
            lemma_slot_bound(rook, sq as int, variation);
        }
        let slot = (variation & mask).wrapping_mul(magic) >> shift;
        let idx = base + slot as usize;
        let entry = table[idx];
        if entry != 0 && entry != attack {
            proof {
                lemma_fill_collision(rook, sq as int, table@, base as int, variation, attack);
            }
            ok = false;
            break;
        }
        let ghost before = table@;
        table.set(idx, attack);
        proof {
            lemma_fill_write(rook, sq as int, before, base as int, variation, attack, table@);
        }
        variation = variation.wrapping_sub(mask) & mask;
        if variation == 0 {
            break;
        }
    }
    ok
}

/// The magic table of one kind of slider: per square the blocker mask, the
/// shift and the place where the square's entries start, and all entries.
pub struct SliderTable {
    masks: Vec<u64>,
    shifts: Vec<u64>,
    index: Vec<usize>,
    table: Vec<u64>,
}

/// The contents of a magic table.
pub ghost struct SliderView {
    pub masks: Seq<u64>,
    pub shifts: Seq<u64>,
    pub index: Seq<usize>,
    pub table: Seq<u64>,
}

impl View for SliderTable {
    type V = SliderView;

    closed spec fn view(&self) -> SliderView {
        SliderView {
            masks: self.masks@,
            shifts: self.shifts@,
            index: self.index@,
            table: self.table@,
        }
    }
}

impl SliderView {
    /// The first `n` squares are set up: mask, shift and start of the
    /// entries are what the rules give, and the entries are right for all
    /// blockers.
    pub open spec fn filled_to(self, rook: bool, n: int) -> bool {
        &&& self.masks.len() == n
        &&& self.shifts.len() == n
        &&& self.index.len() == n
        &&& self.table.len() == offset_of(rook, n)
        &&& forall|s: int|
            0 <= s < n ==> {
                &&& #[trigger] self.masks[s] == mask_of(rook, s)
                &&& self.shifts[s] == 64 - popcount(mask_of(rook, s))
                &&& self.index[s] == offset_of(rook, s)
            }
        &&& forall|s: int|
            0 <= s < n ==> #[trigger] square_filled(rook, s, self.table, offset_of(rook, s))
    }

    /// The table is complete and right for a rook (`rook` true) or bishop.
    pub open spec fn wf(self, rook: bool) -> bool {
        self.filled_to(rook, 64)
    }
}

impl SliderTable {
    /// The table is complete and right for a rook (`rook` true) or bishop.
    pub open spec fn wf(&self, rook: bool) -> bool {
        self@.wf(rook)
    }

    /// Number of entries of the table.
    pub fn len(&self) -> (n: usize)
        ensures
            n == self@.table.len(),
    {
        self.table.len()
    }

    /// What a slider on `sq` attacks when `occupancy` holds the occupied
    /// squares, read from the table with the square's multiplier `magic`.
    pub fn lookup(&self, rook: bool, sq: u8, occupancy: u64) -> (attack: u64)
        requires
            self.wf(rook),
            sq < 64,
        ensures
            forall|t: int| bb_has(attack, t) == slider_reach(rook, sq as int, occupancy, t),
    {
        let magic = if rook {
            ROOK_MAGIC[sq as usize]
        } else {
            BISHOP_MAGIC[sq as usize]
        };
        let mask = self.masks[sq as usize];
        let shift = self.shifts[sq as usize];
        proof {
            reveal(square_filled);
            lemma_slot_bound(rook, sq as int, occupancy);
            lemma_offsets(rook, sq as int, 64);
            assert(self@.masks[sq as int] == mask_of(rook, sq as int));
            assert(square_filled(rook, sq as int, self@.table, offset_of(rook, sq as int)));
            assert(entry_ok(rook, sq as int, self@.table, offset_of(rook, sq as int), occupancy));
        }
        let slot = (occupancy & mask).wrapping_mul(magic) >> shift;
        self.table[self.index[sq as usize] + slot as usize]
    }
}

/// Two complete tables for the same kind of slider have the same contents.
pub proof fn lemma_table_unique(rook: bool, a: SliderView, b: SliderView)
    requires
        a.wf(rook),
        b.wf(rook),
    ensures
        a == b,
{
    assert forall|s: int| 0 <= s < 64 implies a.masks[s] == b.masks[s] && a.shifts[s]
        == b.shifts[s] && a.index[s] == b.index[s] by {
        assert(a.masks[s] == mask_of(rook, s));
        assert(b.masks[s] == mask_of(rook, s));
    }
    assert(a.masks =~= b.masks);
    assert(a.shifts =~= b.shifts);
    assert(a.index =~= b.index);
    assert forall|j: int| 0 <= j < a.table.len() implies a.table[j] == b.table[j] by {
        let s = lemma_find_square(rook, j, 64);
        let base = offset_of(rook, s);
        reveal(square_filled);
        assert(square_filled(rook, s, a.table, base));
        assert(square_filled(rook, s, b.table, base));
        if a.table[j] != 0 {
            let occ = choose|occ: u64| base + #[trigger] magic_slot(rook, s, occ) == j;
            assert(entry_ok(rook, s, a.table, base, occ));
            assert(entry_ok(rook, s, b.table, base, occ));
            lemma_ext(a.table[j], b.table[j]);
        } else if b.table[j] != 0 {
            let occ = choose|occ: u64| base + #[trigger] magic_slot(rook, s, occ) == j;
            assert(entry_ok(rook, s, a.table, base, occ));
            assert(entry_ok(rook, s, b.table, base, occ));
            lemma_ext(a.table[j], b.table[j]);
        }
    }
    assert(a.table =~= b.table);
}

/// Every entry of the table belongs to one square.
proof fn lemma_find_square(rook: bool, j: int, n: int) -> (s: int)
    requires
        0 <= n <= 64,
        0 <= j < offset_of(rook, n),
    ensures
        0 <= s < n,
        offset_of(rook, s) <= j < offset_of(rook, s) + slots(mask_of(rook, s)),
    decreases n,
{
    if j >= offset_of(rook, n - 1) {
        n - 1
    } else {
        lemma_find_square(rook, j, n - 1)
    }
}

/// Builds the magic table of a rook (`rook` true) or bishop. Gives `None`
/// when two sets of blockers of a square share an index but not the attack
/// set, that is, when a multiplier is not sound.
pub fn init_slider(rook: bool) -> (res: Option<SliderTable>)
    ensures
        res is Some <==> magics_ok(rook),
        res is Some ==> res->0.wf(rook),
        res is Some ==> res->0@.table.len() == table_size(rook),
{
    proof {
        lemma_table_size(rook);
    }
    let mut masks: Vec<u64> = Vec::new();
    let mut shifts: Vec<u64> = Vec::new();
    let mut index: Vec<usize> = Vec::new();
    let mut table: Vec<u64> = Vec::new();
    let mut sq: u8 = 0;
    while sq < 64
        invariant
            0 <= sq <= 64,
            (SliderView { masks: masks@, shifts: shifts@, index: index@, table: table@ }).filled_to(
                rook,
                sq as int,
            ),
            forall|s: int| 0 <= s < sq ==> #[trigger] magic_ok_at(rook, s),
        decreases 64 - sq,
    {
        let magic = if rook {
            ROOK_MAGIC[sq as usize]
        } else {
            BISHOP_MAGIC[sq as usize]
        };
        let mask = if rook {
            rook_mask(sq)
        } else {
            bishop_mask(sq)
        };
        proof {
            assert(is_mask(rook, sq as int, mask));
            lemma_mask_unique(rook, sq as int, mask);
            lemma_slot_bound(rook, sq as int, 0);
            lemma_offsets(rook, sq as int, sq + 1);
            if sq > 0 {
                lemma_offsets(rook, sq - 1, sq as int);
            }
        }
        let bits = bb_popcnt(mask) as u64;
        let n = (1u64 << bits) as usize;
        let shift: u64 = 64 - bits;
        let base = table.len();
        let ghost frozen = table@;
        let ghost old_masks = masks@;
        let ghost old_shifts = shifts@;
        let ghost old_index = index@;
        let mut k: usize = 0;
        while k < n
            invariant
                k <= n,
                n == slots(mask),
                n <= 4096,
                base == frozen.len(),
                base <= 4096 * 64,
                table.len() == base + k,
                forall|j: int| 0 <= j < base ==> table[j] == frozen[j],
                forall|j: int| base <= j < base + k ==> table[j] == 0,
            decreases n - k,
        {
            table.push(0);
            k = k + 1;
        }
        masks.push(mask);
        shifts.push(shift);
        index.push(base);
        let ok = fill_square(&mut table, rook, sq, mask, magic, shift, base);
        if !ok {
            proof {
                assert(!magic_ok_at(rook, sq as int));
            }
            return None;
        }
        proof {
            lemma_filled_means_ok(rook, sq as int, table@, base as int);
            assert(base == offset_of(rook, sq as int));
            assert(table@.len() == offset_of(rook, sq + 1));
            assert forall|s: int| 0 <= s < sq + 1 implies #[trigger] square_filled(
                rook,
                s,
                table@,
                offset_of(rook, s),
            ) by {
                if s < sq {
                    lemma_offsets(rook, s, sq as int);
                    lemma_filled_frame(rook, s, frozen, table@, offset_of(rook, s));
                }
            }
            assert forall|s: int| 0 <= s < sq + 1 implies {
                &&& #[trigger] masks@[s] == mask_of(rook, s)
                &&& shifts@[s] == 64 - popcount(mask_of(rook, s))
                &&& index@[s] == offset_of(rook, s)
            } by {
                if s < sq {
                    assert(old_masks[s] == mask_of(rook, s));
                    assert(masks@[s] == old_masks[s]);
                    assert(shifts@[s] == old_shifts[s]);
                    assert(index@[s] == old_index[s]);
                }
            }
        }
        sq = sq + 1;
    }
    Some(SliderTable { masks, shifts, index, table })
}

/// Number of entries of the magic table of a rook or a bishop.
pub open spec fn table_size(rook: bool) -> int {
    if rook {
        102400
    } else {
        5248
    }
}

/// Number of entries of the squares of rank `r`.
pub open spec fn rank_size(rook: bool, r: int) -> int {
    if rook {
        if r == 0 || r == 7 {
            20480
        } else {
            10240
        }
    } else if r == 0 || r == 7 {
        320
    } else if r == 1 || r == 6 {
        256
    } else if r == 2 || r == 5 {
        640
    } else {
        1408
    }
}

/// A square has two to the number of its blocker squares entries.
proof fn lemma_square_size(rook: bool, s: int)
    requires
        0 <= s < 64,
    ensures
        slots(mask_of(rook, s)) == small_power(mask_bits(rook, s)),
        small_power(mask_bits(rook, s)) != 0,
{
    lemma_mask_exists(rook, s);
    lemma_mask_bits(rook, s, mask_of(rook, s));
    lemma_square(s);
    let b = mask_bits(rook, s);
    assert(small_power(b) != 0) by {
        lemma_square(s);
    }
    lemma_small_power(b as u64);
}

/// The entries of the eight squares of a rank.
proof fn lemma_rank_size(rook: bool, r: int)
    requires
        0 <= r < 8,
    ensures
        offset_of(rook, 8 * r + 8) == offset_of(rook, 8 * r) + rank_size(rook, r),
{
    reveal_with_fuel(offset_of, 9);
    lemma_square_size(rook, 8 * r);
    lemma_square_size(rook, 8 * r + 1);
    lemma_square_size(rook, 8 * r + 2);
    lemma_square_size(rook, 8 * r + 3);
    lemma_square_size(rook, 8 * r + 4);
    lemma_square_size(rook, 8 * r + 5);
    lemma_square_size(rook, 8 * r + 6);
    lemma_square_size(rook, 8 * r + 7);
    lemma_coordinates(r, 0);
    lemma_coordinates(r, 1);
    lemma_coordinates(r, 2);
    lemma_coordinates(r, 3);
    lemma_coordinates(r, 4);
    lemma_coordinates(r, 5);
    lemma_coordinates(r, 6);
    lemma_coordinates(r, 7);
}

/// The magic table of the rook has 102400 entries, that of the bishop 5248.
pub proof fn lemma_table_size(rook: bool)
    ensures
        offset_of(rook, 64) == table_size(rook),
{
    lemma_rank_size(rook, 0);
    lemma_rank_size(rook, 1);
    lemma_rank_size(rook, 2);
    lemma_rank_size(rook, 3);
    lemma_rank_size(rook, 4);
    lemma_rank_size(rook, 5);
    lemma_rank_size(rook, 6);
    lemma_rank_size(rook, 7);
}

} // verus!
