//! Bitboard primitives: shifts, least significant bit, population count,
//! pawn advances.

use vstd::prelude::*;
use crate::attack::{
    AttackTables, AttackView, rook_attacks, bishop_attacks, rooks_attack, bishops_attack,
    lemma_tables_unique,
};
use crate::bits::{
    bb_has, bit, single, lowest, popcount, group_has, lemma_lowest, lemma_drop_lowest,
    lemma_popcount_remove, lemma_popcount_none, lemma_popcount_bounds, lemma_ext, lemma_nonzero,
};
use crate::geometry::{
    between, on_line, straight, diagonal, rook_reach, bishop_reach, lemma_reach_single_blocker,
    lemma_reach_empty, lemma_between_by_sliders, lemma_line_by_sliders,
};
use crate::square::{rank, file, sq_at, rank_of, file_of, lemma_square};
use crate::things::Color;

verus! {

broadcast use group_has;

/// One mask per rank: `RANK_BITBOARDS[r]` holds the eight squares of rank `r`.
pub const RANK_BITBOARDS: [u64; 8] = [
    0x0000_0000_0000_00ff,
    0x0000_0000_0000_ff00,
    0x0000_0000_00ff_0000,
    0x0000_0000_ff00_0000,
    0x0000_00ff_0000_0000,
    0x0000_ff00_0000_0000,
    0x00ff_0000_0000_0000,
    0xff00_0000_0000_0000,
];

/// One mask per file: `FILE_BITBOARDS[f]` holds the eight squares of file `f`.
pub const FILE_BITBOARDS: [u64; 8] = [
    0x0101_0101_0101_0101,
    0x0202_0202_0202_0202,
    0x0404_0404_0404_0404,
    0x0808_0808_0808_0808,
    0x1010_1010_1010_1010,
    0x2020_2020_2020_2020,
    0x4040_4040_4040_4040,
    0x8080_8080_8080_8080,
];

/// Each rank mask has the bits of its rank.
proof fn lemma_bit_rank_masks()
    by (bit_vector)
    ensures
        forall|i: u64| i < 64 ==> #[trigger] bit(0x0000_0000_0000_00ffu64, i) == (i / 8 == 0),
        forall|i: u64| i < 64 ==> #[trigger] bit(0x0000_0000_0000_ff00u64, i) == (i / 8 == 1),
        forall|i: u64| i < 64 ==> #[trigger] bit(0x0000_0000_00ff_0000u64, i) == (i / 8 == 2),
        forall|i: u64| i < 64 ==> #[trigger] bit(0x0000_0000_ff00_0000u64, i) == (i / 8 == 3),
        forall|i: u64| i < 64 ==> #[trigger] bit(0x0000_00ff_0000_0000u64, i) == (i / 8 == 4),
        forall|i: u64| i < 64 ==> #[trigger] bit(0x0000_ff00_0000_0000u64, i) == (i / 8 == 5),
        forall|i: u64| i < 64 ==> #[trigger] bit(0x00ff_0000_0000_0000u64, i) == (i / 8 == 6),
        forall|i: u64| i < 64 ==> #[trigger] bit(0xff00_0000_0000_0000u64, i) == (i / 8 == 7),
{
}

/// Each file mask has the bits of its file.
proof fn lemma_bit_file_masks()
    by (bit_vector)
    ensures
        forall|i: u64| i < 64 ==> #[trigger] bit(0x0101_0101_0101_0101u64, i) == (i % 8 == 0),
        forall|i: u64| i < 64 ==> #[trigger] bit(0x0202_0202_0202_0202u64, i) == (i % 8 == 1),
        forall|i: u64| i < 64 ==> #[trigger] bit(0x0404_0404_0404_0404u64, i) == (i % 8 == 2),
        forall|i: u64| i < 64 ==> #[trigger] bit(0x0808_0808_0808_0808u64, i) == (i % 8 == 3),
        forall|i: u64| i < 64 ==> #[trigger] bit(0x1010_1010_1010_1010u64, i) == (i % 8 == 4),
        forall|i: u64| i < 64 ==> #[trigger] bit(0x2020_2020_2020_2020u64, i) == (i % 8 == 5),
        forall|i: u64| i < 64 ==> #[trigger] bit(0x4040_4040_4040_4040u64, i) == (i % 8 == 6),
        forall|i: u64| i < 64 ==> #[trigger] bit(0x8080_8080_8080_8080u64, i) == (i % 8 == 7),
{
}

/// The mask of rank `r` holds exactly the squares of that rank.
pub broadcast proof fn lemma_rank_mask(r: int, s: int)
    requires
        0 <= r < 8,
    ensures
        #[trigger] bb_has(RANK_BITBOARDS[r], s) == (0 <= s < 64 && rank(s) == r),
{
    lemma_bit_rank_masks();
}

/// The mask of file `f` holds exactly the squares of that file.
pub broadcast proof fn lemma_file_mask(f: int, s: int)
    requires
        0 <= f < 8,
    ensures
        #[trigger] bb_has(FILE_BITBOARDS[f], s) == (0 <= s < 64 && file(s) == f),
{
    lemma_bit_file_masks();
}

/// The bitboard that holds the square `sq` and no other.
pub fn bb_from_sq(sq: u8) -> (bb: u64)
    requires
        sq < 64,
    ensures
        bb == single(sq as int),
        forall|s: int| bb_has(bb, s) == (s == sq),
{
    let bb = 1u64 << (sq as u64);
    proof {
        assert forall|s: int| bb_has(bb, s) == (s == sq) by {
            crate::bits::lemma_has_single(sq as int, s);
        }
    }
    bb
}

/// Index of the least significant set bit: the lowest member of `bb`.
/// The empty bitboard gives 64.
pub fn bb_lsb(bb: u64) -> (sq: u8)
    ensures
        sq == lowest(bb),
        bb != 0 ==> sq < 64 && bb_has(bb, sq as int),
        bb == 0 ==> sq == 64,
        forall|s: int| 0 <= s < sq ==> !bb_has(bb, s),
{
    proof {
        lemma_lowest(bb);
    }
    bb.trailing_zeros() as u8
}

/// Removes the lowest member of `bb` and returns it.
pub fn bb_pop(bb: &mut u64) -> (sq: u8)
    requires
        *old(bb) != 0,
    ensures
        sq == lowest(*old(bb)),
        sq < 64,
        bb_has(*old(bb), sq as int),
        forall|s: int| 0 <= s < sq ==> !bb_has(*old(bb), s),
        forall|s: int| bb_has(*final(bb), s) == (bb_has(*old(bb), s) && s != sq),
        *final(bb) == *old(bb) & ((*old(bb) - 1) as u64),
        popcount(*final(bb)) == popcount(*old(bb)) - 1,
        popcount(*final(bb)) >= 0,
{
    let r = bb_lsb(*bb);
    proof {
        lemma_popcount_bounds(*bb & ((*bb - 1) as u64), 64);
        lemma_drop_lowest(*bb);
        lemma_popcount_remove(*bb, *bb & ((*bb - 1) as u64), r as int, 64);
    }
    *bb = *bb & (*bb - 1);
    r
}

/// Every member moved up one rank; members of the eighth rank drop out.
pub fn bb_north(bb: u64) -> (r: u64)
    ensures
        r == bb << 8,
        forall|s: int| bb_has(r, s) == (8 <= s < 64 && bb_has(bb, s - 8)),
{
    bb << 8
}

/// Every member moved down one rank; members of the first rank drop out.
pub fn bb_south(bb: u64) -> (r: u64)
    ensures
        r == bb >> 8,
        forall|s: int| bb_has(r, s) == (0 <= s < 56 && bb_has(bb, s + 8)),
{
    bb >> 8
}

/// Every member moved one file towards the h-file; members of the h-file
/// drop out.
pub fn bb_east(bb: u64) -> (r: u64)
    ensures
        r == (bb << 1) & !FILE_BITBOARDS[0],
        forall|s: int| bb_has(r, s) == (0 <= s < 64 && file(s) != 0 && bb_has(bb, s - 1)),
{
    proof {
        assert forall|s: int| bb_has((bb << 1) & !FILE_BITBOARDS[0], s) == (0 <= s < 64 && file(s)
            != 0 && bb_has(bb, s - 1)) by {
            lemma_file_mask(0, s);
        }
    }
    (bb << 1) & !FILE_BITBOARDS[0]
}

/// Every member moved one file towards the a-file; members of the a-file
/// drop out.
pub fn bb_west(bb: u64) -> (r: u64)
    ensures
        r == (bb >> 1) & !FILE_BITBOARDS[7],
        forall|s: int| bb_has(r, s) == (0 <= s < 64 && file(s) != 7 && bb_has(bb, s + 1)),
{
    proof {
        assert forall|s: int| bb_has((bb >> 1) & !FILE_BITBOARDS[7], s) == (0 <= s < 64 && file(s)
            != 7 && bb_has(bb, s + 1)) by {
            lemma_file_mask(7, s);
        }
    }
    (bb >> 1) & !FILE_BITBOARDS[7]
}

/// Number of members of `bb`.
pub fn bb_popcnt(bb: u64) -> (n: u32)
    ensures
        n == popcount(bb),
        n <= 64,
{
    let mut rest = bb;
    let mut n: u32 = 0;
    proof {
        lemma_popcount_bounds(bb, 64);
    }
    while rest != 0
        invariant
            n + popcount(rest) == popcount(bb),
            0 <= popcount(bb) <= 64,
            0 <= popcount(rest),
        decreases popcount(rest),
    {
        bb_pop(&mut rest);
        n = n + 1;
        proof {
            lemma_popcount_bounds(rest, 64);
        }
    }
    proof {
        assert forall|s: int| 0 <= s < 64 implies !bb_has(rest, s) by {}
        lemma_popcount_none(rest, 64);
    }
    n
}

/// The word whose byte `k` is byte `7 - k` of `bb`.
pub open spec fn spec_flip(bb: u64) -> u64 {
    ((bb & 0xff) << 56) | ((bb & 0xff00) << 40) | ((bb & 0xff_0000) << 24) | ((bb & 0xff00_0000)
        << 8) | ((bb >> 8) & 0xff00_0000) | ((bb >> 24) & 0xff_0000) | ((bb >> 40) & 0xff00) | (bb
        >> 56)
}

/// Bit `i` of the flipped word is the bit of the same file on the mirrored
/// rank.
proof fn lemma_bit_flip()
    by (bit_vector)
    ensures
        forall|bb: u64, i: u64|
            i < 64 ==> #[trigger] bit(spec_flip(bb), i) == bit(bb, (8 * (7 - i / 8) + i % 8) as u64),
{
}

/// The board seen from the other side: rank `r` becomes rank `7 - r`, files
/// stay. This reverses the byte order of the word.
pub fn bb_flip(bb: u64) -> (r: u64)
    ensures
        r == spec_flip(bb),
        forall|s: int|
            bb_has(r, s) == (0 <= s < 64 && bb_has(bb, sq_at(7 - rank(s), file(s)))),
{
    proof {
        lemma_bit_flip();
        assert forall|s: int|
            bb_has(spec_flip(bb), s) == (0 <= s < 64 && bb_has(
                bb,
                sq_at(7 - rank(s), file(s)),
            )) by {
            if 0 <= s < 64 {
                let i = s as u64;
                assert(bit(spec_flip(bb), i) == bit(bb, (8 * (7 - i / 8) + i % 8) as u64));
                assert((8 * (7 - i / 8) + i % 8) as u64 == sq_at(7 - rank(s), file(s)));
            }
        }
    }
    ((bb & 0xff) << 56) | ((bb & 0xff00) << 40) | ((bb & 0xff_0000) << 24) | ((bb & 0xff00_0000)
        << 8) | ((bb >> 8) & 0xff00_0000) | ((bb >> 24) & 0xff_0000) | ((bb >> 40) & 0xff00) | (bb
        >> 56)
}

/// Where the pawns of `pawn` may advance to, for White: one rank up onto an
/// empty square, or from the second rank two ranks up over an empty square
/// onto an empty square.
pub open spec fn white_advance(pawn: u64, occupancy: u64, t: int) -> bool {
    &&& 0 <= t < 64
    &&& !bb_has(occupancy, t)
    &&& (bb_has(pawn, t - 8) || (rank(t) == 3 && bb_has(pawn, t - 16) && !bb_has(
        occupancy,
        t - 8,
    )))
}

/// Where the pawns of `pawn` may advance to, for Black: one rank down onto an
/// empty square, or from the seventh rank two ranks down over an empty square
/// onto an empty square.
pub open spec fn black_advance(pawn: u64, occupancy: u64, t: int) -> bool {
    &&& 0 <= t < 64
    &&& !bb_has(occupancy, t)
    &&& (bb_has(pawn, t + 8) || (rank(t) == 4 && bb_has(pawn, t + 16) && !bb_has(
        occupancy,
        t + 8,
    )))
}

/// Square `t` is an advance square of a pawn in `pawn` of side `color`.
pub open spec fn pawn_advance(pawn: u64, occupancy: u64, color: Color, t: int) -> bool {
    match color {
        Color::White => white_advance(pawn, occupancy, t),
        Color::Black => black_advance(pawn, occupancy, t),
        Color::NoColor => false,
    }
}

/// The squares that White's pawns of `pawn` may advance to.
fn white_pawn_advances(pawn: u64, occupancy: u64) -> (advances: u64)
    ensures
        forall|t: int| bb_has(advances, t) == white_advance(pawn, occupancy, t),
{
    let unmoved = pawn & RANK_BITBOARDS[1];
    let mut advances = bb_north(pawn);
    advances &= !occupancy;
    advances |= bb_north(bb_north(unmoved) & !occupancy) & !occupancy;
    proof {
        assert forall|t: int| bb_has(advances, t) == white_advance(pawn, occupancy, t) by {
            lemma_rank_mask(1, t - 16);
        }
    }
    advances
}

/// The squares that Black's pawns of `pawn` may advance to.
fn black_pawn_advances(pawn: u64, occupancy: u64) -> (advances: u64)
    ensures
        forall|t: int| bb_has(advances, t) == black_advance(pawn, occupancy, t),
{
    let unmoved = pawn & RANK_BITBOARDS[6];
    let mut advances = bb_south(pawn);
    advances &= !occupancy;
    advances |= bb_south(bb_south(unmoved) & !occupancy) & !occupancy;
    proof {
        assert forall|t: int| bb_has(advances, t) == black_advance(pawn, occupancy, t) by {
            lemma_rank_mask(6, t + 16);
        }
    }
    advances
}

/// The squares that the pawns of `pawn`, of side `color`, may advance to
/// when `occupancy` holds the occupied squares.
pub fn pawn_advances(pawn: u64, occupancy: u64, color: Color) -> (advances: u64)
    requires
        color != Color::NoColor,
    ensures
        forall|t: int| bb_has(advances, t) == pawn_advance(pawn, occupancy, color, t),
{
    match color {
        Color::White => white_pawn_advances(pawn, occupancy),
        _ => black_pawn_advances(pawn, occupancy),
    }
}

/// All precomputed tables: the attack tables, and for each pair of squares
/// the squares strictly between them and the line through them.
pub struct Tables {
    attack: AttackTables,
    between: Vec<u64>,
    rays: Vec<u64>,
}

/// The contents of the tables.
pub ghost struct TablesView {
    pub attack: AttackView,
    pub between: Seq<u64>,
    pub rays: Seq<u64>,
}

impl TablesView {
    /// The first `n` entries of both line tables are filled in; entry
    /// `a + 64 * b` is that of the squares `a` and `b`.
    pub open spec fn lines_filled_to(self, n: int) -> bool {
        &&& self.between.len() == 4096
        &&& self.rays.len() == 4096
        &&& forall|a: int, b: int, u: int|
            0 <= a < 64 && 0 <= b < 64 && a + 64 * b < n ==> #[trigger] bb_has(
                self.between[a + 64 * b],
                u,
            ) == between(a, b, u)
        &&& forall|a: int, b: int, u: int|
            0 <= a < 64 && 0 <= b < 64 && a + 64 * b < n ==> #[trigger] bb_has(
                self.rays[a + 64 * b],
                u,
            ) == on_line(a, b, u)
    }

    /// The attack tables are complete and right, and the line tables hold
    /// for every pair of squares what lies between them and on their line.
    pub open spec fn wf(self) -> bool {
        &&& self.attack.wf()
        &&& self.lines_filled_to(4096)
    }
}

impl View for Tables {
    type V = TablesView;

    closed spec fn view(&self) -> TablesView {
        TablesView { attack: self.attack@, between: self.between@, rays: self.rays@ }
    }
}

impl Tables {
    /// The tables are complete and right.
    pub open spec fn wf(&self) -> bool {
        self@.wf()
    }

    /// The attack tables.
    pub fn attack(&self) -> (attack: &AttackTables)
        ensures
            attack@ == self@.attack,
    {
        &self.attack
    }
}

/// Building the tables twice gives the same tables: complete tables are
/// equal entry for entry.
pub proof fn lemma_all_tables_unique(x: TablesView, y: TablesView)
    requires
        x.wf(),
        y.wf(),
    ensures
        x == y,
{
    lemma_tables_unique(x.attack, y.attack);
    assert forall|j: int| 0 <= j < 4096 implies x.between[j] == y.between[j] && x.rays[j]
        == y.rays[j] by {
        let a = j % 64;
        let b = j / 64;
        assert(j == a + 64 * b);
        assert forall|u: int| 0 <= u < 64 implies bb_has(x.between[j], u) == bb_has(
            y.between[j],
            u,
        ) by {
            assert(bb_has(x.between[a + 64 * b], u) == between(a, b, u));
            assert(bb_has(y.between[a + 64 * b], u) == between(a, b, u));
        }
        assert forall|u: int| 0 <= u < 64 implies bb_has(x.rays[j], u) == bb_has(y.rays[j], u) by {
            assert(bb_has(x.rays[a + 64 * b], u) == on_line(a, b, u));
            assert(bb_has(y.rays[a + 64 * b], u) == on_line(a, b, u));
        }
        lemma_ext(x.between[j], y.between[j]);
        lemma_ext(x.rays[j], y.rays[j]);
    }
    assert(x.between =~= y.between);
    assert(x.rays =~= y.rays);
}

/// Rooks on a one-square bitboard attack what a rook on that square
/// attacks, and so for bishops.
pub proof fn lemma_single_attacker(sq: int, bb: u64, occ: u64, t: int)
    requires
        forall|s: int| bb_has(bb, s) == (s == sq),
    ensures
        rooks_attack(bb, occ, t) == rook_reach(sq, occ, t),
        bishops_attack(bb, occ, t) == bishop_reach(sq, occ, t),
{
    if rook_reach(sq, occ, t) {
        assert(bb_has(bb, sq) && rook_reach(sq, occ, t));
    }
    if bishop_reach(sq, occ, t) {
        assert(bb_has(bb, sq) && bishop_reach(sq, occ, t));
    }
}

/// What lies strictly between two different squares and on the line
/// through them: for squares on one rank or file, from what rooks on both
/// attack; else from what bishops on both attack.
fn line_entries(attack: &AttackTables, src_sq: u8, dst_sq: u8) -> (entries: (u64, u64))
    requires
        attack.wf(),
        src_sq < 64,
        dst_sq < 64,
        src_sq != dst_sq,
    ensures
        forall|u: int| bb_has(entries.0, u) == between(src_sq as int, dst_sq as int, u),
        forall|u: int| bb_has(entries.1, u) == on_line(src_sq as int, dst_sq as int, u),
{
    let src_bb = bb_from_sq(src_sq);
    let dst_bb = bb_from_sq(dst_sq);
    let src_rank = rank_of(src_sq);
    let dst_rank = rank_of(dst_sq);
    let src_file = file_of(src_sq);
    let dst_file = file_of(dst_sq);
    let ghost a = src_sq as int;
    let ghost b = dst_sq as int;
    let mut between_bb: u64 = 0;
    let mut ray_bb: u64 = 0;
    if src_rank == dst_rank || src_file == dst_file {
        // Between two squares lies what rooks on both attack when each
        // stops the other.
        let from_src = rook_attacks(attack, src_bb, dst_bb);
        let from_dst = rook_attacks(attack, dst_bb, src_bb);
        between_bb = from_src & from_dst;
        let free_src = rook_attacks(attack, src_bb, 0);
        let free_dst = rook_attacks(attack, dst_bb, 0);
        ray_bb = src_bb | dst_bb | (free_src & free_dst);
        proof {
            assert(straight(a, b));
            assert forall|u: int| bb_has(between_bb, u) == between(a, b, u) by {
                lemma_single_attacker(a, src_bb, dst_bb, u);
                lemma_single_attacker(b, dst_bb, src_bb, u);
                lemma_reach_single_blocker(a, b, u, dst_bb);
                lemma_reach_single_blocker(b, a, u, src_bb);
                lemma_between_by_sliders(a, b, u);
            }
            assert forall|u: int| bb_has(ray_bb, u) == on_line(a, b, u) by {
                lemma_single_attacker(a, src_bb, 0, u);
                lemma_single_attacker(b, dst_bb, 0, u);
                lemma_reach_empty(a, u, 0);
                lemma_reach_empty(b, u, 0);
                lemma_line_by_sliders(a, b, u);
            }
        }
    } else {
        let from_src = bishop_attacks(attack, src_bb, dst_bb);
        let from_dst = bishop_attacks(attack, dst_bb, src_bb);
        proof {
            lemma_single_attacker(b, dst_bb, src_bb, a);
            lemma_reach_single_blocker(b, a, a, src_bb);
            assert(bb_has(from_dst, a) == diagonal(a, b));
            if src_bb & from_dst != 0 {
                lemma_nonzero(src_bb & from_dst);
            }
            if diagonal(a, b) {
                assert(bb_has(src_bb & from_dst, a));
            }
            assert((src_bb & from_dst != 0) == diagonal(a, b));
        }
        if src_bb & from_dst != 0 {
            between_bb = from_src & from_dst;
        }
        let free_src = bishop_attacks(attack, src_bb, 0) | src_bb;
        let free_dst = bishop_attacks(attack, dst_bb, 0) | dst_bb;
        proof {
            lemma_single_attacker(a, src_bb, 0, b);
            lemma_reach_empty(a, b, 0);
            if free_src & dst_bb != 0 {
                lemma_nonzero(free_src & dst_bb);
            }
            if diagonal(a, b) {
                assert(bb_has(free_src & dst_bb, b));
            }
            assert((free_src & dst_bb != 0) == diagonal(a, b));
        }
        if free_src & dst_bb != 0 {
            ray_bb = free_src & free_dst;
            ray_bb = ray_bb | (src_bb | dst_bb);
        }
        proof {
            assert(!straight(a, b)) by {
                lemma_square(a);
                lemma_square(b);
            }
            assert forall|u: int| bb_has(between_bb, u) == between(a, b, u) by {
                lemma_single_attacker(a, src_bb, dst_bb, u);
                lemma_single_attacker(b, dst_bb, src_bb, u);
                lemma_reach_single_blocker(a, b, u, dst_bb);
                lemma_reach_single_blocker(b, a, u, src_bb);
                lemma_between_by_sliders(a, b, u);
            }
            assert forall|u: int| bb_has(ray_bb, u) == on_line(a, b, u) by {
                lemma_single_attacker(a, src_bb, 0, u);
                lemma_single_attacker(b, dst_bb, 0, u);
                lemma_reach_empty(a, u, 0);
                lemma_reach_empty(b, u, 0);
                lemma_line_by_sliders(a, b, u);
            }
        }
    }
    (between_bb, ray_bb)
}

/// Completes the tables: to the attack tables it adds, for every pair of
/// squares, what lies between them and the line through them.
pub fn init(attack: AttackTables) -> (tables: Tables)
    requires
        attack.wf(),
    ensures
        tables.wf(),
        tables@.attack == attack@,
{
    let mut between_table: Vec<u64> = Vec::new();
    let mut rays_table: Vec<u64> = Vec::new();
    let mut dst_sq: u8 = 0;
    while dst_sq < 64
        invariant
            dst_sq <= 64,
            attack.wf(),
            between_table.len() == 64 * dst_sq,
            rays_table.len() == 64 * dst_sq,
            forall|a: int, b: int, u: int|
                0 <= a < 64 && 0 <= b < dst_sq ==> #[trigger] bb_has(
                    between_table[a + 64 * b],
                    u,
                ) == between(a, b, u),
            forall|a: int, b: int, u: int|
                0 <= a < 64 && 0 <= b < dst_sq ==> #[trigger] bb_has(rays_table[a + 64 * b], u)
                    == on_line(a, b, u),
        decreases 64 - dst_sq,
    {
        let mut src_sq: u8 = 0;
        while src_sq < 64
            invariant
                src_sq <= 64,
                dst_sq < 64,
                attack.wf(),
                between_table.len() == 64 * dst_sq + src_sq,
                rays_table.len() == 64 * dst_sq + src_sq,
                forall|a: int, b: int, u: int|
                    0 <= a < 64 && 0 <= b < 64 && a + 64 * b < 64 * dst_sq + src_sq
                        ==> #[trigger] bb_has(between_table[a + 64 * b], u) == between(a, b, u),
                forall|a: int, b: int, u: int|
                    0 <= a < 64 && 0 <= b < 64 && a + 64 * b < 64 * dst_sq + src_sq
                        ==> #[trigger] bb_has(rays_table[a + 64 * b], u) == on_line(a, b, u),
            decreases 64 - src_sq,
        {
            let (between_bb, ray_bb) = if src_sq == dst_sq {
                (0u64, 0u64)
            } else {
                line_entries(&attack, src_sq, dst_sq)
            };
            let ghost old_between = between_table@;
            let ghost old_rays = rays_table@;
            between_table.push(between_bb);
            rays_table.push(ray_bb);
            proof {
                let n = 64 * dst_sq + src_sq;
                assert forall|a: int, b: int, u: int|
                    0 <= a < 64 && 0 <= b < 64 && a + 64 * b < n + 1 implies #[trigger] bb_has(
                    between_table[a + 64 * b],
                    u,
                ) == between(a, b, u) by {
                    if a + 64 * b < n {
                        assert(bb_has(old_between[a + 64 * b], u) == between(a, b, u));
                    } else {
                        assert(a == src_sq && b == dst_sq);
                    }
                }
                assert forall|a: int, b: int, u: int|
                    0 <= a < 64 && 0 <= b < 64 && a + 64 * b < n + 1 implies #[trigger] bb_has(
                    rays_table[a + 64 * b],
                    u,
                ) == on_line(a, b, u) by {
                    if a + 64 * b < n {
                        assert(bb_has(old_rays[a + 64 * b], u) == on_line(a, b, u));
                    } else {
                        assert(a == src_sq && b == dst_sq);
                    }
                }
            }
            src_sq = src_sq + 1;
        }
        dst_sq = dst_sq + 1;
    }
    Tables { attack, between: between_table, rays: rays_table }
}

/// The squares strictly between `sq1` and `sq2` where the two share a
/// rank, file or diagonal; nothing else.
pub fn bb_between(tables: &Tables, sq1: u8, sq2: u8) -> (bb: u64)
    requires
        tables.wf(),
        sq1 < 64,
        sq2 < 64,
    ensures
        forall|u: int| bb_has(bb, u) == between(sq1 as int, sq2 as int, u),
{
    let idx = (sq1 as usize) + ((sq2 as usize) * 64);
    let bb = tables.between[idx];
    proof {
        assert forall|u: int| bb_has(bb, u) == between(sq1 as int, sq2 as int, u) by {
            assert(bb_has(tables@.between[sq1 as int + 64 * sq2 as int], u) == between(
                sq1 as int,
                sq2 as int,
                u,
            ));
        }
    }
    bb
}

/// The whole rank, file or diagonal through `sq1` and `sq2` where the two
/// share one, both squares included; nothing else.
pub fn bb_ray(tables: &Tables, sq1: u8, sq2: u8) -> (bb: u64)
    requires
        tables.wf(),
        sq1 < 64,
        sq2 < 64,
    ensures
        forall|u: int| bb_has(bb, u) == on_line(sq1 as int, sq2 as int, u),
{
    let idx = (sq1 as usize) + ((sq2 as usize) * 64);
    let bb = tables.rays[idx];
    proof {
        assert forall|u: int| bb_has(bb, u) == on_line(sq1 as int, sq2 as int, u) by {
            assert(bb_has(tables@.rays[sq1 as int + 64 * sq2 as int], u) == on_line(
                sq1 as int,
                sq2 as int,
                u,
            ));
        }
    }
    bb
}

/// The cells of a drawn bitboard: an `X` for each member, a blank for
/// every other square.
pub open spec fn bb_cells(bb: u64) -> Seq<char> {
    Seq::new(
        64,
        |s: int|
            if bb_has(bb, s) {
                'X'
            } else {
                ' '
            },
    )
}

/// The bitboard drawn as a board, with an `X` on each member, and the
/// line of file letters again below it.
pub fn bb_text(bb: u64) -> (s: String)
    ensures
        s@ == crate::text::drawing(bb_cells(bb)) + crate::text::drawing_letters(),
{
    let mut cells: Vec<char> = Vec::new();
    let mut sq: u8 = 0;
    while sq < 64
        invariant
            sq <= 64,
            cells.len() == sq,
            forall|s: int|
                0 <= s < sq ==> cells[s] == if bb_has(bb, s) {
                    'X'
                } else {
                    ' '
                },
        decreases 64 - sq,
    {
        let here = bb & bb_from_sq(sq);
        proof {
            if here != 0 {
                lemma_nonzero(here);
            }
            if bb_has(bb, sq as int) {
                assert(bb_has(here, sq as int));
            }
        }
        cells.push(
            if here != 0 {
                'X'
            } else {
                ' '
            },
        );
        sq = sq + 1;
    }
    proof {
        assert(cells@ =~= bb_cells(bb));
    }
    let mut s = crate::text::draw_board(&cells);
    s.append("     A   B   C   D   E   F   G   H\n");
    s
}

} // verus!
