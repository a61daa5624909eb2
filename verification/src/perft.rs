//! Counting the positions that can be reached in a given number of moves.

use vstd::prelude::*;
use crate::bitboard::Tables;
use crate::moves::MoveGen;
use crate::position::{
    Position, Board, make_spec, move_fits, move_suits, has_room, lemma_make_unmake_restores,
};
use crate::rules::generated;
use crate::things::Color;

verus! {

/// Number of lines of play of `depth` moves from the board `b`, where
/// every move is one that the generator gives.
pub open spec fn node_count(b: Board, depth: nat) -> nat
    decreases depth, 0x1_0001nat,
{
    if depth == 0 {
        1
    } else {
        nodes_below(b, depth, 0x1_0000)
    }
}

/// Number of lines of play of `depth` moves from the board `b` that start
/// with a move whose word is below `n`.
pub open spec fn nodes_below(b: Board, depth: nat, n: nat) -> nat
    decreases depth, n,
{
    if n == 0 || depth == 0 || n > 0x1_0000 {
        0
    } else {
        nodes_below(b, depth, (n - 1) as nat) + nodes_after(b, depth, (n - 1) as u16)
    }
}

/// Number of lines of play of `depth` moves from the board `b` that start
/// with the move `mv`: none if the generator does not give that move.
pub open spec fn nodes_after(b: Board, depth: nat, mv: u16) -> nat
    decreases depth, 0nat,
{
    if depth > 0 && generated(b, mv) {
        node_count(make_spec(b, mv), (depth - 1) as nat)
    } else {
        0
    }
}

/// The lines of play of `depth` moves from the board `b` can be played:
/// the generator can work on every board that is reached, and where a move
/// is to be made the board is playable and its counters have room for the
/// move.
pub open spec fn tree_playable(b: Board, depth: nat) -> bool
    decreases depth,
{
    &&& b.ready()
    &&& depth > 1 ==> {
        &&& b.playable()
        &&& forall|mv: u16|
            generated(b, mv) ==> has_room(b, mv) && tree_playable(
                #[trigger] make_spec(b, mv),
                (depth - 1) as nat,
            )
    }
}

/// The lines of play that start with one of the first `k` moves of `list`
/// whose word is below `n`.
pub open spec fn listed_nodes(b: Board, depth: nat, list: Seq<u16>, n: nat, k: int) -> nat
    decreases k,
{
    if k <= 0 {
        0
    } else {
        listed_nodes(b, depth, list, n, k - 1) + if list[k - 1] < n {
            nodes_after(b, depth, list[k - 1])
        } else {
            0
        }
    }
}

/// Counting over more of the list, or up to a higher bound, counts no
/// less.
proof fn lemma_listed_grows(b: Board, depth: nat, list: Seq<u16>, n: nat, j: int, k: int)
    requires
        0 <= j <= k <= list.len(),
    ensures
        listed_nodes(b, depth, list, n, j) <= listed_nodes(b, depth, list, n, k),
    decreases k - j,
{
    if j < k {
        lemma_listed_grows(b, depth, list, n, j, k - 1);
    }
}

/// Raising the bound by one adds the lines of play of the move with that
/// word, if it is among the first `k` of the list; the list holds no move
/// twice.
proof fn lemma_listed_step(b: Board, depth: nat, list: Seq<u16>, n: nat, k: int)
    requires
        0 <= k <= list.len(),
        list.no_duplicates(),
        n < 0x1_0000,
    ensures
        listed_nodes(b, depth, list, n + 1, k) == listed_nodes(b, depth, list, n, k) + if exists|
            i: int,
        |
            0 <= i < k && list[i] == n {
            nodes_after(b, depth, n as u16)
        } else {
            0
        },
    decreases k,
{
    if k > 0 {
        lemma_listed_step(b, depth, list, n, k - 1);
        if list[k - 1] == n {
            assert forall|i: int| 0 <= i < k - 1 implies list[i] != n by {
                assert(list[i] != list[k - 1]);
            }
        } else {
            if exists|i: int| 0 <= i < k && list[i] == n {
                let i = choose|i: int| 0 <= i < k && list[i] == n;
                assert(0 <= i < k - 1 && list[i] == n);
            }
        }
    }
}

/// Counting over a list that holds every generated move once counts every
/// line of play.
proof fn lemma_listed_all(b: Board, depth: nat, list: Seq<u16>, n: nat)
    requires
        depth > 0,
        list.no_duplicates(),
        forall|m: u16| list.contains(m) <==> generated(b, m),
        n <= 0x1_0000,
    ensures
        listed_nodes(b, depth, list, n, list.len() as int) == nodes_below(b, depth, n),
    decreases n,
{
    if n == 0 {
        lemma_listed_none(b, depth, list, list.len() as int);
    } else {
        let m = (n - 1) as nat;
        let mv = m as u16;
        lemma_listed_all(b, depth, list, m);
        lemma_listed_step(b, depth, list, m, list.len() as int);
        assert(nodes_below(b, depth, n) == nodes_below(b, depth, m) + nodes_after(b, depth, mv));
        if exists|i: int| 0 <= i < list.len() && list[i] == m {
            let i = choose|i: int| 0 <= i < list.len() && list[i] == m;
            assert(list[i] == mv);
            assert(list.contains(mv));
            assert(generated(b, mv));
        } else {
            if generated(b, mv) {
                assert(list.contains(mv));
                let i = choose|i: int| 0 <= i < list.len() && list[i] == mv;
                assert(0 <= i < list.len() && list[i] == m);
            }
            assert(nodes_after(b, depth, mv) == 0);
        }
    }
}

/// No move has a word below zero.
proof fn lemma_listed_none(b: Board, depth: nat, list: Seq<u16>, k: int)
    requires
        0 <= k <= list.len(),
    ensures
        listed_nodes(b, depth, list, 0, k) == 0,
    decreases k,
{
    if k > 0 {
        lemma_listed_none(b, depth, list, k - 1);
    }
}

/// With one move to go, the lines of play are the generated moves.
proof fn lemma_listed_leaves(b: Board, list: Seq<u16>, k: int)
    requires
        0 <= k <= list.len(),
        forall|m: u16| list.contains(m) <==> generated(b, m),
    ensures
        listed_nodes(b, 1, list, 0x1_0000, k) == k,
    decreases k,
{
    if k > 0 {
        lemma_listed_leaves(b, list, k - 1);
        assert(list.contains(list[k - 1]));
    }
}

/// Number of positions reached from `pos` by `depth` moves, each one that
/// the generator gives. The position is the same afterwards as before.
pub fn perft(depth: u32, pos: &mut Position, tables: &Tables) -> (nodes: usize)
    requires
        depth >= 1,
        old(pos).wf(),
        tables.wf(),
        tree_playable(old(pos)@, depth as nat),
        node_count(old(pos)@, depth as nat) <= usize::MAX,
    ensures
        nodes == node_count(old(pos)@, depth as nat),
        *final(pos) == *old(pos),
    decreases depth,
{
    let ghost b = pos@;
    let mut move_generator = MoveGen::new(*pos, tables);
    move_generator.gen_legal_moves();
    let ghost list = move_generator.list();
    proof {
        lemma_listed_all(b, depth as nat, list, 0x1_0000);
    }
    let moves = move_generator.into_moves();
    if depth == 1 {
        proof {
            lemma_listed_leaves(b, list, list.len() as int);
        }
        return moves.len();
    }
    proof {
        assert forall|j: int| 0 <= j < list.len() implies move_fits(b, #[trigger] list[j]) by {
            assert(list.contains(list[j]));
        }
    }
    let mut nodes: usize = 0;
    let mut i: usize = 0;
    while i < moves.len()
        invariant
            i <= moves.len(),
            moves@ == list,
            depth > 1,
            pos.wf(),
            tables.wf(),
            *pos == *old(pos),
            b == pos@,
            tree_playable(b, depth as nat),
            list.no_duplicates(),
            forall|m: u16| list.contains(m) <==> generated(b, m),
            forall|j: int| 0 <= j < list.len() ==> move_fits(b, #[trigger] list[j]),
            node_count(b, depth as nat) <= usize::MAX,
            listed_nodes(b, depth as nat, list, 0x1_0000, list.len() as int) == node_count(
                b,
                depth as nat,
            ),
            nodes == listed_nodes(b, depth as nat, list, 0x1_0000, i as int),
        decreases moves.len() - i,
    {
        let mv = moves[i];
        let ghost before = *pos;
        proof {
            assert(list.contains(mv));
            assert(generated(b, mv));
            assert(tree_playable(make_spec(b, mv), (depth - 1) as nat));
            lemma_listed_grows(b, depth as nat, list, 0x1_0000, i + 1, list.len() as int);
        }
        let undo = pos.make_move(mv);
        let ghost made = *pos;
        let below = perft(depth - 1, pos, tables);
        pos.unmake_move(undo);
        proof {
            lemma_make_unmake_restores(before, mv, made, undo, *pos);
        }
        nodes = nodes + below;
        i = i + 1;
    }
    nodes
}

/// As `perft`, for any position: gives nothing where the lines of play
/// cannot be played, or where the count does not fit.
pub fn perft_checked(depth: u32, pos: &mut Position, tables: &Tables) -> (nodes: Option<usize>)
    requires
        depth >= 1,
        old(pos).wf(),
        tables.wf(),
    ensures
        *final(pos) == *old(pos),
        match nodes {
            Some(n) => tree_playable(old(pos)@, depth as nat) && n == node_count(
                old(pos)@,
                depth as nat,
            ),
            None => !tree_playable(old(pos)@, depth as nat) || node_count(
                old(pos)@,
                depth as nat,
            ) > usize::MAX,
        },
    decreases depth,
{
    let ghost b = pos@;
    if !pos.is_ready() {
        return None;
    }
    let mut move_generator = MoveGen::new(*pos, tables);
    move_generator.gen_legal_moves();
    let ghost list = move_generator.list();
    proof {
        lemma_listed_all(b, depth as nat, list, 0x1_0000);
    }
    let moves = move_generator.into_moves();
    if depth == 1 {
        proof {
            lemma_listed_leaves(b, list, list.len() as int);
        }
        return Some(moves.len());
    }
    if !pos.is_playable() {
        return None;
    }
    let mut nodes: usize = 0;
    let mut i: usize = 0;
    while i < moves.len()
        invariant
            i <= moves.len(),
            moves@ == list,
            depth > 1,
            pos.wf(),
            tables.wf(),
            *pos == *old(pos),
            b == pos@,
            b.playable(),
            list.no_duplicates(),
            forall|m: u16| list.contains(m) <==> generated(b, m),
            forall|j: int| 0 <= j < list.len() ==> move_suits(b, #[trigger] list[j]),
            listed_nodes(b, depth as nat, list, 0x1_0000, list.len() as int) == node_count(
                b,
                depth as nat,
            ),
            nodes == listed_nodes(b, depth as nat, list, 0x1_0000, i as int),
            forall|j: int|
                0 <= j < i ==> has_room(b, #[trigger] list[j]) && tree_playable(
                    make_spec(b, list[j]),
                    (depth - 1) as nat,
                ),
        decreases moves.len() - i,
    {
        let mv = moves[i];
        let ghost before = *pos;
        proof {
            assert(list.contains(mv));
            assert(generated(b, mv));
            lemma_listed_grows(b, depth as nat, list, 0x1_0000, i + 1, list.len() as int);
        }
        if !pos.has_room(mv) {
            return None;
        }
        let undo = pos.make_move(mv);
        let ghost made = *pos;
        let below = perft_checked(depth - 1, pos, tables);
        pos.unmake_move(undo);
        proof {
            lemma_make_unmake_restores(before, mv, made, undo, *pos);
        }
        match below {
            None => {
                return None;
            },
            Some(count) => {
                if count > usize::MAX - nodes {
                    return None;
                }
                nodes = nodes + count;
            },
        }
        i = i + 1;
    }
    proof {
        assert forall|mv: u16| generated(b, mv) implies has_room(b, mv) && tree_playable(
            #[trigger] make_spec(b, mv),
            (depth - 1) as nat,
        ) by {
            assert(list.contains(mv));
            let j = choose|j: int| 0 <= j < list.len() && list[j] == mv;
            assert(has_room(b, list[j]));
            assert(tree_playable(make_spec(b, list[j]), (depth - 1) as nat));
        }
    }
    Some(nodes)
}

/// With one move to go, counting asks only that the generator can work on
/// the board; with two, a legal board whose counters have room for a move
/// will do.
pub proof fn lemma_tree_playable(b: Board)
    ensures
        b.ready() ==> tree_playable(b, 1),
        b.legal() && b.half < i32::MAX && (b.side == Color::Black ==> b.full < i32::MAX)
            ==> tree_playable(b, 2),
{
    if b.legal() && b.half < i32::MAX && (b.side == Color::Black ==> b.full < i32::MAX) {
        assert forall|mv: u16| generated(b, mv) implies has_room(b, mv) && tree_playable(
            #[trigger] make_spec(b, mv),
            1,
        ) by {
            crate::legality::lemma_generated_move_keeps_playable(b, mv);
        }
    }
}

} // verus!
