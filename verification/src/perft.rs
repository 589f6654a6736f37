//! Counting the leaves of the tree of moves.
use vstd::prelude::*;
use crate::board::Board;
use crate::color::Color;
use crate::listing::{has_group, has_move};
use crate::moves::{Move, PieceMoves};
use crate::play::{lemma_apply_undoes, lemma_board_ext, lemma_undo_restores};
use crate::safe_moves::lemma_moves_safe;
use crate::tables::AttackTables;

verus! {

/// The moves of the first `n` groups, one after the other.
pub open spec fn flatten(groups: Seq<PieceMoves>, c: Color, n: int) -> Seq<Move>
    decreases n,
{
    if n <= 0 {
        Seq::empty()
    } else {
        flatten(groups, c, n - 1) + groups[n - 1].spec_convert(c)
    }
}

/// The board after the move.
pub open spec fn board_after(b: Board, mv: Move) -> Board {
    choose|n: Board| n.placed() && n@ == b@.apply(mv)
}

impl Board {
    /// Every move that the generator lists, in its order.
    pub open spec fn all_moves(self) -> Seq<Move> {
        flatten(self.spec_moves(), self.turn, self.spec_moves().len() as int)
    }
}

/// The number of positions that are reached from the board in exactly
/// `depth` plies.
pub open spec fn spec_perft(b: Board, depth: nat) -> nat
    decreases depth, 0nat,
{
    if depth == 0 {
        1
    } else {
        leaves(b, b.all_moves(), (depth - 1) as nat, b.all_moves().len())
    }
}

/// The number of positions that are reached in exactly `depth` plies
/// after one of the first `n` of the moves.
pub open spec fn leaves(b: Board, moves: Seq<Move>, depth: nat, n: nat) -> nat
    decreases depth, 1nat, n,
{
    if n == 0 {
        0
    } else {
        leaves(b, moves, depth, (n - 1) as nat) + spec_perft(board_after(b, moves[n - 1]), depth)
    }
}

/// A count held at the greatest number that the machine can hold.
pub open spec fn capped(n: nat) -> usize {
    if n > usize::MAX {
        usize::MAX
    } else {
        n as usize
    }
}

/// The number of positions that are reached from the board in exactly
/// `depth` plies, held at the greatest number that the machine can hold.
/// The count depends on nothing but the position and the depth.
pub fn perft(brd: &Board, tables: &AttackTables, depth: usize) -> (nodes: usize)
    requires
        brd.wf(),
        brd@.rested(),
        tables.wf(),
    ensures
        nodes == capped(spec_perft(*brd, depth as nat)),
    decreases depth,
{
    if depth == 0 {
        return 1;
    }
    let mut board = *brd;
    let groups = board.moves(tables);
    let ghost all = brd.all_moves();
    let ghost d = (depth - 1) as nat;
    proof {
        assert(spec_perft(*brd, depth as nat) == leaves(*brd, all, d, all.len()));
    }
    let mut nodes: usize = 0;
    let mut i: usize = 0;
    let ghost mut done: nat = 0;
    while i < groups.len()
        invariant
            i <= groups@.len(),
            groups@ == brd.spec_moves(),
            board == *brd,
            brd.wf(),
            brd@.rested(),
            tables.wf(),
            depth >= 1,
            d == depth - 1,
            all == flatten(groups@, brd.turn, groups@.len() as int),
            done == flatten(groups@, brd.turn, i as int).len(),
            done <= all.len(),
            nodes == capped(leaves(*brd, all, d, done)),
        decreases groups@.len() - i,
    {
        let moves = groups[i].convert(board.turn);
        proof {
            let base = flatten(groups@, brd.turn, i as int);
            let next = flatten(groups@, brd.turn, i as int + 1);
            assert(next == base + moves@);
            lemma_flatten_prefix(groups@, brd.turn, i as int + 1, groups@.len() as int);
            assert(next == all.take(next.len() as int));
            assert(next.len() == done + moves@.len());
            assert forall|k: int| 0 <= k < moves@.len() implies all[done + k] == moves@[k] by {
                assert(next[done + k] == moves@[k]);
                assert(all.take(next.len() as int)[done + k] == all[done + k]);
            }
        }
        let mut j: usize = 0;
        while j < moves.len()
            invariant
                j <= moves@.len(),
                i < groups@.len(),
                groups@ == brd.spec_moves(),
                moves@ == groups@[i as int].spec_convert(brd.turn),
                board == *brd,
                brd.wf(),
                brd@.rested(),
                tables.wf(),
                depth >= 1,
                d == depth - 1,
                done + moves@.len() <= all.len(),
                forall|k: int| 0 <= k < moves@.len() ==> all[done + k] == moves@[k],
                nodes == capped(leaves(*brd, all, d, (done + j) as nat)),
            decreases moves@.len() - j,
        {
            let mv = moves[j];
            proof {
                assert(has_group(brd.spec_moves(), groups@[i as int]));
                assert(has_move(groups@[i as int].spec_convert(brd.turn), mv));
                assert(brd.emits(mv));
                lemma_moves_safe(*brd, mv);
                lemma_apply_undoes(brd@, mv);
                assert(all[done + j] == mv);
            }
            let rec = board.apply_move(&mv);
            proof {
                lemma_board_ext(board, board_after(*brd, mv));
            }
            let sub = perft(&board, tables, depth - 1);
            let ghost between = board;
            board.undo_move(&mv, &rec);
            proof {
                lemma_undo_restores(*brd, mv, between, rec, board);
                let n = (done + j + 1) as nat;
                assert(leaves(*brd, all, d, n) == leaves(*brd, all, d, (n - 1) as nat) + spec_perft(
                    board_after(*brd, all[n - 1]),
                    d,
                ));
            }
            nodes = if sub > usize::MAX - nodes {
                usize::MAX
            } else {
                nodes + sub
            };
            j = j + 1;
        }
        proof {
            done = done + moves@.len();
        }
        i = i + 1;
    }
    nodes
}

/// The moves of the first groups are the first of the moves of more groups.
pub proof fn lemma_flatten_prefix(groups: Seq<PieceMoves>, c: Color, n: int, m: int)
    requires
        0 <= n <= m,
    ensures
        flatten(groups, c, n).len() <= flatten(groups, c, m).len(),
        flatten(groups, c, n) == flatten(groups, c, m).take(flatten(groups, c, n).len() as int),
    decreases m - n,
{
    if n < m {
        lemma_flatten_prefix(groups, c, n, m - 1);
        let a = flatten(groups, c, n);
        let b = flatten(groups, c, m - 1);
        let full = flatten(groups, c, m);
        assert(full == b + groups[m - 1].spec_convert(c));
        assert(a =~= full.take(a.len() as int));
    } else {
        assert(flatten(groups, c, n) =~= flatten(groups, c, m).take(flatten(groups, c, n).len() as int));
    }
}

} // verus!
