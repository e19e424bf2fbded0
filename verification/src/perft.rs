//! Counting the positions that legal play reaches in a given number of moves.
use crate::board::Board;
use crate::movegen::precalc::Precalc;
use crate::movegen::rules::{lemma_legal_keeps_regular, lemma_pseudo_legal_playable};
use crate::movegen::{generate_moves, legal, lemma_moves_len, pseudo_legal, safe_for, Move};
use vstd::prelude::*;

verus! {

/// The number of ways to play `depth` legal moves in a row from the position.
pub open spec fn perft_count(board: Board, depth: nat) -> nat
    decreases depth, 0nat, 0nat,
{
    if depth == 0 {
        1
    } else {
        perft_sum(board, legal(board), (depth - 1) as nat)
    }
}

/// The number of ways to play one of `moves` and then `depth` legal moves.
pub open spec fn perft_sum(board: Board, moves: Seq<Move>, depth: nat) -> nat
    decreases depth, 1nat, moves.len(),
{
    if moves.len() == 0 {
        0
    } else {
        perft_sum(board, moves.drop_last(), depth) + perft_count(
            board.after_move(moves.last()),
            depth,
        )
    }
}

/// Whether the positions that legal play reaches in fewer than `depth`
/// moves can all be searched: in each of them the side to move has a king,
/// unless it has no move at all.
pub open spec fn searchable(board: Board, depth: nat) -> bool
    decreases depth,
{
    depth == 0 || ((board.has_king(board.side_to_move) || pseudo_legal(board).len() == 0)
        && forall|i: int|
        0 <= i < legal(board).len() ==> searchable(
            board.after_move(#[trigger] legal(board)[i]),
            (depth - 1) as nat,
        ))
}

/// A part of the moves adds up to no more than all of them.
proof fn lemma_perft_sum_grows(board: Board, moves: Seq<Move>, n: int, depth: nat)
    requires
        0 <= n <= moves.len(),
    ensures
        perft_sum(board, moves.take(n), depth) <= perft_sum(board, moves, depth),
        n < moves.len() ==> perft_sum(board, moves.take(n), depth) + perft_count(
            board.after_move(moves[n]),
            depth,
        ) == perft_sum(board, moves.take(n + 1), depth),
    decreases moves.len() - n,
{
    if n < moves.len() {
        assert(moves.take(n + 1).drop_last() =~= moves.take(n));
        lemma_perft_sum_grows(board, moves, n + 1, depth);
    } else {
        assert(moves.take(n) =~= moves);
    }
}

/// What trying the `i`-th pseudo-legal move adds to the search: when it
/// leaves the king safe it is the next legal move, its positions join the
/// count, and what is counted so far stays within the whole.
proof fn lemma_perft_step(board: Board, i: int, depth: nat)
    requires
        0 <= i < pseudo_legal(board).len(),
        searchable(board, depth + 1),
    ensures
        ({
            let moves = pseudo_legal(board);
            let keep = safe_for(board);
            let done = moves.take(i).filter(keep);
            let m = moves[i];
            if board.keeps_king_safe(m) {
                &&& moves.take(i + 1).filter(keep) == done.push(m)
                &&& perft_sum(board, done.push(m), depth) == perft_sum(board, done, depth)
                    + perft_count(board.after_move(m), depth)
                &&& perft_sum(board, done.push(m), depth) <= perft_count(board, depth + 1)
                &&& searchable(board.after_move(m), depth)
            } else {
                moves.take(i + 1).filter(keep) == done
            }
        }),
{
    let moves = pseudo_legal(board);
    let keep = safe_for(board);
    let done = moves.take(i).filter(keep);
    let m = moves[i];
    let all = legal(board);
    assert(moves.take(i + 1) =~= moves.take(i).push(m));
    moves.take(i).lemma_filter_push(m, keep);
    if board.keeps_king_safe(m) {
        let k = done.len() as int;
        lemma_filter_prefix(moves, keep, i);
        lemma_filter_prefix(moves, keep, i + 1);
        assert(done.push(m) == all.take(k + 1));
        assert(all.take(k + 1)[k] == m);
        assert(all[k] == m);
        assert(done.push(m).drop_last() =~= done);
        lemma_perft_sum_grows(board, all, k + 1, depth);
    }
}

/// The number of ways to play `depth` legal moves in a row from the position.
pub fn perft(depth: u32, board: &Board, pre: &Precalc) -> (count: u128)
    requires
        pre.wf(),
        searchable(*board, depth as nat),
        perft_count(*board, depth as nat) <= u128::MAX,
    ensures
        count == perft_count(*board, depth as nat),
    decreases depth,
{
    if depth == 0 {
        return 1;
    }
    let moves = generate_moves(board, pre);
    let ghost below = (depth - 1) as nat;
    let mut count: u128 = 0;
    let mut i: usize = 0;
    proof {
        assert(moves@.take(0) =~= Seq::<Move>::empty());
    }
    while i < moves.len()
        invariant
            pre.wf(),
            depth > 0,
            below == depth - 1,
            moves@ == pseudo_legal(*board),
            searchable(*board, below + 1),
            perft_count(*board, below + 1) <= u128::MAX,
            i <= moves.len(),
            count == perft_sum(*board, moves@.take(i as int).filter(safe_for(*board)), below),
        decreases moves.len() - i,
    {
        let m = moves[i];
        proof {
            assert(moves@.contains(m));
            if !board.has_king(board.side_to_move) {
                assert(pseudo_legal(*board).len() == 0);
            }
            lemma_pseudo_legal_playable(*board, m);
            lemma_perft_step(*board, i as int, below);
        }
        let mut b = *board;
        if b.make_move(m, pre) {
            let x = perft(depth - 1, &b, pre);
            count += x;
        }
        i += 1;
    }
    proof {
        assert(moves@.take(moves.len() as int) =~= moves@);
    }
    count
}

/// Filtering a prefix gives a prefix of the filtered sequence.
proof fn lemma_filter_prefix(s: Seq<Move>, keep: spec_fn(Move) -> bool, n: int)
    requires
        0 <= n <= s.len(),
    ensures
        s.take(n).filter(keep).len() <= s.filter(keep).len(),
        s.take(n).filter(keep) == s.filter(keep).take(s.take(n).filter(keep).len() as int),
    decreases s.len() - n,
{
    if n < s.len() {
        lemma_filter_prefix(s, keep, n + 1);
        assert(s.take(n + 1) =~= s.take(n).push(s[n]));
        s.take(n).lemma_filter_push(s[n], keep);
        let longer = s.take(n + 1).filter(keep);
        let shorter = s.take(n).filter(keep);
        if keep(s[n]) {
            assert(shorter =~= longer.take(shorter.len() as int));
            assert(longer.take(shorter.len() as int) =~= s.filter(keep).take(
                longer.len() as int,
            ).take(shorter.len() as int));
        }
        assert(shorter =~= s.filter(keep).take(shorter.len() as int));
    } else {
        assert(s.take(n) =~= s);
        assert(s.filter(keep).take(s.filter(keep).len() as int) =~= s.filter(keep));
    }
}

/// From a regular position every line of legal play can be searched, to
/// any depth.
pub proof fn lemma_regular_searchable(board: Board, depth: nat)
    requires
        board.regular(),
    ensures
        searchable(board, depth),
    decreases depth,
{
    if depth > 0 {
        assert forall|i: int| 0 <= i < legal(board).len() implies searchable(
            board.after_move(#[trigger] legal(board)[i]),
            (depth - 1) as nat,
        ) by {
            let m = legal(board)[i];
            assert(legal(board).contains(m));
            lemma_legal_keeps_regular(board, m);
            lemma_regular_searchable(board.after_move(m), (depth - 1) as nat);
        }
    }
}

/// A bound on the count for a depth: 2^18 to the power of the depth.
pub open spec fn perft_limit(depth: nat) -> nat
    decreases depth,
{
    if depth == 0 {
        1
    } else {
        262144 * perft_limit((depth - 1) as nat)
    }
}

proof fn lemma_perft_count_limit(board: Board, depth: nat)
    ensures
        perft_count(board, depth) <= perft_limit(depth),
    decreases depth, 0nat, 0nat,
{
    if depth > 0 {
        let below = (depth - 1) as nat;
        lemma_perft_sum_limit(board, legal(board), below);
        lemma_moves_len(board);
        let n = legal(board).len();
        let x = perft_limit(below);
        assert(n * x <= 262144 * x) by (nonlinear_arith)
            requires
                n <= 262144,
                x >= 0,
        ;
    }
}

proof fn lemma_perft_sum_limit(board: Board, moves: Seq<Move>, depth: nat)
    ensures
        perft_sum(board, moves, depth) <= moves.len() * perft_limit(depth),
    decreases depth, 1nat, moves.len(),
{
    if moves.len() > 0 {
        lemma_perft_sum_limit(board, moves.drop_last(), depth);
        lemma_perft_count_limit(board.after_move(moves.last()), depth);
        let n = moves.len();
        let x = perft_limit(depth);
        assert((n - 1) * x + x == n * x) by (nonlinear_arith);
    } else {
        assert(moves.len() * perft_limit(depth) == 0) by (nonlinear_arith)
            requires
                moves.len() == 0,
        ;
    }
}

/// The count for a depth of up to seven moves fits in 128 bits.
pub proof fn lemma_perft_fits(board: Board, depth: nat)
    requires
        depth <= 7,
    ensures
        perft_count(board, depth) <= u128::MAX,
{
    lemma_perft_count_limit(board, depth);
    reveal_with_fuel(perft_limit, 8);
    assert(perft_limit(7) == 0x4000_0000_0000_0000_0000_0000_0000_0000);
}

} // verus!
