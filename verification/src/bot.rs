//! A player that moves at random.
use crate::board::Board;
use crate::movegen::precalc::Precalc;
use crate::movegen::{legal, legal_moves, Move};
use rand::seq::SliceRandom;
use vstd::prelude::*;

verus! {

/// One of the moves, picked by `rand`'s `SliceRandom::choose` with the
/// generator of the current thread. The contract states what `choose`
/// documents: `None` for an empty slice, else an element of the slice. Which
/// element it is depends on the generator and is not stated.
#[verifier::external_body]
fn choose_move(moves: &Vec<Move>) -> (pick: Option<Move>)
    ensures
        moves@.len() == 0 ==> pick is None,
        moves@.len() > 0 ==> pick is Some && moves@.contains(pick->0),
{
    moves.choose(&mut rand::thread_rng()).copied()
}

/// A legal move of the position, picked at random.
pub fn bot_move(board: &Board, pre: &Precalc) -> (m: Move)
    requires
        pre.wf(),
        board.has_king(board.side_to_move),
        legal(*board).len() > 0,
    ensures
        legal(*board).contains(m),
{
    let moves = legal_moves(board, pre);
    match choose_move(&moves) {
        Some(m) => m,
        None => moves[0],
    }
}

} // verus!
