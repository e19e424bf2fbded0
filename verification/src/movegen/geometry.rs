//! Which squares a piece on a given square reaches, stated over square
//! numbers, files and ranks. This is what the attack tables are held to.
use crate::piece::Color;
use vstd::prelude::*;

verus! {

/// Whether `s` is the number of a square.
pub open spec fn on_board(s: int) -> bool {
    0 <= s < 64
}

/// The file of a square, 0 for the a-file.
pub open spec fn file_of(s: int) -> int {
    s % 8
}

/// The rank of a square, 0 for the first rank.
pub open spec fn rank_of(s: int) -> int {
    s / 8
}

/// The distance between two files or two ranks.
pub open spec fn dist(a: int, b: int) -> int {
    if a <= b {
        b - a
    } else {
        a - b
    }
}

/// `x` lies in the closed interval spanned by `a` and `b`.
pub open spec fn inside(a: int, x: int, b: int) -> bool {
    (a <= x <= b) || (b <= x <= a)
}

/// `t` is a knight's jump away from `s`.
pub open spec fn knight_jump(s: int, t: int) -> bool {
    let df = dist(file_of(s), file_of(t));
    let dr = dist(rank_of(s), rank_of(t));
    (df == 1 && dr == 2) || (df == 2 && dr == 1)
}

/// `t` is a neighbour of `s`.
pub open spec fn king_step(s: int, t: int) -> bool {
    s != t && dist(file_of(s), file_of(t)) <= 1 && dist(rank_of(s), rank_of(t)) <= 1
}

/// A pawn of `color` on `s` attacks `t`: one file aside, one rank ahead.
pub open spec fn pawn_strike(color: Color, s: int, t: int) -> bool {
    dist(file_of(s), file_of(t)) == 1 && rank_of(t) == rank_of(s) + (match color {
        Color::White => 1int,
        Color::Black => -1int,
    })
}

/// `s` and `t` are distinct squares of one file or one rank.
pub open spec fn straight(s: int, t: int) -> bool {
    s != t && (file_of(s) == file_of(t) || rank_of(s) == rank_of(t))
}

/// `s` and `t` are distinct squares of one diagonal.
pub open spec fn diagonal(s: int, t: int) -> bool {
    s != t && dist(file_of(s), file_of(t)) == dist(rank_of(s), rank_of(t))
}

/// `u` is a square other than `s` and `t` in the rectangle they span. For `s`
/// and `t` on one file or rank these are the squares strictly between them.
pub open spec fn between(s: int, u: int, t: int) -> bool {
    on_board(u) && u != s && u != t && inside(file_of(s), file_of(u), file_of(t)) && inside(
        rank_of(s),
        rank_of(u),
        rank_of(t),
    )
}

/// The squares a knight on `s` attacks.
pub open spec fn knight_reach(s: int) -> Set<int> {
    Set::new(|t: int| on_board(t) && knight_jump(s, t))
}

/// The squares a king on `s` attacks.
pub open spec fn king_reach(s: int) -> Set<int> {
    Set::new(|t: int| on_board(t) && king_step(s, t))
}

/// The squares a pawn of `color` on `s` attacks.
pub open spec fn pawn_reach(color: Color, s: int) -> Set<int> {
    Set::new(|t: int| on_board(t) && pawn_strike(color, s, t))
}

/// No occupied square lies strictly between `s` and `t` on their file or rank.
pub open spec fn clear_straight(s: int, t: int, occ: Set<int>) -> bool {
    forall|u: int| between(s, u, t) ==> !#[trigger] occ.contains(u)
}

/// No occupied square lies strictly between `s` and `t` on their diagonal.
pub open spec fn clear_diagonal(s: int, t: int, occ: Set<int>) -> bool {
    forall|u: int| between(s, u, t) && diagonal(s, u) ==> !#[trigger] occ.contains(u)
}

/// The squares a rook on `s` attacks when `occ` is occupied: along each file
/// and rank up to and including the first occupied square.
pub open spec fn rook_reach(s: int, occ: Set<int>) -> Set<int> {
    Set::new(|t: int| on_board(t) && straight(s, t) && clear_straight(s, t, occ))
}

/// The squares a bishop on `s` attacks when `occ` is occupied.
pub open spec fn bishop_reach(s: int, occ: Set<int>) -> Set<int> {
    Set::new(|t: int| on_board(t) && diagonal(s, t) && clear_diagonal(s, t, occ))
}

/// The squares a queen on `s` attacks when `occ` is occupied.
pub open spec fn queen_reach(s: int, occ: Set<int>) -> Set<int> {
    bishop_reach(s, occ).union(rook_reach(s, occ))
}

/// The squares whose occupancy can shorten a rook's reach from `s`: those on
/// its file and rank that are not the last square of the line.
pub open spec fn rook_mask(s: int) -> Set<int> {
    Set::new(
        |t: int|
            on_board(t) && straight(s, t) && (rank_of(t) == rank_of(s) ==> 1 <= file_of(t) <= 6)
                && (file_of(t) == file_of(s) ==> 1 <= rank_of(t) <= 6),
    )
}

/// The squares whose occupancy can shorten a bishop's reach from `s`: those
/// on its diagonals that are not on the rim of the board.
pub open spec fn bishop_mask(s: int) -> Set<int> {
    Set::new(
        |t: int|
            on_board(t) && diagonal(s, t) && 1 <= file_of(t) <= 6 && 1 <= rank_of(t) <= 6,
    )
}

/// Only the occupancy of the mask squares matters to a rook's reach.
pub proof fn lemma_rook_reach_relevant(s: int, occ: Set<int>)
    requires
        on_board(s),
    ensures
        rook_reach(s, occ) == rook_reach(s, occ.intersect(rook_mask(s))),
{
    let rel = occ.intersect(rook_mask(s));
    assert forall|t: int| on_board(t) && straight(s, t) implies clear_straight(s, t, occ)
        == clear_straight(s, t, rel) by {
        if clear_straight(s, t, rel) {
            assert forall|u: int| between(s, u, t) implies !#[trigger] occ.contains(u) by {
                assert(rook_mask(s).contains(u));
                assert(!rel.contains(u));
            }
        }
    }
    assert(rook_reach(s, occ) =~= rook_reach(s, rel));
}

/// Only the occupancy of the mask squares matters to a bishop's reach.
pub proof fn lemma_bishop_reach_relevant(s: int, occ: Set<int>)
    requires
        on_board(s),
    ensures
        bishop_reach(s, occ) == bishop_reach(s, occ.intersect(bishop_mask(s))),
{
    let rel = occ.intersect(bishop_mask(s));
    assert forall|t: int| on_board(t) && diagonal(s, t) implies clear_diagonal(s, t, occ)
        == clear_diagonal(s, t, rel) by {
        if clear_diagonal(s, t, rel) {
            assert forall|u: int| between(s, u, t) && diagonal(s, u) implies !#[trigger] occ.contains(
                u,
            ) by {
                assert(bishop_mask(s).contains(u));
                assert(!rel.contains(u));
            }
        }
    }
    assert(bishop_reach(s, occ) =~= bishop_reach(s, rel));
}

/// The sign of a number: -1, 0 or 1.
pub open spec fn sign(d: int) -> int {
    if d < 0 {
        -1
    } else if d == 0 {
        0
    } else {
        1
    }
}

/// `t` lies from `s` in the direction `(df, dr)`, each of -1, 0 or 1: towards
/// higher files for `df == 1`, towards higher ranks for `dr == 1`.
pub open spec fn heading(s: int, t: int, df: int, dr: int) -> bool {
    sign(file_of(t) - file_of(s)) == df && sign(rank_of(t) - rank_of(s)) == dr
}

/// Number of king steps from `s` to `t`.
pub open spec fn steps(s: int, t: int) -> int {
    let df = dist(file_of(s), file_of(t));
    let dr = dist(rank_of(s), rank_of(t));
    if df >= dr {
        df
    } else {
        dr
    }
}

/// The squares of one file or rank direction from `s`, fewer than `k` steps away.
pub open spec fn rook_segment(s: int, df: int, dr: int, k: int) -> Set<int> {
    Set::new(|t: int| on_board(t) && straight(s, t) && heading(s, t, df, dr) && steps(s, t) < k)
}

/// The squares of one diagonal direction from `s`, fewer than `k` steps away.
pub open spec fn bishop_segment(s: int, df: int, dr: int, k: int) -> Set<int> {
    Set::new(|t: int| on_board(t) && diagonal(s, t) && heading(s, t, df, dr) && steps(s, t) < k)
}

/// The part of a rook's reach that lies in one direction.
pub open spec fn rook_ray(s: int, occ: Set<int>, df: int, dr: int) -> Set<int> {
    Set::new(|t: int| rook_reach(s, occ).contains(t) && heading(s, t, df, dr))
}

/// The part of a bishop's reach that lies in one direction.
pub open spec fn bishop_ray(s: int, occ: Set<int>, df: int, dr: int) -> Set<int> {
    Set::new(|t: int| bishop_reach(s, occ).contains(t) && heading(s, t, df, dr))
}

/// A rook's ray ends with the first occupied square.
pub proof fn lemma_rook_ray_blocked(s: int, occ: Set<int>, df: int, dr: int, k: int, b: int)
    requires
        on_board(s),
        on_board(b),
        straight(s, b),
        heading(s, b, df, dr),
        steps(s, b) == k,
        occ.contains(b),
        forall|u: int| rook_segment(s, df, dr, k).contains(u) ==> !#[trigger] occ.contains(u),
    ensures
        rook_ray(s, occ, df, dr) == rook_segment(s, df, dr, k + 1),
{
    assert forall|t: int| rook_ray(s, occ, df, dr).contains(t) == rook_segment(
        s,
        df,
        dr,
        k + 1,
    ).contains(t) by {
        if on_board(t) && straight(s, t) && heading(s, t, df, dr) {
            if steps(s, t) <= k {
                assert forall|u: int| between(s, u, t) implies !#[trigger] occ.contains(u) by {
                    assert(rook_segment(s, df, dr, k).contains(u));
                }
                assert(clear_straight(s, t, occ));
            } else {
                assert(between(s, b, t));
            }
        }
    }
    assert(rook_ray(s, occ, df, dr) =~= rook_segment(s, df, dr, k + 1));
}

/// A rook's ray that meets no occupied square runs to the rim.
pub proof fn lemma_rook_ray_open(s: int, occ: Set<int>, df: int, dr: int, k: int)
    requires
        on_board(s),
        forall|u: int| rook_segment(s, df, dr, k).contains(u) ==> !#[trigger] occ.contains(u),
        forall|t: int| on_board(t) && straight(s, t) && heading(s, t, df, dr) ==> steps(s, t) < k,
    ensures
        rook_ray(s, occ, df, dr) == rook_segment(s, df, dr, k),
{
    assert forall|t: int| rook_ray(s, occ, df, dr).contains(t) == rook_segment(
        s,
        df,
        dr,
        k,
    ).contains(t) by {
        if on_board(t) && straight(s, t) && heading(s, t, df, dr) {
            assert forall|u: int| between(s, u, t) implies !#[trigger] occ.contains(u) by {
                assert(rook_segment(s, df, dr, k).contains(u));
            }
            assert(clear_straight(s, t, occ));
        }
    }
    assert(rook_ray(s, occ, df, dr) =~= rook_segment(s, df, dr, k));
}

/// A rook's reach is made of its four rays.
pub proof fn lemma_rook_rays(s: int, occ: Set<int>)
    requires
        on_board(s),
    ensures
        rook_reach(s, occ) == rook_ray(s, occ, 0, 1).union(rook_ray(s, occ, 0, -1)).union(
            rook_ray(s, occ, 1, 0),
        ).union(rook_ray(s, occ, -1, 0)),
{
    assert(rook_reach(s, occ) =~= rook_ray(s, occ, 0, 1).union(rook_ray(s, occ, 0, -1)).union(
        rook_ray(s, occ, 1, 0),
    ).union(rook_ray(s, occ, -1, 0)));
}

/// A bishop's ray ends with the first occupied square.
pub proof fn lemma_bishop_ray_blocked(s: int, occ: Set<int>, df: int, dr: int, k: int, b: int)
    requires
        on_board(s),
        on_board(b),
        diagonal(s, b),
        heading(s, b, df, dr),
        steps(s, b) == k,
        occ.contains(b),
        forall|u: int| bishop_segment(s, df, dr, k).contains(u) ==> !#[trigger] occ.contains(u),
    ensures
        bishop_ray(s, occ, df, dr) == bishop_segment(s, df, dr, k + 1),
{
    assert forall|t: int| bishop_ray(s, occ, df, dr).contains(t) == bishop_segment(
        s,
        df,
        dr,
        k + 1,
    ).contains(t) by {
        if on_board(t) && diagonal(s, t) && heading(s, t, df, dr) {
            if steps(s, t) <= k {
                assert forall|u: int| between(s, u, t) && diagonal(s, u) implies !#[trigger] occ.contains(
                    u,
                ) by {
                    assert(bishop_segment(s, df, dr, k).contains(u));
                }
                assert(clear_diagonal(s, t, occ));
            } else {
                assert(between(s, b, t) && diagonal(s, b));
            }
        }
    }
    assert(bishop_ray(s, occ, df, dr) =~= bishop_segment(s, df, dr, k + 1));
}

/// A bishop's ray that meets no occupied square runs to the rim.
pub proof fn lemma_bishop_ray_open(s: int, occ: Set<int>, df: int, dr: int, k: int)
    requires
        on_board(s),
        forall|u: int| bishop_segment(s, df, dr, k).contains(u) ==> !#[trigger] occ.contains(u),
        forall|t: int| on_board(t) && diagonal(s, t) && heading(s, t, df, dr) ==> steps(s, t) < k,
    ensures
        bishop_ray(s, occ, df, dr) == bishop_segment(s, df, dr, k),
{
    assert forall|t: int| bishop_ray(s, occ, df, dr).contains(t) == bishop_segment(
        s,
        df,
        dr,
        k,
    ).contains(t) by {
        if on_board(t) && diagonal(s, t) && heading(s, t, df, dr) {
            assert forall|u: int| between(s, u, t) && diagonal(s, u) implies !#[trigger] occ.contains(
                u,
            ) by {
                assert(bishop_segment(s, df, dr, k).contains(u));
            }
            assert(clear_diagonal(s, t, occ));
        }
    }
    assert(bishop_ray(s, occ, df, dr) =~= bishop_segment(s, df, dr, k));
}

/// A bishop's reach is made of its four rays.
pub proof fn lemma_bishop_rays(s: int, occ: Set<int>)
    requires
        on_board(s),
    ensures
        bishop_reach(s, occ) == bishop_ray(s, occ, 1, 1).union(bishop_ray(s, occ, 1, -1)).union(
            bishop_ray(s, occ, -1, 1),
        ).union(bishop_ray(s, occ, -1, -1)),
{
    assert(bishop_reach(s, occ) =~= bishop_ray(s, occ, 1, 1).union(
        bishop_ray(s, occ, 1, -1),
    ).union(bishop_ray(s, occ, -1, 1)).union(bishop_ray(s, occ, -1, -1)));
}

/// `a` moved `k` steps in the direction of the sign `d`.
pub open spec fn shift(a: int, d: int, k: int) -> int {
    if d > 0 {
        a + k
    } else if d < 0 {
        a - k
    } else {
        a
    }
}

/// Whether the board has a square `k` steps from `s` in the direction `(df, dr)`.
pub open spec fn has_ahead(s: int, df: int, dr: int, k: int) -> bool {
    0 <= shift(rank_of(s), dr, k) < 8 && 0 <= shift(file_of(s), df, k) < 8
}

/// The square `k` steps from `s` in the direction `(df, dr)`.
pub open spec fn ahead(s: int, df: int, dr: int, k: int) -> int {
    8 * shift(rank_of(s), dr, k) + shift(file_of(s), df, k)
}

/// `(df, dr)` is one of the four directions of a rook.
pub open spec fn rook_direction(df: int, dr: int) -> bool {
    (df == 0 && (dr == 1 || dr == -1)) || (dr == 0 && (df == 1 || df == -1))
}

/// `(df, dr)` is one of the four directions of a bishop.
pub open spec fn bishop_direction(df: int, dr: int) -> bool {
    (df == 1 || df == -1) && (dr == 1 || dr == -1)
}

/// No square of `set` is occupied.
pub open spec fn unoccupied(set: Set<int>, occ: Set<int>) -> bool {
    forall|u: int| set.contains(u) ==> !#[trigger] occ.contains(u)
}

/// One more square of a rook's line: the segment grows by it, and the ray
/// ends there when the square is occupied.
pub proof fn lemma_rook_step(s: int, occ: Set<int>, df: int, dr: int, k: int)
    requires
        on_board(s),
        rook_direction(df, dr),
        k >= 1,
        has_ahead(s, df, dr, k),
        unoccupied(rook_segment(s, df, dr, k), occ),
    ensures
        on_board(ahead(s, df, dr, k)),
        rook_segment(s, df, dr, k + 1) == rook_segment(s, df, dr, k).insert(ahead(s, df, dr, k)),
        occ.contains(ahead(s, df, dr, k)) ==> rook_ray(s, occ, df, dr) == rook_segment(
            s,
            df,
            dr,
            k + 1,
        ),
        !occ.contains(ahead(s, df, dr, k)) ==> unoccupied(rook_segment(s, df, dr, k + 1), occ),
{
    let b = ahead(s, df, dr, k);
    assert(rank_of(b) == shift(rank_of(s), dr, k) && file_of(b) == shift(file_of(s), df, k));
    assert(straight(s, b) && heading(s, b, df, dr) && steps(s, b) == k);
    assert forall|t: int|
        on_board(t) && straight(s, t) && heading(s, t, df, dr) && steps(s, t) == k implies t
        == b by {
        assert(rank_of(t) == rank_of(b) && file_of(t) == file_of(b));
    }
    assert(rook_segment(s, df, dr, k + 1) =~= rook_segment(s, df, dr, k).insert(b));
    if occ.contains(b) {
        lemma_rook_ray_blocked(s, occ, df, dr, k, b);
    }
}

/// A rook's line that has run off the board without meeting an occupied
/// square: the ray is the whole segment.
pub proof fn lemma_rook_end(s: int, occ: Set<int>, df: int, dr: int, k: int)
    requires
        on_board(s),
        rook_direction(df, dr),
        k >= 1,
        !has_ahead(s, df, dr, k),
        unoccupied(rook_segment(s, df, dr, k), occ),
    ensures
        rook_ray(s, occ, df, dr) == rook_segment(s, df, dr, k),
{
    lemma_rook_ray_open(s, occ, df, dr, k);
}

/// One more square of a bishop's diagonal: the segment grows by it, and the
/// ray ends there when the square is occupied.
pub proof fn lemma_bishop_step(s: int, occ: Set<int>, df: int, dr: int, k: int)
    requires
        on_board(s),
        bishop_direction(df, dr),
        k >= 1,
        has_ahead(s, df, dr, k),
        unoccupied(bishop_segment(s, df, dr, k), occ),
    ensures
        on_board(ahead(s, df, dr, k)),
        bishop_segment(s, df, dr, k + 1) == bishop_segment(s, df, dr, k).insert(
            ahead(s, df, dr, k),
        ),
        occ.contains(ahead(s, df, dr, k)) ==> bishop_ray(s, occ, df, dr) == bishop_segment(
            s,
            df,
            dr,
            k + 1,
        ),
        !occ.contains(ahead(s, df, dr, k)) ==> unoccupied(bishop_segment(s, df, dr, k + 1), occ),
{
    let b = ahead(s, df, dr, k);
    assert(rank_of(b) == shift(rank_of(s), dr, k) && file_of(b) == shift(file_of(s), df, k));
    assert(diagonal(s, b) && heading(s, b, df, dr) && steps(s, b) == k);
    assert forall|t: int|
        on_board(t) && diagonal(s, t) && heading(s, t, df, dr) && steps(s, t) == k implies t
        == b by {
        assert(rank_of(t) == rank_of(b) && file_of(t) == file_of(b));
    }
    assert(bishop_segment(s, df, dr, k + 1) =~= bishop_segment(s, df, dr, k).insert(b));
    if occ.contains(b) {
        lemma_bishop_ray_blocked(s, occ, df, dr, k, b);
    }
}

/// A bishop's diagonal that has run off the board without meeting an
/// occupied square: the ray is the whole segment.
pub proof fn lemma_bishop_end(s: int, occ: Set<int>, df: int, dr: int, k: int)
    requires
        on_board(s),
        bishop_direction(df, dr),
        k >= 1,
        !has_ahead(s, df, dr, k),
        unoccupied(bishop_segment(s, df, dr, k), occ),
    ensures
        bishop_ray(s, occ, df, dr) == bishop_segment(s, df, dr, k),
{
    lemma_bishop_ray_open(s, occ, df, dr, k);
}

/// A segment of fewer than one step is empty.
pub proof fn lemma_segment_start(s: int, df: int, dr: int, occ: Set<int>)
    ensures
        rook_segment(s, df, dr, 1) == Set::<int>::empty(),
        bishop_segment(s, df, dr, 1) == Set::<int>::empty(),
        unoccupied(rook_segment(s, df, dr, 1), occ),
        unoccupied(bishop_segment(s, df, dr, 1), occ),
{
    assert(rook_segment(s, df, dr, 1) =~= Set::<int>::empty());
    assert(bishop_segment(s, df, dr, 1) =~= Set::<int>::empty());
}

/// The part of a bishop's mask that lies in one direction, below `k` steps.
pub open spec fn bishop_mask_part(s: int, df: int, dr: int, k: int) -> Set<int> {
    Set::new(|t: int| bishop_mask(s).contains(t) && heading(s, t, df, dr) && steps(s, t) < k)
}

/// Whether a file or rank number lies off the rim: in `1..=6`.
pub open spec fn inner(a: int) -> bool {
    1 <= a <= 6
}

/// The square `k` steps along a diagonal is an inner square of the board.
pub open spec fn inner_ahead(s: int, df: int, dr: int, k: int) -> bool {
    inner(shift(rank_of(s), dr, k)) && inner(shift(file_of(s), df, k))
}

/// One more inner square of a diagonal joins the mask part.
pub proof fn lemma_bishop_mask_step(s: int, df: int, dr: int, k: int)
    requires
        on_board(s),
        bishop_direction(df, dr),
        k >= 1,
        inner_ahead(s, df, dr, k),
    ensures
        on_board(ahead(s, df, dr, k)),
        bishop_mask_part(s, df, dr, k + 1) == bishop_mask_part(s, df, dr, k).insert(
            ahead(s, df, dr, k),
        ),
{
    let b = ahead(s, df, dr, k);
    assert(rank_of(b) == shift(rank_of(s), dr, k) && file_of(b) == shift(file_of(s), df, k));
    assert(diagonal(s, b) && heading(s, b, df, dr) && steps(s, b) == k);
    assert forall|t: int|
        on_board(t) && diagonal(s, t) && heading(s, t, df, dr) && steps(s, t) == k implies t
        == b by {
        assert(rank_of(t) == rank_of(b) && file_of(t) == file_of(b));
    }
    assert(bishop_mask_part(s, df, dr, k + 1) =~= bishop_mask_part(s, df, dr, k).insert(b));
}

/// Past the first square that is not an inner one, a diagonal adds nothing
/// to the mask part.
pub proof fn lemma_bishop_mask_end(s: int, df: int, dr: int, k: int)
    requires
        on_board(s),
        bishop_direction(df, dr),
        k >= 1,
        !inner_ahead(s, df, dr, k),
    ensures
        bishop_mask_part(s, df, dr, 8) == bishop_mask_part(s, df, dr, k),
        k == 1 ==> bishop_mask_part(s, df, dr, 8) == Set::<int>::empty(),
{
    assert forall|t: int|
        bishop_mask(s).contains(t) && heading(s, t, df, dr) implies steps(s, t) < k by {
        let m = steps(s, t);
        assert(rank_of(t) == shift(rank_of(s), dr, m) && file_of(t) == shift(file_of(s), df, m));
    }
    assert(bishop_mask_part(s, df, dr, 8) =~= bishop_mask_part(s, df, dr, k));
    if k == 1 {
        assert(bishop_mask_part(s, df, dr, 1) =~= Set::<int>::empty());
    }
}

/// A bishop's mask is made of its parts in the four diagonal directions, and
/// is never empty.
pub proof fn lemma_bishop_mask_parts(s: int)
    requires
        on_board(s),
    ensures
        bishop_mask(s) == bishop_mask_part(s, 1, 1, 8).union(bishop_mask_part(s, 1, -1, 8)).union(
            bishop_mask_part(s, -1, 1, 8),
        ).union(bishop_mask_part(s, -1, -1, 8)),
        exists|t: int| bishop_mask(s).contains(t),
{
    assert(bishop_mask(s) =~= bishop_mask_part(s, 1, 1, 8).union(
        bishop_mask_part(s, 1, -1, 8),
    ).union(bishop_mask_part(s, -1, 1, 8)).union(bishop_mask_part(s, -1, -1, 8)));
    let w = (if rank_of(s) <= 5 {
        rank_of(s) + 1
    } else {
        rank_of(s) - 1
    }) * 8 + (if file_of(s) <= 5 {
        file_of(s) + 1
    } else {
        file_of(s) - 1
    });
    assert(bishop_mask(s).contains(w));
}

/// The squares of a rook's mask on its own rank with a file below `y`.
pub open spec fn rook_mask_rank_part(s: int, y: int) -> Set<int> {
    Set::new(|t: int| rook_mask(s).contains(t) && rank_of(t) == rank_of(s) && file_of(t) < y)
}

/// The squares of a rook's mask on its own file with a rank below `x`.
pub open spec fn rook_mask_file_part(s: int, x: int) -> Set<int> {
    Set::new(|t: int| rook_mask(s).contains(t) && file_of(t) == file_of(s) && rank_of(t) < x)
}

/// How the parts of a rook's mask grow square by square, and that they make
/// up the mask, which is never empty.
pub proof fn lemma_rook_mask_parts(s: int, n: int)
    requires
        on_board(s),
        1 <= n <= 6,
    ensures
        rook_mask_rank_part(s, 1) == Set::<int>::empty(),
        rook_mask_file_part(s, 1) == Set::<int>::empty(),
        rook_mask_rank_part(s, n + 1) == (if n == file_of(s) {
            rook_mask_rank_part(s, n)
        } else {
            rook_mask_rank_part(s, n).insert(8 * rank_of(s) + n)
        }),
        rook_mask_file_part(s, n + 1) == (if n == rank_of(s) {
            rook_mask_file_part(s, n)
        } else {
            rook_mask_file_part(s, n).insert(8 * n + file_of(s))
        }),
        rook_mask(s) == rook_mask_rank_part(s, 7).union(rook_mask_file_part(s, 7)),
        exists|t: int| rook_mask(s).contains(t),
{
    assert(rook_mask_rank_part(s, 1) =~= Set::<int>::empty());
    assert(rook_mask_file_part(s, 1) =~= Set::<int>::empty());
    let a = 8 * rank_of(s) + n;
    assert(rank_of(a) == rank_of(s) && file_of(a) == n);
    assert forall|t: int| on_board(t) && rank_of(t) == rank_of(s) && file_of(t) == n implies t
        == a by {}
    assert(rook_mask_rank_part(s, n + 1) =~= (if n == file_of(s) {
        rook_mask_rank_part(s, n)
    } else {
        rook_mask_rank_part(s, n).insert(a)
    }));
    let b = 8 * n + file_of(s);
    assert(rank_of(b) == n && file_of(b) == file_of(s));
    assert forall|t: int| on_board(t) && file_of(t) == file_of(s) && rank_of(t) == n implies t
        == b by {}
    assert(rook_mask_file_part(s, n + 1) =~= (if n == rank_of(s) {
        rook_mask_file_part(s, n)
    } else {
        rook_mask_file_part(s, n).insert(b)
    }));
    assert(rook_mask(s) =~= rook_mask_rank_part(s, 7).union(rook_mask_file_part(s, 7)));
    let w = rank_of(s) * 8 + (if file_of(s) == 1 {
        2int
    } else {
        1int
    });
    assert(rook_mask(s).contains(w));
}

/// The squares a king reaches, each by its offset and the rims it must keep off.
pub proof fn lemma_king_reach(s: int)
    requires
        on_board(s),
    ensures
        forall|t: int|
            king_reach(s).contains(t) == ({
                let f = file_of(s);
                let r = rank_of(s);
                (f != 0 && (t == s - 1 || (r != 0 && t == s - 9) || (r != 7 && t == s + 7))) || (f
                    != 7 && (t == s + 1 || (r != 0 && t == s - 7) || (r != 7 && t == s + 9))) || (r
                    != 0 && t == s - 8) || (r != 7 && t == s + 8)
            }),
{
    assert forall|t: int|
        king_reach(s).contains(t) == ({
            let f = file_of(s);
            let r = rank_of(s);
            (f != 0 && (t == s - 1 || (r != 0 && t == s - 9) || (r != 7 && t == s + 7))) || (f != 7
                && (t == s + 1 || (r != 0 && t == s - 7) || (r != 7 && t == s + 9))) || (r != 0
                && t == s - 8) || (r != 7 && t == s + 8)
        }) by {
        lemma_offset(s, t);
    }
}

/// The squares a knight reaches, each by its offset and the rims it must keep off.
pub proof fn lemma_knight_reach(s: int)
    requires
        on_board(s),
    ensures
        forall|t: int|
            knight_reach(s).contains(t) == ({
                let f = file_of(s);
                let r = rank_of(s);
                (f != 0 && r <= 5 && t == s + 15) || (f != 7 && r <= 5 && t == s + 17) || (f >= 2
                    && r != 7 && t == s + 6) || (f <= 5 && r != 7 && t == s + 10) || (f != 7 && r
                    >= 2 && t == s - 15) || (f != 0 && r >= 2 && t == s - 17) || (f <= 5 && r != 0
                    && t == s - 6) || (f >= 2 && r != 0 && t == s - 10)
            }),
{
    assert forall|t: int|
        knight_reach(s).contains(t) == ({
            let f = file_of(s);
            let r = rank_of(s);
            (f != 0 && r <= 5 && t == s + 15) || (f != 7 && r <= 5 && t == s + 17) || (f >= 2 && r
                != 7 && t == s + 6) || (f <= 5 && r != 7 && t == s + 10) || (f != 7 && r >= 2 && t
                == s - 15) || (f != 0 && r >= 2 && t == s - 17) || (f <= 5 && r != 0 && t == s - 6)
                || (f >= 2 && r != 0 && t == s - 10)
        }) by {
        lemma_offset(s, t);
    }
}

/// The squares a pawn attacks, each by its offset and the rims it must keep off.
pub proof fn lemma_pawn_reach(color: Color, s: int)
    requires
        on_board(s),
    ensures
        forall|t: int|
            pawn_reach(color, s).contains(t) == ({
                let f = file_of(s);
                match color {
                    Color::White => (f != 0 && s <= 56 && t == s + 7) || (f != 7 && s <= 54 && t
                        == s + 9),
                    Color::Black => (f != 0 && s >= 9 && t == s - 9) || (f != 7 && s >= 7 && t == s
                        - 7),
                }
            }),
{
    assert forall|t: int|
        pawn_reach(color, s).contains(t) == ({
            let f = file_of(s);
            match color {
                Color::White => (f != 0 && s <= 56 && t == s + 7) || (f != 7 && s <= 54 && t == s
                    + 9),
                Color::Black => (f != 0 && s >= 9 && t == s - 9) || (f != 7 && s >= 7 && t == s
                    - 7),
            }
        }) by {
        lemma_offset(s, t);
    }
}

/// The difference of two square numbers in terms of their files and ranks.
pub proof fn lemma_offset(s: int, t: int)
    ensures
        t - s == 8 * (rank_of(t) - rank_of(s)) + (file_of(t) - file_of(s)),
        0 <= file_of(s) < 8,
        0 <= file_of(t) < 8,
        on_board(s) <==> 0 <= rank_of(s) < 8,
        on_board(t) <==> 0 <= rank_of(t) < 8,
{
}

/// Attack between two squares runs both ways: for knights, kings, rooks and
/// bishops alike, and for pawns with the colours exchanged.
pub proof fn lemma_reach_symmetric(s: int, t: int, occ: Set<int>)
    requires
        on_board(s),
        on_board(t),
    ensures
        knight_reach(s).contains(t) == knight_reach(t).contains(s),
        king_reach(s).contains(t) == king_reach(t).contains(s),
        pawn_reach(Color::White, s).contains(t) == pawn_reach(Color::Black, t).contains(s),
        pawn_reach(Color::Black, s).contains(t) == pawn_reach(Color::White, t).contains(s),
        rook_reach(s, occ).contains(t) == rook_reach(t, occ).contains(s),
        bishop_reach(s, occ).contains(t) == bishop_reach(t, occ).contains(s),
        queen_reach(s, occ).contains(t) == queen_reach(t, occ).contains(s),
{
    if straight(s, t) {
        assert forall|u: int| between(s, u, t) == between(t, u, s) by {}
        if clear_straight(s, t, occ) {
            assert forall|u: int| between(t, u, s) implies !#[trigger] occ.contains(u) by {
                assert(between(s, u, t));
            }
        }
        if clear_straight(t, s, occ) {
            assert forall|u: int| between(s, u, t) implies !#[trigger] occ.contains(u) by {
                assert(between(t, u, s));
            }
        }
    }
    if diagonal(s, t) {
        assert forall|u: int|
            (between(s, u, t) && diagonal(s, u)) == (between(t, u, s) && diagonal(t, u)) by {}
        if clear_diagonal(s, t, occ) {
            assert forall|u: int| between(t, u, s) && diagonal(t, u) implies !#[trigger] occ.contains(
                u,
            ) by {
                assert(between(s, u, t) && diagonal(s, u));
            }
        }
        if clear_diagonal(t, s, occ) {
            assert forall|u: int| between(s, u, t) && diagonal(s, u) implies !#[trigger] occ.contains(
                u,
            ) by {
                assert(between(t, u, s) && diagonal(t, u));
            }
        }
    }
}

} // verus!
