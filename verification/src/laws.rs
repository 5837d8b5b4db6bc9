use vstd::prelude::*;

use crate::puzzle::{
    idx, lemma_slid_down_fix, lemma_slid_left_fix, lemma_slid_right_fix, lemma_slid_up_fix, pos_ok,
    slid_down, slid_left, slid_right, slid_up, solved_grid, solved_value, Puzzle,
};

verus! {

/// The cached empty-cell position always points at the one and only cell
/// holding 0: on a well-formed board the cell there is 0, and every other
/// cell is not.
pub proof fn lemma_empty_cell_unique(p: Puzzle)
    requires
        p.wf(),
    ensures
        p.at(p.erow(), p.ecol()) == 0,
        forall|r: int, c: int|
            pos_ok(r, c) && !(r == p.erow() && c == p.ecol()) ==> p.at(r, c) != 0,
{
    assert forall|r: int, c: int|
        pos_ok(r, c) && !(r == p.erow() && c == p.ecol()) implies p.at(r, c) != 0 by {
        let a = idx(r, c);
        let b = idx(p.erow(), p.ecol());
        assert(a != b);
        if a < b {
            assert(p.grid()[a] != p.grid()[b]);
        } else {
            assert(p.grid()[b] != p.grid()[a]);
        }
    }
}

/// A board is solved exactly when its grid equals the solved grid.
pub proof fn lemma_is_solved_iff_solved_grid(p: Puzzle)
    requires
        p.grid().len() == 16,
    ensures
        p.is_solved() <==> p.grid() == solved_grid(),
{
    if p.is_solved() {
        assert(p.grid() =~= solved_grid());
    }
}

/// Swapping any two distinct cells of the solved grid yields a board that is
/// no longer solved.
pub proof fn lemma_transposed_solved_not_solved(p: Puzzle, i: int, j: int)
    requires
        0 <= i < 16,
        0 <= j < 16,
        i != j,
        p.grid() == solved_grid().update(i, solved_value(j)).update(j, solved_value(i)),
    ensures
        !p.is_solved(),
{
    assert(solved_value(i) != solved_value(j));
    assert(p.grid()[i] == solved_value(j));
}

/// A leftward move with the empty cell already in the last column changes
/// neither the grid nor the empty position.
pub proof fn lemma_boundary_noop_left(p0: Puzzle, p1: Puzzle)
    requires
        p0.wf(),
        p0.ecol() == 3,
        slid_left(p0, p1),
    ensures
        p1.grid() == p0.grid(),
        p1.erow() == p0.erow(),
        p1.ecol() == p0.ecol(),
{
    lemma_slid_left_fix(p0.grid(), p0.erow());
}

/// A rightward move with the empty cell already in column 0 changes nothing.
pub proof fn lemma_boundary_noop_right(p0: Puzzle, p1: Puzzle)
    requires
        p0.wf(),
        p0.ecol() == 0,
        slid_right(p0, p1),
    ensures
        p1.grid() == p0.grid(),
        p1.erow() == p0.erow(),
        p1.ecol() == p0.ecol(),
{
    lemma_slid_right_fix(p0.grid(), p0.erow());
}

/// An upward move with the empty cell already in the last row changes nothing.
pub proof fn lemma_boundary_noop_up(p0: Puzzle, p1: Puzzle)
    requires
        p0.wf(),
        p0.erow() == 3,
        slid_up(p0, p1),
    ensures
        p1.grid() == p0.grid(),
        p1.erow() == p0.erow(),
        p1.ecol() == p0.ecol(),
{
    lemma_slid_up_fix(p0.grid(), p0.ecol());
}

/// A downward move with the empty cell already in row 0 changes nothing.
pub proof fn lemma_boundary_noop_down(p0: Puzzle, p1: Puzzle)
    requires
        p0.wf(),
        p0.erow() == 0,
        slid_down(p0, p1),
    ensures
        p1.grid() == p0.grid(),
        p1.erow() == p0.erow(),
        p1.ecol() == p0.ecol(),
{
    lemma_slid_down_fix(p0.grid(), p0.ecol());
}

/// Repeating a leftward move changes nothing further: after one leftward move
/// the empty cell sits in the last column, so every later leftward move is a
/// boundary no-op.  This is the inductive step showing that any number of
/// repetitions equals a single application.
pub proof fn lemma_move_left_idempotent(p0: Puzzle, p1: Puzzle, p2: Puzzle)
    requires
        p0.wf(),
        p1.wf(),
        slid_left(p0, p1),
        slid_left(p1, p2),
    ensures
        p2.grid() == p1.grid(),
        p2.erow() == p1.erow(),
        p2.ecol() == p1.ecol(),
{
    lemma_slid_left_fix(p1.grid(), p1.erow());
}

/// Repeating a rightward move changes nothing further.
pub proof fn lemma_move_right_idempotent(p0: Puzzle, p1: Puzzle, p2: Puzzle)
    requires
        p0.wf(),
        p1.wf(),
        slid_right(p0, p1),
        slid_right(p1, p2),
    ensures
        p2.grid() == p1.grid(),
        p2.erow() == p1.erow(),
        p2.ecol() == p1.ecol(),
{
    lemma_slid_right_fix(p1.grid(), p1.erow());
}

/// Repeating an upward move changes nothing further.
pub proof fn lemma_move_up_idempotent(p0: Puzzle, p1: Puzzle, p2: Puzzle)
    requires
        p0.wf(),
        p1.wf(),
        slid_up(p0, p1),
        slid_up(p1, p2),
    ensures
        p2.grid() == p1.grid(),
        p2.erow() == p1.erow(),
        p2.ecol() == p1.ecol(),
{
    lemma_slid_up_fix(p1.grid(), p1.ecol());
}

/// Repeating a downward move changes nothing further.
pub proof fn lemma_move_down_idempotent(p0: Puzzle, p1: Puzzle, p2: Puzzle)
    requires
        p0.wf(),
        p1.wf(),
        slid_down(p0, p1),
        slid_down(p1, p2),
    ensures
        p2.grid() == p1.grid(),
        p2.erow() == p1.erow(),
        p2.ecol() == p1.ecol(),
{
    lemma_slid_down_fix(p1.grid(), p1.ecol());
}

} // verus!
