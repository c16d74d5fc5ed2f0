//! Laws of the stepping rule: no spontaneous generation on a dead board,
//! death of isolated cells, stability of the 2x2 block still-life, and the
//! period-2 oscillation of the blinker.

use vstd::prelude::*;

use crate::game::Game;

verus! {

/// Whether `(x, y)` is one of the four cells of the 2x2 block whose
/// lower-left corner is `(a, b)`.
pub open spec fn is_block_cell(a: int, b: int, x: int, y: int) -> bool {
    (x == a || x == a + 1) && (y == b || y == b + 1)
}

/// Whether `(x, y)` is one of the three cells of the horizontal blinker
/// whose leftmost cell is `(a, b)`.
pub open spec fn is_hblinker_cell(a: int, b: int, x: int, y: int) -> bool {
    y == b && (x == a || x == a + 1 || x == a + 2)
}

/// Whether `(x, y)` is one of the three cells of the vertical blinker
/// centered at `(a + 1, b)`: the form the horizontal one steps into.
pub open spec fn is_vblinker_cell(a: int, b: int, x: int, y: int) -> bool {
    x == a + 1 && (y == b - 1 || y == b || y == b + 1)
}

/// No spontaneous generation: stepping an all-dead board of any size
/// leaves every cell dead.
pub proof fn lemma_dead_board_stays_dead(g: Game)
    requires
        g.well_formed(),
        forall|x: int, y: int| g.in_bounds(x, y) ==> !g.cell(x, y),
    ensures
        forall|x: int, y: int| g.in_bounds(x, y) ==> !g.next_cell(x, y),
{
    assert forall|x: int, y: int| g.in_bounds(x, y) implies !g.next_cell(x, y) by {
        assert(g.neighbor_count(x, y) == 0);
    }
}

/// A live cell with no live neighbors dies after one step.
pub proof fn lemma_isolated_cell_dies(g: Game, x: int, y: int)
    requires
        g.well_formed(),
        g.in_bounds(x, y),
        g.cell(x, y),
        g.neighbor_count(x, y) == 0,
    ensures
        !g.next_cell(x, y),
{
}

/// A 2x2 block away from the board edges, alone on the board, is a
/// still-life: one step changes no cell.
#[verifier::rlimit(60)]
pub proof fn lemma_block_still_life(g: Game, a: int, b: int)
    requires
        g.well_formed(),
        1 <= a && a + 2 < g.width(),
        1 <= b && b + 2 < g.height(),
        forall|x: int, y: int|
            g.in_bounds(x, y) ==> (g.cell(x, y) <==> is_block_cell(a, b, x, y)),
    ensures
        forall|x: int, y: int| g.in_bounds(x, y) ==> g.next_cell(x, y) == g.cell(x, y),
{
    assert forall|x: int, y: int| g.in_bounds(x, y) implies g.next_cell(x, y) == g.cell(x, y) by {
        if a - 1 <= x <= a + 2 && b - 1 <= y <= b + 2 {
            assert(g.next_cell(x, y) == g.cell(x, y));
        } else {
            assert(g.neighbor_count(x, y) <= 2);
        }
    }
}

/// A horizontal blinker away from the board edges, alone on the board,
/// steps into the corresponding vertical blinker.
#[verifier::rlimit(60)]
pub proof fn lemma_blinker_rotates(g: Game, a: int, b: int)
    requires
        g.well_formed(),
        1 <= a && a + 2 < g.width(),
        1 <= b && b + 1 < g.height(),
        forall|x: int, y: int|
            g.in_bounds(x, y) ==> (g.cell(x, y) <==> is_hblinker_cell(a, b, x, y)),
    ensures
        forall|x: int, y: int|
            g.in_bounds(x, y) ==> (g.next_cell(x, y) <==> is_vblinker_cell(a, b, x, y)),
{
    assert forall|x: int, y: int| g.in_bounds(x, y) implies (g.next_cell(x, y)
        <==> is_vblinker_cell(a, b, x, y)) by {
        if a - 1 <= x <= a + 3 && b - 1 <= y <= b + 1 {
            assert(g.next_cell(x, y) <==> is_vblinker_cell(a, b, x, y));
        } else {
            assert(g.neighbor_count(x, y) <= 2);
            assert(!g.cell(x, y));
        }
    }
}

/// A vertical blinker away from the board edges, alone on the board,
/// steps back into the horizontal blinker: together with
/// [`lemma_blinker_rotates`], the blinker has period two.
#[verifier::rlimit(60)]
pub proof fn lemma_blinker_returns(g: Game, a: int, b: int)
    requires
        g.well_formed(),
        1 <= a && a + 2 < g.width(),
        1 <= b && b + 1 < g.height(),
        forall|x: int, y: int|
            g.in_bounds(x, y) ==> (g.cell(x, y) <==> is_vblinker_cell(a, b, x, y)),
    ensures
        forall|x: int, y: int|
            g.in_bounds(x, y) ==> (g.next_cell(x, y) <==> is_hblinker_cell(a, b, x, y)),
{
    assert forall|x: int, y: int| g.in_bounds(x, y) implies (g.next_cell(x, y)
        <==> is_hblinker_cell(a, b, x, y)) by {
        if a - 1 <= x <= a + 3 && b - 2 <= y <= b + 2 {
            assert(g.next_cell(x, y) <==> is_hblinker_cell(a, b, x, y));
        } else {
            assert(g.neighbor_count(x, y) <= 2);
            assert(!g.cell(x, y));
        }
    }
}

/// The blinker has period two: when `g1` holds exactly a horizontal
/// blinker away from the edges and `g2` holds `g1`'s next generation on a
/// board of the same size, then `g2`'s next generation is `g1`'s pattern
/// again.
pub proof fn lemma_blinker_period_two(g1: Game, g2: Game, a: int, b: int)
    requires
        g1.well_formed(),
        g2.well_formed(),
        g2.width() == g1.width(),
        g2.height() == g1.height(),
        1 <= a && a + 2 < g1.width(),
        1 <= b && b + 1 < g1.height(),
        forall|x: int, y: int|
            g1.in_bounds(x, y) ==> (g1.cell(x, y) <==> is_hblinker_cell(a, b, x, y)),
        forall|x: int, y: int| g2.in_bounds(x, y) ==> g2.cell(x, y) == g1.next_cell(x, y),
    ensures
        forall|x: int, y: int|
            g2.in_bounds(x, y) ==> (g2.next_cell(x, y) <==> g1.cell(x, y)),
{
    lemma_blinker_rotates(g1, a, b);
    lemma_blinker_returns(g2, a, b);
}

} // verus!
