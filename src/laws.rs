use vstd::prelude::*;
use crate::cell::{adjacent, CellVisibility, Coordinate, GameState};
use crate::game::GameView;

verus! {

/// Once a game is won or lost, neither a reveal nor a flag toggle changes it.
pub proof fn lemma_finished_game_is_frozen(g: GameView, c: Coordinate, r: GameView, t: GameView)
    requires
        g.state != GameState::Playing,
        g.reveal_step(c, r),
        g.toggle_step(c, t),
    ensures
        r == g,
        t == g,
{
}

/// Revealing a hidden mine loses the game, and from then on no reveal and
/// no flag toggle changes the board.
pub proof fn lemma_revealing_mine_loses(g: GameView, c: Coordinate, next: GameView)
    requires
        g.wf(),
        g.state == GameState::Playing,
        g.in_bounds(c),
        g.cell(c).is_hidden(),
        g.cell(c).is_mine(),
        g.reveal_step(c, next),
    ensures
        next.state == GameState::Lost,
        forall|d: Coordinate, r: GameView| #[trigger] next.reveal_step(d, r) ==> r == next,
        forall|d: Coordinate, t: GameView| #[trigger] next.toggle_step(d, t) ==> t == next,
{
}

/// Flagging a hidden cell and then toggling it again gives back the board
/// as it was, unless the first toggle ended the game.
pub proof fn lemma_toggle_twice_restores(g: GameView, c: Coordinate, mid: GameView, last: GameView)
    requires
        g.wf(),
        g.state == GameState::Playing,
        g.in_bounds(c),
        g.cell(c).is_hidden(),
        g.toggle_step(c, mid),
        mid.state == GameState::Playing,
        mid.toggle_step(c, last),
    ensures
        mid.cell(c).status == CellVisibility::Flagged,
        last == g,
{
    let y = c.y as int;
    let x = c.x as int;
    assert(mid.cells[y] == g.cells[y].update(x, g.flipped(c)));
    assert(mid.cell(c) == g.flipped(c));
    assert(mid.flipped(c) == g.cell(c));
    assert(mid.cells[y].update(x, mid.flipped(c)) =~= g.cells[y]);
    assert(last.cells =~= g.cells);
    assert(last.cell(c).is_hidden());
    assert(!last.no_hidden());
}

/// Toggling the flag on a revealed cell changes nothing.
pub proof fn lemma_toggle_revealed_is_noop(g: GameView, c: Coordinate, next: GameView)
    requires
        g.cell(c).status == CellVisibility::Revealed,
        g.toggle_step(c, next),
    ensures
        next == g,
{
}

/// Every cell is settled: non-mine cells are revealed and mine cells are
/// not hidden.
pub open spec fn all_settled(g: GameView) -> bool {
    forall|d: Coordinate|
        #![trigger g.cell(d)]
        g.in_bounds(d) ==> (!g.cell(d).is_mine() ==> g.cell(d).status == CellVisibility::Revealed) && (
        g.cell(d).is_mine() ==> !g.cell(d).is_hidden())
}

/// A reveal of a safe cell that leaves every cell settled wins the game.
pub proof fn lemma_reveal_settling_board_wins(g: GameView, c: Coordinate, next: GameView)
    requires
        g.wf(),
        g.state == GameState::Playing,
        g.in_bounds(c),
        g.cell(c).is_hidden(),
        !g.cell(c).is_mine(),
        g.reveal_step(c, next),
        all_settled(next),
    ensures
        next.state == GameState::Won,
{
    assert(next.no_hidden());
}

/// A flag toggle that leaves every cell settled wins the game.
pub proof fn lemma_flag_settling_board_wins(g: GameView, c: Coordinate, next: GameView)
    requires
        g.wf(),
        g.state == GameState::Playing,
        g.in_bounds(c),
        g.cell(c).status != CellVisibility::Revealed,
        g.toggle_step(c, next),
        all_settled(next),
    ensures
        next.state == GameState::Won,
{
    let y = c.y as int;
    let x = c.x as int;
    assert(next.cells[y] == g.cells[y].update(x, g.flipped(c)));
    assert(next.cell(c) == g.flipped(c));
    assert(next.no_hidden());
}

/// A reveal spreads over the whole connected blank region it starts in: a
/// hidden neighbour of any blank cell the reveal reaches is revealed too.
pub proof fn lemma_reveal_fills_blank_region(
    g: GameView,
    c: Coordinate,
    next: GameView,
    d: Coordinate,
    e: Coordinate,
)
    requires
        g.wf(),
        g.state == GameState::Playing,
        g.in_bounds(c),
        g.cell(c).is_hidden(),
        g.reveal_step(c, next),
        g.cascades(c, d),
        g.is_blank(d),
        adjacent(d, e),
        g.in_bounds(e),
        g.cell(e).is_hidden(),
    ensures
        next.cell(e).status == CellVisibility::Revealed,
{
    g.lemma_extend_cascade(c, d, e);
}

/// A reveal changes no cell that it does not reach, and reveals exactly the
/// cells it reaches, whose contents stay as they were.
pub proof fn lemma_reveal_touches_only_region(g: GameView, c: Coordinate, next: GameView, d: Coordinate)
    requires
        g.wf(),
        g.state == GameState::Playing,
        g.in_bounds(c),
        g.cell(c).is_hidden(),
        g.reveal_step(c, next),
        g.in_bounds(d),
    ensures
        !g.cascades(c, d) ==> next.cell(d) == g.cell(d),
        g.cascades(c, d) ==> next.cell(d).status == CellVisibility::Revealed,
        next.cell(d).content == g.cell(d).content,
{
}

} // verus!
