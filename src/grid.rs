use vstd::prelude::*;
use crate::cell::{CellContent, CellStatus, CellVisibility};

verus! {

/// The grid as rows of cells, `g[y][x]`.
pub open spec fn grid_view(field: Seq<Vec<CellStatus>>) -> Seq<Seq<CellStatus>> {
    field.map_values(|r: Vec<CellStatus>| r@)
}

/// `height` rows of `width` cells each.
pub open spec fn has_shape(g: Seq<Seq<CellStatus>>, width: int, height: int) -> bool {
    &&& g.len() == height
    &&& forall|y: int| 0 <= y < height ==> #[trigger] g[y].len() == width
}

/// Number of cells of a row that satisfy `p`.
pub open spec fn count_row(r: Seq<CellStatus>, p: spec_fn(CellStatus) -> bool) -> nat
    decreases r.len(),
{
    if r.len() == 0 {
        0
    } else {
        count_row(r.drop_last(), p) + if p(r.last()) { 1nat } else { 0nat }
    }
}

/// Number of cells of a grid that satisfy `p`.
pub open spec fn count_grid(g: Seq<Seq<CellStatus>>, p: spec_fn(CellStatus) -> bool) -> nat
    decreases g.len(),
{
    if g.len() == 0 {
        0
    } else {
        count_grid(g.drop_last(), p) + count_row(g.last(), p)
    }
}

pub open spec fn indicator(b: bool) -> int {
    if b { 1 } else { 0 }
}

pub open spec fn mine_pred() -> spec_fn(CellStatus) -> bool {
    |c: CellStatus| c.is_mine()
}

pub open spec fn hidden_pred() -> spec_fn(CellStatus) -> bool {
    |c: CellStatus| c.is_hidden()
}

/// One if position (x, y) lies on the grid and holds a mine, else zero.
pub open spec fn mine_at(g: Seq<Seq<CellStatus>>, x: int, y: int) -> nat {
    if 0 <= y < g.len() && 0 <= x < g[y].len() && g[y][x].is_mine() {
        1
    } else {
        0
    }
}

/// Number of mines among the up to eight grid neighbours of (x, y).
pub open spec fn adjacent_mines(g: Seq<Seq<CellStatus>>, x: int, y: int) -> nat {
    mine_at(g, x - 1, y - 1) + mine_at(g, x, y - 1) + mine_at(g, x + 1, y - 1)
        + mine_at(g, x - 1, y) + mine_at(g, x + 1, y)
        + mine_at(g, x - 1, y + 1) + mine_at(g, x, y + 1) + mine_at(g, x + 1, y + 1)
}

/// Every cell's content agrees with the mines around it: a non-mine cell
/// holds the number of its neighbouring mines.
pub open spec fn counts_consistent(g: Seq<Seq<CellStatus>>) -> bool {
    forall|y: int, x: int|
        0 <= y < g.len() && 0 <= x < g[y].len() && !(#[trigger] g[y][x]).is_mine()
            ==> g[y][x].content == CellContent::Empty(adjacent_mines(g, x, y) as usize)
}

/// Two grids of one shape with mines at the same places.
pub open spec fn same_mines(a: Seq<Seq<CellStatus>>, b: Seq<Seq<CellStatus>>) -> bool {
    &&& a.len() == b.len()
    &&& forall|y: int| 0 <= y < a.len() ==> #[trigger] a[y].len() == b[y].len()
    &&& forall|y: int, x: int|
        0 <= y < a.len() && 0 <= x < a[y].len() ==> (#[trigger] a[y][x]).is_mine() == b[y][x].is_mine()
}

pub proof fn lemma_same_mines_adjacent(a: Seq<Seq<CellStatus>>, b: Seq<Seq<CellStatus>>, x: int, y: int)
    requires
        same_mines(a, b),
    ensures
        adjacent_mines(a, x, y) == adjacent_mines(b, x, y),
{
    assert forall|i: int, j: int| mine_at(a, i, j) == mine_at(b, i, j) by {
        if 0 <= j < a.len() && 0 <= i < a[j].len() {
            assert(a[j][i].is_mine() == b[j][i].is_mine());
        }
    }
    assert(mine_at(a, x - 1, y - 1) == mine_at(b, x - 1, y - 1));
    assert(mine_at(a, x, y - 1) == mine_at(b, x, y - 1));
    assert(mine_at(a, x + 1, y - 1) == mine_at(b, x + 1, y - 1));
    assert(mine_at(a, x - 1, y) == mine_at(b, x - 1, y));
    assert(mine_at(a, x + 1, y) == mine_at(b, x + 1, y));
    assert(mine_at(a, x - 1, y + 1) == mine_at(b, x - 1, y + 1));
    assert(mine_at(a, x, y + 1) == mine_at(b, x, y + 1));
    assert(mine_at(a, x + 1, y + 1) == mine_at(b, x + 1, y + 1));
}

pub proof fn lemma_count_row_update(r: Seq<CellStatus>, i: int, c: CellStatus, p: spec_fn(CellStatus) -> bool)
    requires
        0 <= i < r.len(),
    ensures
        count_row(r.update(i, c), p) == count_row(r, p) - indicator(p(r[i])) + indicator(p(c)),
    decreases r.len(),
{
    let u = r.update(i, c);
    if i == r.len() - 1 {
        assert(u.drop_last() =~= r.drop_last());
    } else {
        assert(u.drop_last() =~= r.drop_last().update(i, c));
        lemma_count_row_update(r.drop_last(), i, c, p);
    }
}

pub proof fn lemma_count_grid_update(
    g: Seq<Seq<CellStatus>>,
    y: int,
    x: int,
    c: CellStatus,
    p: spec_fn(CellStatus) -> bool,
)
    requires
        0 <= y < g.len(),
        0 <= x < g[y].len(),
    ensures
        count_grid(g.update(y, g[y].update(x, c)), p) == count_grid(g, p) - indicator(p(g[y][x]))
            + indicator(p(c)),
    decreases g.len(),
{
    let u = g.update(y, g[y].update(x, c));
    lemma_count_row_update(g[y], x, c, p);
    if y == g.len() - 1 {
        assert(u.drop_last() =~= g.drop_last());
    } else {
        assert(u.drop_last() =~= g.drop_last().update(y, g[y].update(x, c)));
        lemma_count_grid_update(g.drop_last(), y, x, c, p);
    }
}

pub proof fn lemma_count_row_none(r: Seq<CellStatus>, p: spec_fn(CellStatus) -> bool)
    requires
        forall|i: int| 0 <= i < r.len() ==> !p(#[trigger] r[i]),
    ensures
        count_row(r, p) == 0,
    decreases r.len(),
{
    if r.len() > 0 {
        lemma_count_row_none(r.drop_last(), p);
    }
}

pub proof fn lemma_count_grid_none(g: Seq<Seq<CellStatus>>, p: spec_fn(CellStatus) -> bool)
    requires
        forall|y: int, x: int| 0 <= y < g.len() && 0 <= x < g[y].len() ==> !p(#[trigger] g[y][x]),
    ensures
        count_grid(g, p) == 0,
    decreases g.len(),
{
    if g.len() > 0 {
        let l = g.last();
        assert forall|i: int| 0 <= i < l.len() implies !p(#[trigger] l[i]) by {
            assert(!p(g[g.len() - 1][i]));
        }
        lemma_count_row_none(l, p);
        lemma_count_grid_none(g.drop_last(), p);
    }
}

pub proof fn lemma_same_contents_consistent(a: Seq<Seq<CellStatus>>, b: Seq<Seq<CellStatus>>)
    requires
        counts_consistent(a),
        a.len() == b.len(),
        forall|y: int| 0 <= y < a.len() ==> #[trigger] a[y].len() == b[y].len(),
        forall|y: int, x: int|
            0 <= y < a.len() && 0 <= x < a[y].len() ==> (#[trigger] a[y][x]).content == b[y][x].content,
    ensures
        counts_consistent(b),
{
    assert(same_mines(a, b));
    assert forall|y: int, x: int|
        0 <= y < b.len() && 0 <= x < b[y].len() && !(#[trigger] b[y][x]).is_mine() implies b[y][x].content
        == CellContent::Empty(adjacent_mines(b, x, y) as usize) by {
        assert(a[y][x].content == b[y][x].content);
        lemma_same_mines_adjacent(a, b, x, y);
    }
}

/// Overwrites the cell at column `x`, row `y`.
pub fn set_cell(field: &mut Vec<Vec<CellStatus>>, x: usize, y: usize, c: CellStatus)
    requires
        y < old(field)@.len(),
        x < old(field)@[y as int]@.len(),
    ensures
        grid_view(final(field)@) == grid_view(old(field)@).update(
            y as int,
            grid_view(old(field)@)[y as int].update(x as int, c),
        ),
{
    field[y][x] = c;
    assert(grid_view(field@) =~= grid_view(old(field)@).update(
        y as int,
        grid_view(old(field)@)[y as int].update(x as int, c),
    ));
}

/// One if (x, y) lies on the grid and holds a mine, else zero.
fn mine_at_exec(field: &Vec<Vec<CellStatus>>, x: usize, y: usize) -> (r: usize)
    ensures
        r == mine_at(grid_view(field@), x as int, y as int),
{
    if y < field.len() && x < field[y].len() {
        match field[y][x].content {
            CellContent::Mine => 1,
            CellContent::Empty(_) => 0,
        }
    } else {
        0
    }
}

/// Counts the mines among the up to eight neighbours of (x, y).
pub fn count_adjacent_mines(field: &Vec<Vec<CellStatus>>, x: usize, y: usize) -> (r: usize)
    requires
        x < usize::MAX,
        y < usize::MAX,
    ensures
        r == adjacent_mines(grid_view(field@), x as int, y as int),
{
    let mut n: usize = 0;
    if y > 0 {
        if x > 0 {
            n = n + mine_at_exec(field, x - 1, y - 1);
        }
        n = n + mine_at_exec(field, x, y - 1);
        n = n + mine_at_exec(field, x + 1, y - 1);
    }
    if x > 0 {
        n = n + mine_at_exec(field, x - 1, y);
    }
    n = n + mine_at_exec(field, x + 1, y);
    if x > 0 {
        n = n + mine_at_exec(field, x - 1, y + 1);
    }
    n = n + mine_at_exec(field, x, y + 1);
    n = n + mine_at_exec(field, x + 1, y + 1);
    n
}

} // verus!
