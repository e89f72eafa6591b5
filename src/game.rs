use vstd::prelude::*;
use crate::cell::{adjacent, CellContent, CellStatus, CellVisibility, Coordinate, GameState};
use crate::grid::{
    adjacent_mines, count_adjacent_mines, count_grid, counts_consistent, grid_view, has_shape,
    hidden_pred, lemma_count_grid_none, lemma_count_grid_update, lemma_same_contents_consistent,
    lemma_same_mines_adjacent, mine_pred, same_mines, set_cell,
};
use crate::placement::{
    all_coords, all_in_bounds, build_coords, lemma_all_coords, lemma_shuffle_keeps, shuffle_prefix,
    shuffle_prefix_in_place,
};
use crate::random::random_below;

verus! {

/// Why a board could not be made.
#[derive(Debug, Clone, Copy, PartialEq, Eq, Structural)]
pub enum GameError {
    /// A side is zero, or there are not fewer mines than cells.
    InvalidConfiguration,
}

/// A board: `height` rows of `width` cells, and the game's status.
pub struct Game {
    width: usize,
    height: usize,
    field: Vec<Vec<CellStatus>>,
    state: GameState,
}

/// The abstract board: dimensions, cells as `cells[y][x]`, and status.
pub struct GameView {
    pub width: nat,
    pub height: nat,
    pub cells: Seq<Seq<CellStatus>>,
    pub state: GameState,
}

impl View for Game {
    type V = GameView;

    closed spec fn view(&self) -> GameView {
        GameView {
            width: self.width as nat,
            height: self.height as nat,
            cells: grid_view(self.field@),
            state: self.state,
        }
    }
}

impl GameView {
    pub open spec fn in_bounds(self, c: Coordinate) -> bool {
        c.x < self.width && c.y < self.height
    }

    pub open spec fn cell(self, c: Coordinate) -> CellStatus {
        self.cells[c.y as int][c.x as int]
    }

    /// Both sides positive, every row `width` long, and every cell's content
    /// agrees with the mines around it.
    pub open spec fn wf(self) -> bool {
        &&& self.width >= 1
        &&& self.height >= 1
        &&& self.width <= usize::MAX
        &&& self.height <= usize::MAX
        &&& has_shape(self.cells, self.width as int, self.height as int)
        &&& counts_consistent(self.cells)
    }

    /// Number of cells that hold a mine.
    pub open spec fn mine_count(self) -> nat {
        count_grid(self.cells, mine_pred())
    }

    /// Number of hidden cells.
    pub open spec fn hidden_count(self) -> nat {
        count_grid(self.cells, hidden_pred())
    }

    /// No cell is hidden: each one is revealed or flagged.
    pub open spec fn no_hidden(self) -> bool {
        forall|c: Coordinate| self.in_bounds(c) ==> !(#[trigger] self.cell(c)).is_hidden()
    }

    pub open spec fn all_hidden(self) -> bool {
        forall|c: Coordinate| self.in_bounds(c) ==> (#[trigger] self.cell(c)).is_hidden()
    }

    /// Some mine cell has been revealed.
    pub open spec fn has_revealed_mine(self) -> bool {
        exists|c: Coordinate| self.in_bounds(c) && (#[trigger] self.cell(c)).is_mine() && self.cell(c).status
            is Revealed
    }

    /// The cell at `c` after one toggle: hidden becomes flagged and flagged
    /// becomes hidden.
    pub open spec fn flipped(self, c: Coordinate) -> CellStatus {
        CellStatus {
            content: self.cell(c).content,
            status: if self.cell(c).is_hidden() {
                CellVisibility::Flagged
            } else {
                CellVisibility::Hidden
            },
        }
    }

    /// No mine in the cell and none around it.
    pub open spec fn is_blank(self, c: Coordinate) -> bool {
        self.cell(c).content == CellContent::Empty(0)
    }

    /// The cell at `c`, revealed.
    pub open spec fn revealed(self, c: Coordinate) -> CellStatus {
        CellStatus { content: self.cell(c).content, status: CellVisibility::Revealed }
    }

    /// A walk along which a reveal spreads: hidden cells on the board, each
    /// adjacent to the next, every one but the last blank.
    pub open spec fn is_cascade_path(self, p: Seq<Coordinate>) -> bool {
        &&& p.len() >= 1
        &&& forall|i: int| 0 <= i < p.len() ==> self.in_bounds(#[trigger] p[i]) && self.cell(p[i]).is_hidden()
        &&& forall|i: int| 0 <= i < p.len() - 1 ==> self.is_blank(#[trigger] p[i]) && adjacent(p[i], p[i + 1])
    }

    /// Revealing `from` reaches `to`.
    pub open spec fn cascades(self, from: Coordinate, to: Coordinate) -> bool {
        exists|p: Seq<Coordinate>| #[trigger] self.is_cascade_path(p) && p[0] == from && p.last() == to
    }

    /// `next` is what revealing `c` makes of `self`: nothing changes unless
    /// the game is on and `c` is a hidden cell on the board; then exactly the
    /// cells that `c` cascades to are revealed, and the game is lost if `c`
    /// holds a mine, won if no hidden cell is left, and goes on otherwise.
    pub open spec fn reveal_step(self, c: Coordinate, next: GameView) -> bool {
        if self.state is Playing && self.in_bounds(c) && self.cell(c).is_hidden() {
            &&& next.width == self.width
            &&& next.height == self.height
            &&& has_shape(next.cells, self.width as int, self.height as int)
            &&& forall|d: Coordinate| #[trigger]
                self.in_bounds(d) ==> next.cell(d) == if self.cascades(c, d) {
                    self.revealed(d)
                } else {
                    self.cell(d)
                }
            &&& next.state == if self.cell(c).is_mine() {
                GameState::Lost
            } else if next.no_hidden() {
                GameState::Won
            } else {
                GameState::Playing
            }
        } else {
            next == self
        }
    }

    /// Every hidden neighbour (in `self`) of `d` is revealed in `g`.
    pub open spec fn neighbours_revealed(self, g: GameView, d: Coordinate) -> bool {
        forall|e: Coordinate|
            self.in_bounds(e) && adjacent(d, e) && self.cell(e).is_hidden() ==> (#[trigger] g.cell(e)).status
                is Revealed
    }

    /// The cell at `d` went from hidden in `self` to revealed in `g`.
    pub open spec fn opened(self, g: GameView, d: Coordinate) -> bool {
        self.cell(d).is_hidden() && g.cell(d).status is Revealed
    }

    pub proof fn lemma_extend_cascade(self, from: Coordinate, c: Coordinate, e: Coordinate)
        requires
            self.cascades(from, c),
            self.is_blank(c),
            adjacent(c, e),
            self.in_bounds(e),
            self.cell(e).is_hidden(),
        ensures
            self.cascades(from, e),
    {
        let p = choose|p: Seq<Coordinate>| #[trigger] self.is_cascade_path(p) && p[0] == from && p.last() == c;
        let q = p.push(e);
        assert(q[p.len() - 1] == c);
        assert forall|i: int| 0 <= i < q.len() - 1 implies self.is_blank(#[trigger] q[i]) && adjacent(
            q[i],
            q[i + 1],
        ) by {
            if i < p.len() - 1 {
                assert(q[i] == p[i] && q[i + 1] == p[i + 1]);
            }
        }
        assert forall|i: int| 0 <= i < q.len() implies self.in_bounds(#[trigger] q[i]) && self.cell(
            q[i],
        ).is_hidden() by {
            if i < p.len() {
                assert(q[i] == p[i]);
            }
        }
        assert(self.is_cascade_path(q));
    }

    /// Along a cascade path from an opened cell, every cell is opened when
    /// each opened blank cell has its hidden neighbours revealed.
    pub proof fn lemma_cascade_opened(self, g: GameView, p: Seq<Coordinate>, i: int)
        requires
            self.is_cascade_path(p),
            0 <= i < p.len(),
            self.opened(g, p[0]),
            forall|d: Coordinate|
                self.in_bounds(d) && self.opened(g, d) && self.is_blank(d) ==> #[trigger] self.neighbours_revealed(
                    g,
                    d,
                ),
        ensures
            self.opened(g, p[i]),
        decreases i,
    {
        if i > 0 {
            self.lemma_cascade_opened(g, p, i - 1);
            assert(self.is_blank(p[i - 1]) && adjacent(p[i - 1], p[i]));
            assert(self.in_bounds(p[i - 1]));
            assert(self.neighbours_revealed(g, p[i - 1]));
            assert(self.in_bounds(p[i]) && self.cell(p[i]).is_hidden());
        }
    }

    /// Opening the hidden cell `e` and pushing it keeps what the reveal's
    /// work-list loop maintains.
    proof fn lemma_push_step(
        self,
        g1: GameView,
        g2: GameView,
        s1: Seq<Coordinate>,
        s2: Seq<Coordinate>,
        coord: Coordinate,
        c: Coordinate,
        e: Coordinate,
    )
        requires
            self.wf(),
            g1.width == self.width,
            g1.height == self.height,
            g2.width == self.width,
            g2.height == self.height,
            self.in_bounds(e),
            g1.cell(e).is_hidden(),
            self.cascades(coord, e),
            forall|d: Coordinate| #[trigger]
                g1.in_bounds(d) ==> g2.cell(d) == if d == e {
                    g1.revealed(d)
                } else {
                    g1.cell(d)
                },
            s2 == s1.push(e),
            forall|d: Coordinate| #[trigger]
                self.in_bounds(d) ==> g1.cell(d).content == self.cell(d).content && (g1.cell(d).status
                    == self.cell(d).status || self.opened(g1, d)),
            forall|d: Coordinate| self.in_bounds(d) && #[trigger] self.opened(g1, d) ==> self.cascades(coord, d),
            forall|k: int| 0 <= k < s1.len() ==> self.in_bounds(#[trigger] s1[k]) && self.opened(g1, s1[k]),
            forall|d: Coordinate|
                self.in_bounds(d) && self.opened(g1, d) && self.is_blank(d) && !s1.contains(d) && d != c
                    ==> #[trigger] self.neighbours_revealed(g1, d),
        ensures
            self.opened(g2, e),
            forall|d: Coordinate| #[trigger]
                self.in_bounds(d) ==> g2.cell(d).content == self.cell(d).content && (g2.cell(d).status
                    == self.cell(d).status || self.opened(g2, d)),
            forall|d: Coordinate| self.in_bounds(d) && #[trigger] self.opened(g2, d) ==> self.cascades(coord, d),
            forall|k: int| 0 <= k < s2.len() ==> self.in_bounds(#[trigger] s2[k]) && self.opened(g2, s2[k]),
            forall|d: Coordinate|
                self.in_bounds(d) && self.opened(g2, d) && self.is_blank(d) && !s2.contains(d) && d != c
                    ==> #[trigger] self.neighbours_revealed(g2, d),
            forall|d: Coordinate| self.in_bounds(d) && #[trigger] self.opened(g1, d) ==> self.opened(g2, d),
    {
        assert(g1.in_bounds(e));
        assert(self.cell(e).is_hidden());
        assert forall|d: Coordinate| self.in_bounds(d) implies (#[trigger] g2.cell(d)).content == self.cell(d).content
            && (g2.cell(d).status == self.cell(d).status || self.opened(g2, d)) by {
            assert(g1.in_bounds(d));
            assert(g1.cell(d).content == self.cell(d).content);
        }
        assert forall|d: Coordinate| self.in_bounds(d) && #[trigger] self.opened(g1, d) implies self.opened(g2, d) by {
            assert(g1.in_bounds(d));
        }
        assert forall|d: Coordinate| #[trigger] self.neighbours_revealed(g1, d) implies self.neighbours_revealed(
            g2,
            d,
        ) by {
            assert forall|f: Coordinate|
                self.in_bounds(f) && adjacent(d, f) && self.cell(f).is_hidden() implies (
                #[trigger] g2.cell(f)).status is Revealed by {
                assert(g1.in_bounds(f));
                assert(g1.cell(f).status is Revealed);
            }
        }
        assert forall|d: Coordinate| self.in_bounds(d) && #[trigger] self.opened(g2, d) implies self.cascades(
            coord,
            d,
        ) by {
            assert(g1.in_bounds(d));
            if d != e {
                assert(self.opened(g1, d));
            }
        }
        assert forall|d: Coordinate|
            self.in_bounds(d) && self.opened(g2, d) && self.is_blank(d) && !s2.contains(d) && d != c implies
            #[trigger] self.neighbours_revealed(g2, d) by {
            assert(g1.in_bounds(d));
            assert(s2[s2.len() - 1] == e);
            if d != e {
                assert(self.opened(g1, d));
                if s1.contains(d) {
                    let k = choose|k: int| 0 <= k < s1.len() && s1[k] == d;
                    assert(s2[k] == d);
                }
                assert(self.neighbours_revealed(g1, d));
            }
        }
        assert forall|k: int| 0 <= k < s2.len() implies self.in_bounds(#[trigger] s2[k]) && self.opened(g2, s2[k]) by {
            if k < s1.len() {
                assert(s2[k] == s1[k]);
                assert(self.opened(g1, s1[k]));
            }
        }
    }

    /// After `set` overwrites one cell, every other cell is as it was.
    pub proof fn lemma_cell_after_set(self, next: GameView, e: Coordinate, v: CellStatus)
        requires
            self.wf(),
            self.in_bounds(e),
            next.width == self.width,
            next.height == self.height,
            next.cells == self.cells.update(e.y as int, self.cells[e.y as int].update(e.x as int, v)),
        ensures
            has_shape(next.cells, self.width as int, self.height as int),
            forall|d: Coordinate| #[trigger]
                self.in_bounds(d) ==> next.cell(d) == if d == e {
                    v
                } else {
                    self.cell(d)
                },
    {
        assert forall|d: Coordinate| #[trigger] self.in_bounds(d) implies next.cell(d) == if d == e { v } else { self.cell(d) } by {
            if d != e {
                assert(d.x != e.x || d.y != e.y);
            }
        }
    }

    /// Whether a cell is hidden depends on the cells alone.
    pub proof fn lemma_no_hidden_same_cells(self, other: GameView)
        requires
            self.width == other.width,
            self.height == other.height,
            self.cells == other.cells,
        ensures
            self.no_hidden() == other.no_hidden(),
    {
        assert forall|c: Coordinate| #[trigger] self.cell(c) == other.cell(c) by {}
        if self.no_hidden() {
            assert forall|c: Coordinate| other.in_bounds(c) implies !(#[trigger] other.cell(c)).is_hidden() by {
                assert(self.cell(c) == other.cell(c));
            }
        }
        if other.no_hidden() {
            assert forall|c: Coordinate| self.in_bounds(c) implies !(#[trigger] self.cell(c)).is_hidden() by {
                assert(self.cell(c) == other.cell(c));
            }
        }
    }

    /// `e` is on the board, adjacent to `c`, and comes before offset rank `n`.
    pub open spec fn listed_before(self, c: Coordinate, e: Coordinate, n: int) -> bool {
        self.in_bounds(e) && adjacent(c, e) && neighbour_rank(c, e) < n
    }

    /// `next` is what toggling the flag at `c` makes of `self`: nothing
    /// changes unless the game is on, `c` is on the board and not revealed;
    /// then that cell flips, and the game is won if it holds a mine and no
    /// hidden cell is left.
    pub open spec fn toggle_step(self, c: Coordinate, next: GameView) -> bool {
        if self.state is Playing && self.in_bounds(c) && !(self.cell(c).status is Revealed) {
            &&& next.width == self.width
            &&& next.height == self.height
            &&& next.cells == self.cells.update(
                c.y as int,
                self.cells[c.y as int].update(c.x as int, self.flipped(c)),
            )
            &&& next.state == if self.cell(c).is_mine() && next.no_hidden() {
                GameState::Won
            } else {
                GameState::Playing
            }
        } else {
            next == self
        }
    }
}

impl Game {
    pub open spec fn wf(&self) -> bool {
        self@.wf()
    }

    proof fn lemma_view_cell(&self, c: Coordinate)
        requires
            self.wf(),
            self@.in_bounds(c),
        ensures
            self.field@[c.y as int]@[c.x as int] == self@.cell(c),
            self.field@.len() == self.height,
            self.field@[c.y as int]@.len() == self.width,
    {
    }

    /// A board of the given size whose mines are chosen by `draws`: the
    /// positions, listed row by row, are shuffled for `mines` steps, step `i`
    /// exchanging entry `i` with entry `i + draws[i] % (cells - i)`, and the
    /// first `mines` positions get a mine.
    pub fn from_draws(width: usize, height: usize, mines: usize, draws: &Vec<usize>) -> (r: Result<
        Game,
        GameError,
    >)
        requires
            width * height <= usize::MAX,
            mines <= draws@.len(),
        ensures
            r is Err <==> (width == 0 || height == 0 || mines >= width * height),
            r is Err ==> r == Err::<Game, GameError>(GameError::InvalidConfiguration),
            r matches Ok(g) ==> {
                &&& g.wf()
                &&& g@.width == width
                &&& g@.height == height
                &&& g@.state == GameState::Playing
                &&& g@.all_hidden()
                &&& g@.mine_count() == mines
                &&& forall|c: Coordinate| #[trigger]
                    g@.in_bounds(c) ==> (g@.cell(c).is_mine() <==> shuffle_prefix(
                        all_coords(width, height),
                        draws@,
                        mines as nat,
                    ).take(mines as int).contains(c))
            },
    {
        if width == 0 || height == 0 || mines >= width * height {
            return Err(GameError::InvalidConfiguration);
        }
        let mut coords = build_coords(width, height);
        proof {
            lemma_all_coords(width, height);
        }
        shuffle_prefix_in_place(&mut coords, draws, mines);
        proof {
            lemma_shuffle_keeps(all_coords(width, height), draws@, mines as nat, width, height);
        }
        let ghost order = coords@;
        let mut field = blank_field(width, height);
        proof {
            lemma_count_grid_none(grid_view(field@), mine_pred());
        }
        let mut k: usize = 0;
        while k < mines
            invariant
                k <= mines,
                mines < coords@.len(),
                coords@ == order,
                order.no_duplicates(),
                all_in_bounds(order, width, height),
                has_shape(grid_view(field@), width as int, height as int),
                forall|y: int, x: int|
                    0 <= y < height && 0 <= x < width ==> ((#[trigger] grid_view(field@)[y][x]).status
                        is Hidden),
                forall|y: int, x: int|
                    0 <= y < height && 0 <= x < width ==> ((#[trigger] grid_view(field@)[y][x]).is_mine()
                        <==> order.take(k as int).contains(Coordinate { x: x as usize, y: y as usize })),
                forall|y: int, x: int|
                    0 <= y < height && 0 <= x < width && !(#[trigger] grid_view(field@)[y][x]).is_mine()
                        ==> grid_view(field@)[y][x].content == CellContent::Empty(0),
                count_grid(grid_view(field@), mine_pred()) == k,
            decreases mines - k,
        {
            let c = coords[k];
            let ghost g = grid_view(field@);
            proof {
                assert(!order.take(k as int).contains(c));
                assert(c == Coordinate { x: c.x as usize, y: c.y as usize });
                assert(!g[c.y as int][c.x as int].is_mine());
                lemma_count_grid_update(
                    g,
                    c.y as int,
                    c.x as int,
                    CellStatus { content: CellContent::Mine, status: CellVisibility::Hidden },
                    mine_pred(),
                );
            }
            set_cell(&mut field, c.x, c.y, CellStatus { content: CellContent::Mine, status: CellVisibility::Hidden });
            proof {
                let t = order.take(k as int);
                assert(order.take(k as int + 1) =~= t.push(c));
                assert forall|y: int, x: int| 0 <= y < height && 0 <= x < width implies ((#[trigger] grid_view(
                    field@,
                )[y][x]).is_mine() <==> t.push(c).contains(Coordinate { x: x as usize, y: y as usize })) by {
                    let p = Coordinate { x: x as usize, y: y as usize };
                    if p == c {
                        assert(t.push(c)[k as int] == p);
                    } else {
                        assert(g[y][x] == grid_view(field@)[y][x]);
                        if t.contains(p) {
                            let i = choose|i: int| 0 <= i < t.len() && t[i] == p;
                            assert(t.push(c)[i] == p);
                        }
                        if t.push(c).contains(p) {
                            let i = choose|i: int| 0 <= i < t.len() + 1 && t.push(c)[i] == p;
                            assert(t[i] == p);
                        }
                    }
                }
            }
            k = k + 1;
        }
        assert(order.take(mines as int) == coords@.take(mines as int));
        let ghost placed = grid_view(field@);
        let mut y: usize = 0;
        while y < height
            invariant
                y <= height,
                has_shape(grid_view(field@), width as int, height as int),
                same_mines(grid_view(field@), placed),
                has_shape(placed, width as int, height as int),
                count_grid(grid_view(field@), mine_pred()) == mines,
                forall|yy: int, xx: int|
                    0 <= yy < height && 0 <= xx < width ==> ((#[trigger] grid_view(field@)[yy][xx]).status
                        is Hidden),
                forall|yy: int, xx: int|
                    0 <= yy < y && 0 <= xx < width && !(#[trigger] grid_view(field@)[yy][xx]).is_mine()
                        ==> grid_view(field@)[yy][xx].content == CellContent::Empty(
                        adjacent_mines(placed, xx, yy) as usize,
                    ),
            decreases height - y,
        {
            let mut x: usize = 0;
            while x < width
                invariant
                    x <= width,
                    y < height,
                    has_shape(grid_view(field@), width as int, height as int),
                    same_mines(grid_view(field@), placed),
                    has_shape(placed, width as int, height as int),
                    count_grid(grid_view(field@), mine_pred()) == mines,
                    forall|yy: int, xx: int|
                        0 <= yy < height && 0 <= xx < width ==> ((#[trigger] grid_view(
                            field@,
                        )[yy][xx]).status is Hidden),
                    forall|yy: int, xx: int|
                        0 <= yy < height && 0 <= xx < width && (yy < y || (yy == y && xx < x)) && !(
                        #[trigger] grid_view(field@)[yy][xx]).is_mine() ==> grid_view(field@)[yy][xx].content
                            == CellContent::Empty(adjacent_mines(placed, xx, yy) as usize),
                decreases width - x,
            {
                assert(grid_view(field@)[y as int].len() == width);
                if let CellContent::Empty(_) = field[y][x].content {
                    let n = count_adjacent_mines(&field, x, y);
                    let ghost g = grid_view(field@);
                    let nc = CellStatus { content: CellContent::Empty(n), status: CellVisibility::Hidden };
                    proof {
                        lemma_same_mines_adjacent(g, placed, x as int, y as int);
                        lemma_count_grid_update(g, y as int, x as int, nc, mine_pred());
                    }
                    set_cell(&mut field, x, y, nc);
                }
                x = x + 1;
            }
            y = y + 1;
        }
        let game = Game { width, height, field, state: GameState::Playing };
        proof {
            let g = grid_view(game.field@);
            assert forall|yy: int, xx: int|
                0 <= yy < g.len() && 0 <= xx < g[yy].len() && !(#[trigger] g[yy][xx]).is_mine() implies g[yy][xx].content
                == CellContent::Empty(adjacent_mines(g, xx, yy) as usize) by {
                lemma_same_mines_adjacent(g, placed, xx, yy);
            }
            assert forall|c: Coordinate| #[trigger] game@.in_bounds(c) implies (game@.cell(c).is_mine() <==> order.take(
                mines as int,
            ).contains(c)) by {
                assert(c == Coordinate { x: c.x as usize, y: c.y as usize });
                assert(placed[c.y as int][c.x as int].is_mine() == g[c.y as int][c.x as int].is_mine());
            }
            assert forall|c: Coordinate| game@.in_bounds(c) implies (#[trigger] game@.cell(c)).is_hidden() by {
                assert(g[c.y as int][c.x as int].status is Hidden);
            }
        }
        Ok(game)
    }

    /// A board of the given size with `mines` mines at uniformly random
    /// distinct positions; every other cell counts its neighbouring mines.
    pub fn new(width: usize, height: usize, mines: usize) -> (r: Result<Game, GameError>)
        requires
            width * height <= usize::MAX,
        ensures
            r is Err <==> (width == 0 || height == 0 || mines >= width * height),
            r is Err ==> r == Err::<Game, GameError>(GameError::InvalidConfiguration),
            r matches Ok(g) ==> {
                &&& g.wf()
                &&& g@.width == width
                &&& g@.height == height
                &&& g@.state == GameState::Playing
                &&& g@.all_hidden()
                &&& g@.mine_count() == mines
            },
    {
        if width == 0 || height == 0 || mines >= width * height {
            return Err(GameError::InvalidConfiguration);
        }
        let cells = width * height;
        let mut draws: Vec<usize> = Vec::new();
        let mut i: usize = 0;
        while i < mines
            invariant
                i <= mines,
                mines < cells,
                draws@.len() == i,
            decreases mines - i,
        {
            draws.push(random_below(cells - i));
            i = i + 1;
        }
        Game::from_draws(width, height, mines, &draws)
    }

    pub fn width(&self) -> (r: usize)
        ensures
            r == self@.width,
    {
        self.width
    }

    pub fn height(&self) -> (r: usize)
        ensures
            r == self@.height,
    {
        self.height
    }

    pub fn state(&self) -> (r: GameState)
        ensures
            r == self@.state,
    {
        self.state
    }

    /// The cell at `coord`, or `None` off the board.
    pub fn get_cell(&self, coord: &Coordinate) -> (r: Option<CellStatus>)
        requires
            self.wf(),
        ensures
            r == if self@.in_bounds(*coord) {
                Some(self@.cell(*coord))
            } else {
                None::<CellStatus>
            },
    {
        if coord.y < self.height && coord.x < self.width {
            proof {
                self.lemma_view_cell(*coord);
            }
            Some(self.field[coord.y][coord.x])
        } else {
            None
        }
    }

    /// The positions on the board adjacent to `coord`, each once, by column
    /// offset and then row offset.
    pub fn get_neighbours(&self, coord: &Coordinate) -> (r: Vec<Coordinate>)
        requires
            self.wf(),
        ensures
            r@.no_duplicates(),
            forall|e: Coordinate| #[trigger] r@.contains(e) <==> self@.in_bounds(e) && adjacent(*coord, e),
    {
        let c = *coord;
        let mut r: Vec<Coordinate> = Vec::new();
        let mut dx: usize = 0;
        while dx < 3
            invariant
                dx <= 3,
                self.wf(),
                r@.no_duplicates(),
                forall|e: Coordinate| #[trigger] r@.contains(e) <==> self@.listed_before(c, e, dx * 3),
            decreases 3 - dx,
        {
            let mut dy: usize = 0;
            while dy < 3
                invariant
                    dx < 3,
                    dy <= 3,
                    self.wf(),
                    r@.no_duplicates(),
                    forall|e: Coordinate| #[trigger] r@.contains(e) <==> self@.listed_before(c, e, dx * 3 + dy),
                decreases 3 - dy,
            {
                let nx = shifted(c.x, dx, self.width);
                let ny = shifted(c.y, dy, self.height);
                if !(dx == 1 && dy == 1) {
                    if let (Some(x), Some(y)) = (nx, ny) {
                        let e = Coordinate { x, y };
                        let ghost old_r = r@;
                        assert(neighbour_rank(c, e) == dx * 3 + dy);
                        assert(!old_r.contains(e));
                        r.push(e);
                        proof {
                            assert forall|f: Coordinate| #[trigger] r@.contains(f) <==> self@.listed_before(
                                c,
                                f,
                                dx * 3 + dy + 1,
                            ) by {
                                if old_r.contains(f) {
                                    let i = choose|i: int| 0 <= i < old_r.len() && old_r[i] == f;
                                    assert(r@[i] == f);
                                }
                                if f == e {
                                    assert(r@[old_r.len() as int] == f);
                                }
                                if r@.contains(f) && f != e {
                                    let i = choose|i: int| 0 <= i < r@.len() && r@[i] == f;
                                    assert(old_r[i] == f);
                                }
                            }
                        }
                    }
                }
                dy = dy + 1;
            }
            dx = dx + 1;
        }
        assert forall|e: Coordinate| #[trigger] r@.contains(e) <==> self@.in_bounds(e) && adjacent(*coord, e) by {
            if adjacent(c, e) {
                assert(neighbour_rank(c, e) < 9);
            }
        }
        r
    }

    /// True iff no cell is hidden.
    pub fn is_fully_revealed_and_marked(&self) -> (r: bool)
        requires
            self.wf(),
        ensures
            r == self@.no_hidden(),
    {
        let mut y: usize = 0;
        while y < self.height
            invariant
                self.wf(),
                y <= self.height,
                forall|c: Coordinate| self@.in_bounds(c) && c.y < y ==> !(#[trigger] self@.cell(c)).is_hidden(),
            decreases self.height - y,
        {
            let mut x: usize = 0;
            while x < self.width
                invariant
                    self.wf(),
                    y < self.height,
                    x <= self.width,
                    forall|c: Coordinate|
                        self@.in_bounds(c) && (c.y < y || (c.y == y && c.x < x)) ==> !(
                        #[trigger] self@.cell(c)).is_hidden(),
                decreases self.width - x,
            {
                proof {
                    self.lemma_view_cell(Coordinate { x, y });
                }
                if self.field[y][x].status == CellVisibility::Hidden {
                    assert(self@.cell(Coordinate { x, y }).is_hidden());
                    return false;
                }
                x = x + 1;
            }
            y = y + 1;
        }
        true
    }

    /// True iff some revealed cell holds a mine.
    pub fn is_lost(&self) -> (r: bool)
        requires
            self.wf(),
        ensures
            r == self@.has_revealed_mine(),
    {
        let mut y: usize = 0;
        while y < self.height
            invariant
                self.wf(),
                y <= self.height,
                forall|c: Coordinate|
                    self@.in_bounds(c) && c.y < y ==> !((#[trigger] self@.cell(c)).is_mine() && self@.cell(
                        c,
                    ).status is Revealed),
            decreases self.height - y,
        {
            let mut x: usize = 0;
            while x < self.width
                invariant
                    self.wf(),
                    y < self.height,
                    x <= self.width,
                    forall|c: Coordinate|
                        self@.in_bounds(c) && (c.y < y || (c.y == y && c.x < x)) ==> !((
                        #[trigger] self@.cell(c)).is_mine() && self@.cell(c).status is Revealed),
                decreases self.width - x,
            {
                proof {
                    self.lemma_view_cell(Coordinate { x, y });
                }
                let cell = self.field[y][x];
                if cell.content == CellContent::Mine && cell.status == CellVisibility::Revealed {
                    assert(self@.cell(Coordinate { x, y }).is_mine());
                    return true;
                }
                x = x + 1;
            }
            y = y + 1;
        }
        false
    }


    /// Reveals a hidden cell while the game is on, and, from every blank
    /// cell so revealed, its hidden neighbours in turn; then the game is lost
    /// if the cell held a mine, and won if no hidden cell is left.
    pub fn reveal_field_checked(&mut self, coord: Coordinate)
        requires
            old(self).wf(),
        ensures
            final(self).wf(),
            old(self)@.reveal_step(coord, final(self)@),
    {
        if !self.state.is_playing() {
            return;
        }
        if !(coord.y < self.height && coord.x < self.width) {
            return;
        }
        proof {
            self.lemma_view_cell(coord);
        }
        let start = self.field[coord.y][coord.x];
        if start.status != CellVisibility::Hidden {
            return;
        }
        let ghost g0 = self@;
        proof {
            assert(g0.is_cascade_path(seq![coord]));
        }
        self.open_cell(coord);
        let mut stack: Vec<Coordinate> = Vec::new();
        stack.push(coord);
        proof {
            assert(stack@[0] == coord);
        }
        while stack.len() > 0
            invariant
                self.wf(),
                self@.width == g0.width,
                self@.height == g0.height,
                self@.state == g0.state,
                g0.wf(),
                g0.in_bounds(coord),
                g0.opened(self@, coord),
                forall|d: Coordinate| #[trigger]
                    g0.in_bounds(d) ==> self@.cell(d).content == g0.cell(d).content && (self@.cell(d).status
                        == g0.cell(d).status || g0.opened(self@, d)),
                forall|d: Coordinate| g0.in_bounds(d) && #[trigger] g0.opened(self@, d) ==> g0.cascades(coord, d),
                forall|i: int|
                    0 <= i < stack@.len() ==> g0.in_bounds(#[trigger] stack@[i]) && g0.opened(self@, stack@[i]),
                forall|d: Coordinate|
                    g0.in_bounds(d) && g0.opened(self@, d) && g0.is_blank(d) && !stack@.contains(d)
                        ==> #[trigger] g0.neighbours_revealed(self@, d),
            decreases 2 * self@.hidden_count() + stack@.len(),
        {
            let ghost m0 = 2 * self@.hidden_count() + stack@.len();
            let ghost before_pop = stack@;
            let c = stack.pop().unwrap();
            proof {
                assert(before_pop[before_pop.len() - 1] == c);
                assert forall|d: Coordinate| d != c && #[trigger] stack@.contains(d) implies before_pop.contains(d) by {
                    let i = choose|i: int| 0 <= i < stack@.len() && stack@[i] == d;
                    assert(before_pop[i] == d);
                }
                assert forall|d: Coordinate| d != c && #[trigger] before_pop.contains(d) implies stack@.contains(d) by {
                    let i = choose|i: int| 0 <= i < before_pop.len() && before_pop[i] == d;
                    assert(stack@[i] == d);
                }
                self.lemma_view_cell(c);
            }
            if self.field[c.y][c.x].content == CellContent::Empty(0) {
                let ns = self.get_neighbours(&c);
                let mut i: usize = 0;
                while i < ns.len()
                    invariant
                        self.wf(),
                        self@.width == g0.width,
                        self@.height == g0.height,
                        self@.state == g0.state,
                        g0.wf(),
                        g0.in_bounds(coord),
                        g0.opened(self@, coord),
                        g0.in_bounds(c),
                        g0.opened(self@, c),
                        g0.is_blank(c),
                        g0.cascades(coord, c),
                        i <= ns@.len(),
                        forall|e: Coordinate| #[trigger] ns@.contains(e) <==> g0.in_bounds(e) && adjacent(c, e),
                        forall|d: Coordinate| #[trigger]
                            g0.in_bounds(d) ==> self@.cell(d).content == g0.cell(d).content && (self@.cell(
                                d,
                            ).status == g0.cell(d).status || g0.opened(self@, d)),
                        forall|d: Coordinate|
                            g0.in_bounds(d) && #[trigger] g0.opened(self@, d) ==> g0.cascades(coord, d),
                        forall|k: int|
                            0 <= k < stack@.len() ==> g0.in_bounds(#[trigger] stack@[k]) && g0.opened(
                                self@,
                                stack@[k],
                            ),
                        forall|d: Coordinate|
                            g0.in_bounds(d) && g0.opened(self@, d) && g0.is_blank(d) && !stack@.contains(d)
                                && d != c ==> #[trigger] g0.neighbours_revealed(self@, d),
                        forall|k: int|
                            0 <= k < i && g0.cell(#[trigger] ns@[k]).is_hidden() ==> self@.cell(ns@[k]).status
                                is Revealed,
                        2 * self@.hidden_count() + stack@.len() < m0,
                    decreases ns@.len() - i,
                {
                    let e = ns[i];
                    assert(ns@.contains(e));
                    proof {
                        self.lemma_view_cell(e);
                    }
                    if self.field[e.y][e.x].status == CellVisibility::Hidden {
                        let ghost g1 = self@;
                        let ghost s1 = stack@;
                        proof {
                            g0.lemma_extend_cascade(coord, c, e);
                        }
                        self.open_cell(e);
                        stack.push(e);
                        proof {
                            g0.lemma_push_step(g1, self@, s1, stack@, coord, c, e);
                            assert forall|k: int| 0 <= k < i && g0.cell(#[trigger] ns@[k]).is_hidden() implies self@.cell(
                                ns@[k],
                            ).status is Revealed by {
                                assert(ns@.contains(ns@[k]));
                                assert(g0.opened(g1, ns@[k]));
                            }
                        }
                    }
                    proof {
                        assert(g0.in_bounds(e));
                        assert(self@.cell(e).content == g0.cell(e).content);
                    }
                    i = i + 1;
                }
                proof {
                    assert forall|f: Coordinate|
                        g0.in_bounds(f) && adjacent(c, f) && g0.cell(f).is_hidden() implies (
                        #[trigger] self@.cell(f)).status is Revealed by {
                        assert(ns@.contains(f));
                        let k = choose|k: int| 0 <= k < ns@.len() && ns@[k] == f;
                        assert(g0.cell(ns@[k]).is_hidden());
                    }
                    assert(g0.neighbours_revealed(self@, c));
                }
            }
        }
        proof {
            assert forall|d: Coordinate| g0.in_bounds(d) && g0.opened(self@, d) && g0.is_blank(d) implies #[trigger] g0.neighbours_revealed(
                self@,
                d,
            ) by {
                assert(!stack@.contains(d));
            }
            assert forall|d: Coordinate| #[trigger] g0.in_bounds(d) implies self@.cell(d) == if g0.cascades(coord, d) {
                g0.revealed(d)
            } else {
                g0.cell(d)
            } by {
                if g0.cascades(coord, d) {
                    let p = choose|p: Seq<Coordinate>| #[trigger] g0.is_cascade_path(p) && p[0] == coord && p.last() == d;
                    g0.lemma_cascade_opened(self@, p, p.len() - 1);
                }
            }
        }
        let ghost opened = self@;
        if start.content == CellContent::Mine {
            self.state = GameState::Lost;
        } else if self.is_fully_revealed_and_marked() {
            self.state = GameState::Won;
        }
        proof {
            opened.lemma_no_hidden_same_cells(self@);
            assert forall|d: Coordinate| #[trigger] g0.in_bounds(d) implies self@.cell(d) == opened.cell(d) by {}
        }
    }

    /// Reveals the hidden cell at `e`, keeping its content.
    fn open_cell(&mut self, e: Coordinate)
        requires
            old(self).wf(),
            old(self)@.in_bounds(e),
            old(self)@.cell(e).is_hidden(),
        ensures
            final(self).wf(),
            final(self)@.width == old(self)@.width,
            final(self)@.height == old(self)@.height,
            final(self)@.state == old(self)@.state,
            final(self)@.hidden_count() + 1 == old(self)@.hidden_count(),
            forall|d: Coordinate| #[trigger]
                old(self)@.in_bounds(d) ==> final(self)@.cell(d) == if d == e {
                    old(self)@.revealed(d)
                } else {
                    old(self)@.cell(d)
                },
    {
        proof {
            self.lemma_view_cell(e);
        }
        let ghost g = self@;
        let content = self.field[e.y][e.x].content;
        let v = CellStatus { content, status: CellVisibility::Revealed };
        set_cell(&mut self.field, e.x, e.y, v);
        proof {
            g.lemma_cell_after_set(self@, e, v);
            lemma_count_grid_update(g.cells, e.y as int, e.x as int, v, hidden_pred());
            lemma_same_contents_consistent(g.cells, self@.cells);
        }
    }

    /// Flips the flag on a hidden or flagged cell while the game is on; a
    /// flagged mine that leaves no hidden cell wins the game.
    pub fn toggle_flag_checked(&mut self, coor: Coordinate)
        requires
            old(self).wf(),
        ensures
            final(self).wf(),
            old(self)@.toggle_step(coor, final(self)@),
    {
        if !self.state.is_playing() {
            return;
        }
        if !(coor.y < self.height && coor.x < self.width) {
            return;
        }
        proof {
            self.lemma_view_cell(coor);
        }
        let cell = self.field[coor.y][coor.x];
        let ghost before = self@;
        if cell.status == CellVisibility::Revealed {
            return;
        }
        let status = if cell.status == CellVisibility::Hidden {
            CellVisibility::Flagged
        } else {
            CellVisibility::Hidden
        };
        set_cell(&mut self.field, coor.x, coor.y, CellStatus { content: cell.content, status });
        proof {
            assert(self@.cells == before.cells.update(
                coor.y as int,
                before.cells[coor.y as int].update(coor.x as int, before.flipped(coor)),
            ));
            lemma_same_contents_consistent(before.cells, self@.cells);
        }
        let ghost flipped = self@;
        if cell.content == CellContent::Mine && self.is_fully_revealed_and_marked() {
            self.state = GameState::Won;
        }
        proof {
            flipped.lemma_no_hidden_same_cells(self@);
        }
    }
}

/// `v + d - 1` where that lies in `[0, limit)`.
fn shifted(v: usize, d: usize, limit: usize) -> (r: Option<usize>)
    requires
        d < 3,
        limit >= 1,
    ensures
        r == if 0 <= v + d - 1 < limit {
            Some((v + d - 1) as usize)
        } else {
            None::<usize>
        },
{
    if d == 0 {
        if v >= 1 && v - 1 < limit {
            Some(v - 1)
        } else {
            None
        }
    } else if d == 1 {
        if v < limit {
            Some(v)
        } else {
            None
        }
    } else {
        if v < limit - 1 {
            Some(v + 1)
        } else {
            None
        }
    }
}


/// Position of `e` among the offsets around `c`, column offset first.
pub open spec fn neighbour_rank(c: Coordinate, e: Coordinate) -> int {
    (e.x - c.x + 1) * 3 + (e.y - c.y + 1)
}

spec fn blank_cell() -> CellStatus {
    CellStatus { content: CellContent::Empty(0), status: CellVisibility::Hidden }
}

/// `height` rows of `width` fresh cells.
fn blank_field(width: usize, height: usize) -> (r: Vec<Vec<CellStatus>>)
    ensures
        has_shape(grid_view(r@), width as int, height as int),
        forall|y: int, x: int|
            0 <= y < height && 0 <= x < width ==> #[trigger] grid_view(r@)[y][x] == blank_cell(),
{
    let mut field: Vec<Vec<CellStatus>> = Vec::new();
    let mut y: usize = 0;
    while y < height
        invariant
            y <= height,
            field@.len() == y,
            forall|yy: int| 0 <= yy < y ==> (#[trigger] field@[yy])@.len() == width,
            forall|yy: int, xx: int|
                0 <= yy < y && 0 <= xx < width ==> #[trigger] field@[yy]@[xx] == blank_cell(),
        decreases height - y,
    {
        let mut row: Vec<CellStatus> = Vec::new();
        let mut x: usize = 0;
        while x < width
            invariant
                x <= width,
                row@.len() == x,
                forall|xx: int| 0 <= xx < x ==> #[trigger] row@[xx] == blank_cell(),
            decreases width - x,
        {
            row.push(CellStatus::new());
            x = x + 1;
        }
        field.push(row);
        y = y + 1;
    }
    field
}

} // verus!
