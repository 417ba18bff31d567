//! The board, its cells and the rules of play.
use vstd::prelude::*;

verus! {

/// What the player has done to a cell.
#[derive(Clone, Copy, Debug, PartialEq, Eq, Structural)]
pub enum CellInteraction {
    Opened,
    Flagged,
    Closed,
}

/// One square of the board. Its mine and its count are readable only once it is opened.
#[derive(Clone, Copy)]
pub struct Cell {
    has_mine: bool,
    pub interaction: CellInteraction,
    counter: u8,
}

impl Cell {
    /// What the player has done to this cell.
    pub closed spec fn state(&self) -> CellInteraction {
        self.interaction
    }

    /// Whether a mine lies under this cell.
    pub closed spec fn mine(&self) -> bool {
        self.has_mine
    }

    /// The number of mines in this cell's neighbourhood, the cell itself included.
    pub closed spec fn count(&self) -> u8 {
        self.counter
    }

    pub fn new(has_mine: bool) -> (r: Self)
        ensures
            r.mine() == has_mine,
            r.state() == CellInteraction::Closed,
            r.count() == 0,
    {
        Self { has_mine, interaction: CellInteraction::Closed, counter: 0 }
    }

    /// This cell with its interaction set to `s`.
    pub closed spec fn with_state(self, s: CellInteraction) -> Cell {
        Cell { interaction: s, ..self }
    }

    pub proof fn lemma_with_state(self, s: CellInteraction)
        ensures
            self.with_state(s).state() == s,
            self.with_state(s).mine() == self.mine(),
            self.with_state(s).count() == self.count(),
            self.with_state(self.state()) == self,
            self.with_state(s).with_state(s) == self.with_state(s),
            forall|t: CellInteraction| #[trigger] self.with_state(s).with_state(t) == self.with_state(t),
    {
    }

    pub fn interaction(&self) -> (r: CellInteraction)
        ensures
            r == self.state(),
    {
        self.interaction
    }

    fn open(&mut self)
        ensures
            final(self).state() == CellInteraction::Opened,
            final(self).mine() == old(self).mine(),
            final(self).count() == old(self).count(),
    {
        self.interaction = CellInteraction::Opened;
    }

    fn flag(&mut self)
        ensures
            final(self).state() == CellInteraction::Flagged,
            final(self).mine() == old(self).mine(),
            final(self).count() == old(self).count(),
    {
        self.interaction = CellInteraction::Flagged;
    }

    fn unflag(&mut self)
        ensures
            final(self).state() == CellInteraction::Closed,
            final(self).mine() == old(self).mine(),
            final(self).count() == old(self).count(),
    {
        self.interaction = CellInteraction::Closed;
    }

    /// How the cell is drawn; see `glyph`.
    pub fn render(&self) -> (r: char)
        ensures
            r == glyph(*self),
    {
        match self.interaction {
            CellInteraction::Closed => '#',
            CellInteraction::Flagged => 'F',
            CellInteraction::Opened => if self.has_mine {
                '*'
            } else {
                digit(self.counter)
            },
        }
    }

    /// The count, once the cell is opened.
    pub fn counter(&self) -> (r: Option<u8>)
        ensures
            r == (if self.state() == CellInteraction::Opened {
                Some(self.count())
            } else {
                None::<u8>
            }),
    {
        if self.interaction == CellInteraction::Opened {
            return Some(self.counter);
        }
        None
    }

    /// Whether the cell holds a mine, once it is opened.
    pub fn has_mine(&self) -> (r: Option<bool>)
        ensures
            r == (if self.state() == CellInteraction::Opened {
                Some(self.mine())
            } else {
                None::<bool>
            }),
    {
        if self.interaction == CellInteraction::Opened {
            return Some(self.has_mine);
        }
        None
    }
}


/// The character for a count: `.` for 0, the digit otherwise (a count is at most 9).
pub open spec fn digit_spec(n: u8) -> char {
    if n == 0 {
        '.'
    } else if n == 1 {
        '1'
    } else if n == 2 {
        '2'
    } else if n == 3 {
        '3'
    } else if n == 4 {
        '4'
    } else if n == 5 {
        '5'
    } else if n == 6 {
        '6'
    } else if n == 7 {
        '7'
    } else if n == 8 {
        '8'
    } else {
        '9'
    }
}

#[verifier::when_used_as_spec(digit_spec)]
pub fn digit(n: u8) -> (r: char)
    ensures
        r == digit_spec(n),
{
    if n == 0 {
        '.'
    } else if n == 1 {
        '1'
    } else if n == 2 {
        '2'
    } else if n == 3 {
        '3'
    } else if n == 4 {
        '4'
    } else if n == 5 {
        '5'
    } else if n == 6 {
        '6'
    } else if n == 7 {
        '7'
    } else if n == 8 {
        '8'
    } else {
        '9'
    }
}

/// How a cell is drawn: `#` closed, `F` flagged; once opened, `*` for a mine, else its
/// count (`.` for 0). A closed or flagged cell shows nothing of its mine or count.
pub open spec fn glyph(c: Cell) -> char {
    if c.state() == CellInteraction::Closed {
        '#'
    } else if c.state() == CellInteraction::Flagged {
        'F'
    } else if c.mine() {
        '*'
    } else {
        digit_spec(c.count())
    }
}

/// The glyphs of `row`, then a line break.
pub open spec fn row_text(row: Seq<Cell>) -> Seq<char> {
    row.map_values(|c: Cell| glyph(c)).push('\n')
}

/// The first `n` rows of `rows`, drawn one line each.
pub open spec fn board_text(rows: Seq<Seq<Cell>>, n: int) -> Seq<char>
    decreases n,
{
    if n <= 0 {
        Seq::empty()
    } else {
        board_text(rows, n - 1) + row_text(rows[n - 1])
    }
}

/// Relies on `String::from_iter` over `char`s: the string of those characters, in order.
#[verifier::external_body]
fn string_of(chars: &Vec<char>) -> (r: String)
    ensures
        r@ == chars@,
{
    String::from_iter(chars.iter())
}

/// A board coordinate: `x` is the column, `y` the row.
#[derive(Clone, Copy, Debug, PartialEq, Eq, Structural)]
pub struct Position {
    pub x: usize,
    pub y: usize,
}

impl Position {
    pub fn new(x: usize, y: usize) -> (r: Self)
        ensures
            r.x == x,
            r.y == y,
    {
        Self { x, y }
    }
}

/// The cells of a board, row by row.
pub struct Grid(pub Vec<Vec<Cell>>);

impl Grid {
    pub open spec fn rows(&self) -> Seq<Seq<Cell>> {
        self.0@.map_values(|r: Vec<Cell>| r@)
    }
}

#[derive(Clone, Copy, Debug, PartialEq, Eq, Structural)]
pub enum GameStatus {
    OnGoing,
    Lose,
    Win,
}

/// The first column (or row) of the neighbourhood of column (or row) `c`.
pub open spec fn lo(c: int) -> int {
    if c > 0 {
        c - 1
    } else {
        0
    }
}

/// One past the last column (or row) of the neighbourhood of `c`, on a board `bound` wide.
pub open spec fn hi(c: int, bound: int) -> int {
    if c + 2 < bound {
        c + 2
    } else {
        bound
    }
}

/// Whether `(nx, ny)` lies in the 3x3 square centred on `(x, y)`; the centre counts.
pub open spec fn adjacent(x: int, y: int, nx: int, ny: int) -> bool {
    x - 1 <= nx <= x + 1 && y - 1 <= ny <= y + 1
}

/// How many of `row[x0..x1]` are true.
pub open spec fn row_count(row: Seq<bool>, x0: int, x1: int) -> nat
    decreases x1 - x0,
{
    if x1 <= x0 {
        0
    } else {
        row_count(row, x0, x1 - 1) + if row[x1 - 1] {
            1nat
        } else {
            0nat
        }
    }
}

/// How many entries of `m` in rows `y0..y1` and columns `x0..x1` are true.
pub open spec fn rect_count(m: Seq<Seq<bool>>, x0: int, x1: int, y0: int, y1: int) -> nat
    decreases y1 - y0,
{
    if y1 <= y0 {
        0
    } else {
        rect_count(m, x0, x1, y0, y1 - 1) + row_count(m[y1 - 1], x0, x1)
    }
}

/// How many entries of `m` are true in the neighbourhood of `(x, y)`, on a `w` by `h` board.
pub open spec fn nbhd_count(m: Seq<Seq<bool>>, w: int, h: int, x: int, y: int) -> nat {
    rect_count(m, lo(x), hi(x, w), lo(y), hi(y, h))
}

/// Relies on rand's `Rng::gen_ratio`, on the thread-local generator: true with chance
/// `numerator / denominator`; always true when the two are equal, never when `numerator` is 0.
/// It panics when `denominator` is 0 or below `numerator`.
#[verifier::external_body]
fn draw_ratio(numerator: u32, denominator: u32) -> (r: bool)
    requires
        0 < denominator,
        numerator <= denominator,
    ensures
        numerator == denominator ==> r,
        numerator == 0 ==> !r,
{
    rand::Rng::gen_ratio(&mut rand::thread_rng(), numerator, denominator)
}

/// Relies on rand's `Rng::gen_range`, on the thread-local generator: a value in `0..bound`.
/// It panics on an empty range.
#[verifier::external_body]
fn draw_below(bound: usize) -> (r: usize)
    requires
        0 < bound,
    ensures
        r < bound,
{
    rand::Rng::gen_range(&mut rand::thread_rng(), 0..bound)
}

proof fn lemma_same_cells_wf(a: Game, b: Game)
    requires
        a.width == b.width,
        a.height == b.height,
        a.cells() == b.cells(),
    ensures
        a.wf() ==> b.wf(),
        a.won() == b.won(),
{
    assert(a.mine_map() == b.mine_map());
    assert forall|x: int, y: int| b.in_bounds(x, y) implies (#[trigger] b.cell(x, y)) == a.cell(x, y) by {}
    assert forall|x: int, y: int| a.in_bounds(x, y) implies (#[trigger] a.cell(x, y)) == b.cell(x, y) by {}
    if a.wf() {
        assert forall|x: int, y: int| b.in_bounds(x, y) implies (#[trigger] b.cell(x, y)).count() == b.adjacent_mines(x, y) by {
            assert(a.cell(x, y) == b.cell(x, y));
        }
    }
}

proof fn lemma_same_cells_flood(a: Game, b: Game, old: Game, x: int, y: int)
    requires
        a.width == b.width,
        a.height == b.height,
        a.cells() == b.cells(),
    ensures
        a.opened_from(&old) ==> b.opened_from(&old),
        a.spread(&old, Seq::empty(), -1, -1) ==> b.spread(&old, Seq::empty(), -1, -1),
        a.reached_from(&old, x, y) ==> b.reached_from(&old, x, y),
{
    assert forall|i: int, j: int| (#[trigger] b.cell(i, j)) == a.cell(i, j) by {}
    assert forall|i: int, j: int| #[trigger] b.newly_opened(&old, i, j) == a.newly_opened(&old, i, j) by {}
    if a.reached_from(&old, x, y) {
        let rank = choose|rank: spec_fn(int, int) -> nat| #[trigger] a.ranked(&old, x, y, rank);
        assert forall|qx: int, qy: int|
            b.in_bounds(qx, qy) && #[trigger] b.newly_opened(&old, qx, qy) && !(qx == x && qy == y) implies exists|
                zx: int,
                zy: int,
            |
                b.in_bounds(zx, zy) && adjacent(zx, zy, qx, qy) && #[trigger] b.newly_opened(&old, zx, zy)
                    && b.cell(zx, zy).count() == 0 && rank(zx, zy) < rank(qx, qy) by {
            assert(a.newly_opened(&old, qx, qy));
            let (zx, zy) = choose|zx: int, zy: int|
                a.in_bounds(zx, zy) && adjacent(zx, zy, qx, qy) && #[trigger] a.newly_opened(&old, zx, zy)
                    && a.cell(zx, zy).count() == 0 && rank(zx, zy) < rank(qx, qy);
            assert(b.newly_opened(&old, zx, zy));
        }
        assert(b.ranked(&old, x, y, rank));
    }
}

/// A flag on a cell without a mine keeps a game from being won, whatever the other cells hold.
pub proof fn lemma_misplaced_flag_blocks_win(g: Game, x: int, y: int)
    requires
        g.in_bounds(x, y),
        g.cell(x, y).state() == CellInteraction::Flagged,
        !g.cell(x, y).mine(),
    ensures
        !g.won(),
        g.checked_status(GameStatus::OnGoing) == GameStatus::OnGoing,
{
}

proof fn lemma_spread_step(after: Game, before: Game, q: Position, r: Position)
    requires
        after.opened_from(&before),
        after.spread(&before, Seq::empty(), -1, -1),
        before.in_bounds(q.x as int, q.y as int),
        before.in_bounds(r.x as int, r.y as int),
        before.cell(q.x as int, q.y as int).state() == CellInteraction::Closed,
        before.cell(q.x as int, q.y as int).count() == 0,
        after.cell(q.x as int, q.y as int).state() == CellInteraction::Opened,
        before.cell(r.x as int, r.y as int).state() == CellInteraction::Closed,
        adjacent(q.x as int, q.y as int, r.x as int, r.y as int),
    ensures
        after.cell(r.x as int, r.y as int).state() == CellInteraction::Opened,
{
    before.cell(q.x as int, q.y as int).lemma_with_state(CellInteraction::Opened);
    before.cell(r.x as int, r.y as int).lemma_with_state(CellInteraction::Opened);
    assert(after.cell(q.x as int, q.y as int).count() == 0);
    assert(after.cell(r.x as int, r.y as int).state() != CellInteraction::Closed);
}

proof fn lemma_chain_opened(after: Game, before: Game, path: Seq<Position>)
    requires
        path.len() > 0,
        after.opened_from(&before),
        after.spread(&before, Seq::empty(), -1, -1),
        after.cell(path[0].x as int, path[0].y as int).state() == CellInteraction::Opened,
        forall|k: int| 0 <= k < path.len() ==> before.in_bounds((#[trigger] path[k]).x as int, path[k].y as int)
            && before.cell(path[k].x as int, path[k].y as int).state() == CellInteraction::Closed,
        forall|k: int| 0 <= k < path.len() - 1 ==> before.cell((#[trigger] path[k]).x as int, path[k].y as int).count() == 0
            && adjacent(path[k].x as int, path[k].y as int, path[k + 1].x as int, path[k + 1].y as int),
    ensures
        forall|k: int| 0 <= k < path.len() ==> after.cell((#[trigger] path[k]).x as int, path[k].y as int).state()
            == CellInteraction::Opened,
    decreases path.len(),
{
    let n = path.len();
    if n > 1 {
        let front = path.drop_last();
        assert forall|k: int| 0 <= k < front.len() implies #[trigger] front[k] == path[k] by {}
        assert forall|k: int| 0 <= k < front.len() - 1 implies before.cell((#[trigger] front[k]).x as int, front[k].y as int).count() == 0
            && adjacent(front[k].x as int, front[k].y as int, front[k + 1].x as int, front[k + 1].y as int) by {
            assert(front[k] == path[k] && front[k + 1] == path[k + 1]);
        }
        lemma_chain_opened(after, before, front);
        let q = path[n - 2];
        assert(front[n - 2] == q);
        lemma_spread_step(after, before, q, path[n - 1]);
        assert forall|k: int| 0 <= k < path.len() implies after.cell((#[trigger] path[k]).x as int, path[k].y as int).state()
            == CellInteraction::Opened by {
            if k < n - 1 {
                assert(front[k] == path[k]);
            }
        }
    }
}

/// Flagging a closed cell of a game in play and then taking the flag off gives back the same
/// game, when the flag did not end the game.
pub proof fn lemma_flag_unflag_restores(g0: Game, g1: Game, g2: Game, x: int, y: int)
    requires
        g0.wf(),
        g0.in_bounds(x, y),
        g0.status == GameStatus::OnGoing,
        g0.cell(x, y).state() == CellInteraction::Closed,
        g1.moved(&g0, x, y, CellInteraction::Flagged),
        g1.status == g1.checked_status(g0.status),
        g1.status == GameStatus::OnGoing,
        g2.moved(&g1, x, y, CellInteraction::Closed),
        g2.status == g2.checked_status(g1.status),
    ensures
        g2.unchanged(&g0),
{
    let c = g0.cell(x, y);
    c.lemma_with_state(CellInteraction::Flagged);
    c.lemma_with_state(CellInteraction::Closed);
    assert(g1.cell(x, y) == c.with_state(CellInteraction::Flagged));
    assert(g2.cells() =~= g0.cells()) by {
        assert(g2.cells()[y] =~= g0.cells()[y]);
    }
    assert(!g2.won()) by {
        assert(g2.cell(x, y) == g0.cell(x, y));
    }
}

/// Opening a closed cell without a mine, in a game in play, opens every cell that a chain of
/// closed cells leads to from it, each a neighbour of the one before, and each but the last
/// with count 0.
pub proof fn lemma_flood_reaches(after: Game, before: Game, path: Seq<Position>)
    requires
        path.len() > 0,
        before.status == GameStatus::OnGoing,
        !before.cell(path[0].x as int, path[0].y as int).mine(),
        after.open_result(&before, path[0].x as int, path[0].y as int),
        forall|k: int| 0 <= k < path.len() ==> before.in_bounds((#[trigger] path[k]).x as int, path[k].y as int)
            && before.cell(path[k].x as int, path[k].y as int).state() == CellInteraction::Closed,
        forall|k: int| 0 <= k < path.len() - 1 ==> before.cell((#[trigger] path[k]).x as int, path[k].y as int).count() == 0
            && adjacent(path[k].x as int, path[k].y as int, path[k + 1].x as int, path[k + 1].y as int),
    ensures
        forall|k: int| 0 <= k < path.len() ==> after.cell((#[trigger] path[k]).x as int, path[k].y as int).state()
            == CellInteraction::Opened,
{
    assert(before.cell(path[0].x as int, path[0].y as int).state() == CellInteraction::Closed);
    lemma_chain_opened(after, before, path);
}

/// `rank` with `(x, y)` given rank `k`.
pub open spec fn bump(rank: spec_fn(int, int) -> nat, x: int, y: int, k: nat) -> spec_fn(int, int) -> nat {
    |a: int, b: int| if a == x && b == y { k } else { rank(a, b) }
}

/// `a` comes before `b` when positions are taken column by column, top to bottom.
pub open spec fn column_order(a: Position, b: Position) -> bool {
    a.x < b.x || (a.x == b.x && a.y < b.y)
}

/// Whether `(x, y)` stands in `ps`.
pub open spec fn listed(ps: Seq<Position>, x: int, y: int) -> bool {
    exists|i: int| 0 <= i < ps.len() && (#[trigger] ps[i]).x == x && ps[i].y == y
}

proof fn lemma_row_zero(row: Seq<bool>, x0: int, x1: int)
    requires
        row_count(row, x0, x1) == 0,
    ensures
        forall|x: int| x0 <= x < x1 ==> !(#[trigger] row[x]),
    decreases x1 - x0,
{
    if x1 > x0 {
        lemma_row_zero(row, x0, x1 - 1);
    }
}

pub(crate) proof fn lemma_rect_zero(m: Seq<Seq<bool>>, x0: int, x1: int, y0: int, y1: int)
    requires
        rect_count(m, x0, x1, y0, y1) == 0,
    ensures
        forall|x: int, y: int| x0 <= x < x1 && y0 <= y < y1 ==> !(#[trigger] m[y][x]),
    decreases y1 - y0,
{
    if y1 > y0 {
        lemma_rect_zero(m, x0, x1, y0, y1 - 1);
        lemma_row_zero(m[y1 - 1], x0, x1);
    }
}

proof fn lemma_row_clear(row: Seq<bool>, x0: int, x1: int, k: int)
    requires
        0 <= x0 <= k < x1 <= row.len(),
        row[k],
    ensures
        row_count(row.update(k, false), x0, x1) + 1 == row_count(row, x0, x1),
    decreases x1 - x0,
{
    if k < x1 - 1 {
        lemma_row_clear(row, x0, x1 - 1, k);
    } else {
        lemma_row_same(row, row.update(k, false), x0, x1 - 1);
    }
}

proof fn lemma_row_same(a: Seq<bool>, b: Seq<bool>, x0: int, x1: int)
    requires
        forall|x: int| x0 <= x < x1 ==> a[x] == b[x],
    ensures
        row_count(a, x0, x1) == row_count(b, x0, x1),
    decreases x1 - x0,
{
    if x1 > x0 {
        lemma_row_same(a, b, x0, x1 - 1);
    }
}

proof fn lemma_rect_same(a: Seq<Seq<bool>>, b: Seq<Seq<bool>>, x0: int, x1: int, y0: int, y1: int)
    requires
        forall|y: int| y0 <= y < y1 ==> a[y] == b[y],
    ensures
        rect_count(a, x0, x1, y0, y1) == rect_count(b, x0, x1, y0, y1),
    decreases y1 - y0,
{
    if y1 > y0 {
        lemma_rect_same(a, b, x0, x1, y0, y1 - 1);
    }
}

proof fn lemma_rect_clear(m: Seq<Seq<bool>>, x0: int, x1: int, y0: int, y1: int, kx: int, ky: int)
    requires
        0 <= x0 <= kx < x1 <= m[ky].len(),
        0 <= y0 <= ky < y1 <= m.len(),
        m[ky][kx],
    ensures
        rect_count(m.update(ky, m[ky].update(kx, false)), x0, x1, y0, y1) + 1 == rect_count(m, x0, x1, y0, y1),
    decreases y1 - y0,
{
    let m2 = m.update(ky, m[ky].update(kx, false));
    assert(m2[y1 - 1] == m[y1 - 1] || y1 - 1 == ky);
    if ky < y1 - 1 {
        lemma_rect_clear(m, x0, x1, y0, y1 - 1, kx, ky);
    } else {
        lemma_rect_same(m, m2, x0, x1, y0, y1 - 1);
        lemma_row_clear(m[ky], x0, x1, kx);
    }
}

/// A game: the board, its size and how play stands.
pub struct Game {
    pub grid: Grid,
    pub status: GameStatus,
    pub width: usize,
    pub height: usize,
}

impl Game {
    pub open spec fn cells(&self) -> Seq<Seq<Cell>> {
        self.grid.rows()
    }

    pub open spec fn cell(&self, x: int, y: int) -> Cell {
        self.cells()[y][x]
    }

    pub open spec fn in_bounds(&self, x: int, y: int) -> bool {
        0 <= x < self.width && 0 <= y < self.height
    }

    /// Where the mines are, row by row.
    pub open spec fn mine_map(&self) -> Seq<Seq<bool>> {
        self.cells().map_values(|r: Seq<Cell>| r.map_values(|c: Cell| c.mine()))
    }

    /// Which cells are in the given state, row by row.
    pub open spec fn state_map(&self, s: CellInteraction) -> Seq<Seq<bool>> {
        self.cells().map_values(|r: Seq<Cell>| r.map_values(|c: Cell| c.state() == s))
    }

    /// The number of mines around `(x, y)`, the cell itself included.
    pub open spec fn adjacent_mines(&self, x: int, y: int) -> nat {
        nbhd_count(self.mine_map(), self.width as int, self.height as int, x, y)
    }

    /// The board has `height` rows of `width` cells.
    pub open spec fn shaped(&self) -> bool {
        &&& self.cells().len() == self.height
        &&& forall|y: int| 0 <= y < self.height ==> #[trigger] self.cells()[y].len() == self.width
    }

    /// The board is shaped, and every count is the number of mines around its cell.
    pub open spec fn wf(&self) -> bool {
        &&& self.shaped()
        &&& forall|x: int, y: int|
            self.in_bounds(x, y) ==> (#[trigger] self.cell(x, y)).count() == self.adjacent_mines(x, y)
    }

    /// `self` is `old` with the cell at `(x, y)` replaced by `c`.
    pub open spec fn replaced(&self, old: &Game, x: int, y: int, c: Cell) -> bool {
        &&& self.width == old.width
        &&& self.height == old.height
        &&& self.status == old.status
        &&& self.cells() == old.cells().update(y, old.cells()[y].update(x, c))
    }

    pub fn grid(&self) -> (r: &Grid)
        ensures
            r == &self.grid,
    {
        &self.grid
    }

    /// The board drawn one row per line, as `board_text` gives it.
    pub fn render(&self) -> (r: String)
        requires
            self.wf(),
        ensures
            r@ == board_text(self.cells(), self.height as int),
    {
        let mut out: Vec<char> = Vec::new();
        let mut i: usize = 0;
        while i < self.height
            invariant
                self.wf(),
                i <= self.height,
                out@ == board_text(self.cells(), i as int),
            decreases self.height - i,
        {
            let row = &self.grid.0[i];
            assert(row@ == self.cells()[i as int]);
            let ghost done = out@;
            let mut j: usize = 0;
            while j < row.len()
                invariant
                    self.wf(),
                    i < self.height,
                    j <= row@.len(),
                    row@ == self.cells()[i as int],
                    done == board_text(self.cells(), i as int),
                    out@ == done + row@.subrange(0, j as int).map_values(|c: Cell| glyph(c)),
                decreases row@.len() - j,
            {
                assert(row@[j as int] == self.cell(j as int, i as int));
                out.push(row[j].render());
                assert(row@.subrange(0, j + 1).map_values(|c: Cell| glyph(c)) =~= row@.subrange(0, j as int).map_values(|c: Cell| glyph(c)).push(glyph(row@[j as int])));
                assert(out@ =~= done + row@.subrange(0, j + 1).map_values(|c: Cell| glyph(c)));
                j = j + 1;
            }
            out.push('\n');
            assert(row@.subrange(0, row@.len() as int) =~= row@);
            assert(out@ =~= board_text(self.cells(), i + 1));
            i = i + 1;
        }
        string_of(&out)
    }

    /// Counts, around `(x, y)`, the mines, the flagged cells and the closed cells.
    pub(crate) fn tally(&self, x: usize, y: usize) -> (r: (u8, u8, u8))
        requires
            self.shaped(),
            self.in_bounds(x as int, y as int),
        ensures
            r.0 == nbhd_count(self.mine_map(), self.width as int, self.height as int, x as int, y as int),
            r.1 == nbhd_count(self.state_map(CellInteraction::Flagged), self.width as int, self.height as int, x as int, y as int),
            r.2 == nbhd_count(self.state_map(CellInteraction::Closed), self.width as int, self.height as int, x as int, y as int),
            r.0 <= 9,
            r.1 <= 9,
            r.2 <= 9,
    {
        let ghost mm = self.mine_map();
        let ghost fm = self.state_map(CellInteraction::Flagged);
        let ghost cm = self.state_map(CellInteraction::Closed);
        let x0: usize = if x > 0 { x - 1 } else { 0 };
        let x1: usize = if x + 1 < self.width { x + 2 } else { self.width };
        let y0: usize = if y > 0 { y - 1 } else { 0 };
        let y1: usize = if y + 1 < self.height { y + 2 } else { self.height };
        let mut mines: u8 = 0;
        let mut flags: u8 = 0;
        let mut closed: u8 = 0;
        let mut ny: usize = y0;
        while ny < y1
            invariant
                self.shaped(),
                mm == self.mine_map(),
                fm == self.state_map(CellInteraction::Flagged),
                cm == self.state_map(CellInteraction::Closed),
                x0 == lo(x as int),
                x1 == hi(x as int, self.width as int),
                y0 == lo(y as int),
                y1 == hi(y as int, self.height as int),
                x1 <= self.width,
                y1 <= self.height,
                x0 <= x1 <= x0 + 3,
                y0 <= ny <= y1 <= y0 + 3,
                mines == rect_count(mm, x0 as int, x1 as int, y0 as int, ny as int),
                flags == rect_count(fm, x0 as int, x1 as int, y0 as int, ny as int),
                closed == rect_count(cm, x0 as int, x1 as int, y0 as int, ny as int),
                mines <= 3 * (ny - y0),
                flags <= 3 * (ny - y0),
                closed <= 3 * (ny - y0),
            decreases y1 - ny,
        {
            let row = &self.grid.0[ny];
            assert(self.cells()[ny as int] == row@);
            let mut nx: usize = x0;
            while nx < x1
                invariant
                    self.shaped(),
                    mm == self.mine_map(),
                    fm == self.state_map(CellInteraction::Flagged),
                    cm == self.state_map(CellInteraction::Closed),
                    mm.len() == self.height,
                    fm.len() == self.height,
                    cm.len() == self.height,
                    x1 <= self.width,
                    ny < self.height,
                    row@ == self.cells()[ny as int],
                    x0 <= nx <= x1 <= x0 + 3,
                    y0 <= ny < y1 <= y0 + 3,
                    mines == rect_count(mm, x0 as int, x1 as int, y0 as int, ny as int) + row_count(mm[ny as int], x0 as int, nx as int),
                    flags == rect_count(fm, x0 as int, x1 as int, y0 as int, ny as int) + row_count(fm[ny as int], x0 as int, nx as int),
                    closed == rect_count(cm, x0 as int, x1 as int, y0 as int, ny as int) + row_count(cm[ny as int], x0 as int, nx as int),
                    mines <= 3 * (ny - y0) + (nx - x0),
                    flags <= 3 * (ny - y0) + (nx - x0),
                    closed <= 3 * (ny - y0) + (nx - x0),
                decreases x1 - nx,
            {
                let c = &row[nx];
                if c.has_mine {
                    mines = mines + 1;
                }
                if c.interaction == CellInteraction::Flagged {
                    flags = flags + 1;
                }
                if c.interaction == CellInteraction::Closed {
                    closed = closed + 1;
                }
                nx = nx + 1;
            }
            ny = ny + 1;
        }
        (mines, flags, closed)
    }

    fn set_counts(&mut self)
        requires
            old(self).shaped(),
        ensures
            final(self).wf(),
            final(self).width == old(self).width,
            final(self).height == old(self).height,
            final(self).status == old(self).status,
            final(self).mine_map() == old(self).mine_map(),
            forall|x: int, y: int|
                old(self).in_bounds(x, y) ==> (#[trigger] final(self).cell(x, y)).state() == old(self).cell(x, y).state(),
    {
        let ghost start = *self;
        let mut i: usize = 0;
        while i < self.height
            invariant
                self.shaped(),
                i <= self.height,
                self.width == start.width,
                self.height == start.height,
                self.status == start.status,
                self.mine_map() == start.mine_map(),
                forall|x: int, y: int|
                    start.in_bounds(x, y) ==> (#[trigger] self.cell(x, y)).state() == start.cell(x, y).state(),
                forall|x: int, y: int|
                    self.in_bounds(x, y) && y < i ==> (#[trigger] self.cell(x, y)).count() == self.adjacent_mines(x, y),
            decreases self.height - i,
        {
            let mut j: usize = 0;
            while j < self.width
                invariant
                    self.shaped(),
                    i < self.height,
                    j <= self.width,
                    self.width == start.width,
                    self.height == start.height,
                    self.status == start.status,
                    self.mine_map() == start.mine_map(),
                    forall|x: int, y: int|
                        start.in_bounds(x, y) ==> (#[trigger] self.cell(x, y)).state() == start.cell(x, y).state(),
                    forall|x: int, y: int|
                        self.in_bounds(x, y) && (y < i || (y == i && x < j)) ==> (#[trigger] self.cell(x, y)).count() == self.adjacent_mines(x, y),
                decreases self.width - j,
            {
                let (m, _, _) = self.tally(j, i);
                let mut c = self.grid.0[i][j];
                assert(c == self.cell(j as int, i as int));
                c.counter = m;
                let ghost before = *self;
                self.set_cell(j, i, c);
                assert(self.mine_map() =~~= before.mine_map());
                assert forall|x: int, y: int| self.in_bounds(x, y) implies (#[trigger] self.cell(x, y)) == (if x == j && y == i { c } else { before.cell(x, y) }) by {
                    assert(self.cells()[y] == before.cells()[y].update(if y == i { j as int } else { x }, if y == i { c } else { before.cells()[y][x] }));
                }
                j = j + 1;
            }
            i = i + 1;
        }
    }

    /// A game on the given layout of mines, every cell closed.
    pub fn from_mines(width: usize, height: usize, mines: &Vec<Vec<bool>>) -> (r: Game)
        requires
            mines@.len() == height,
            forall|y: int| 0 <= y < height ==> (#[trigger] mines@[y])@.len() == width,
        ensures
            r.wf(),
            r.width == width,
            r.height == height,
            r.status == GameStatus::OnGoing,
            forall|x: int, y: int|
                r.in_bounds(x, y) ==> (#[trigger] r.cell(x, y)).state() == CellInteraction::Closed
                    && r.cell(x, y).mine() == mines@[y]@[x],
    {
        let mut rows: Vec<Vec<Cell>> = Vec::new();
        let mut i: usize = 0;
        while i < height
            invariant
                i <= height,
                mines@.len() == height,
                forall|y: int| 0 <= y < height ==> (#[trigger] mines@[y])@.len() == width,
                rows@.len() == i,
                forall|y: int| 0 <= y < i ==> (#[trigger] rows@[y])@.len() == width,
                forall|x: int, y: int|
                    0 <= y < i && 0 <= x < width ==> (#[trigger] rows@[y]@[x]).state() == CellInteraction::Closed
                        && rows@[y]@[x].mine() == mines@[y]@[x],
            decreases height - i,
        {
            let mut row: Vec<Cell> = Vec::new();
            let mut j: usize = 0;
            while j < width
                invariant
                    i < height,
                    j <= width,
                    mines@.len() == height,
                    mines@[i as int]@.len() == width,
                    row@.len() == j,
                    forall|x: int| 0 <= x < j ==> (#[trigger] row@[x]).state() == CellInteraction::Closed
                        && row@[x].mine() == mines@[i as int]@[x],
                decreases width - j,
            {
                row.push(Cell::new(mines[i][j]));
                j = j + 1;
            }
            rows.push(row);
            i = i + 1;
        }
        let mut game = Game { grid: Grid(rows), status: GameStatus::OnGoing, width, height };
        assert forall|y: int| 0 <= y < height implies #[trigger] game.cells()[y].len() == width by {
            assert(game.cells()[y] == rows@[y]@);
        }
        let ghost before = game;
        game.set_counts();
        assert forall|x: int, y: int| game.in_bounds(x, y) implies (#[trigger] game.cell(x, y)).mine() == mines@[y]@[x] by {
            assert(before.cell(x, y) == rows@[y]@[x]);
            assert(game.mine_map()[y][x] == game.cell(x, y).mine());
            assert(before.mine_map()[y][x] == before.cell(x, y).mine());
        }
        game
    }

    /// A `width` by `height` game where each cell holds a mine with chance
    /// `mine_numerator / mine_denominator`, drawn independently; every cell closed.
    pub fn new(width: usize, height: usize, mine_numerator: u32, mine_denominator: u32) -> (r: Game)
        requires
            0 < mine_denominator,
            mine_numerator <= mine_denominator,
        ensures
            r.wf(),
            r.width == width,
            r.height == height,
            r.status == GameStatus::OnGoing,
            forall|x: int, y: int|
                r.in_bounds(x, y) ==> (#[trigger] r.cell(x, y)).state() == CellInteraction::Closed,
            mine_numerator == 0 ==> forall|x: int, y: int|
                r.in_bounds(x, y) ==> !(#[trigger] r.cell(x, y)).mine(),
            mine_numerator == mine_denominator ==> forall|x: int, y: int|
                r.in_bounds(x, y) ==> (#[trigger] r.cell(x, y)).mine(),
    {
        let mut mines: Vec<Vec<bool>> = Vec::new();
        let mut i: usize = 0;
        while i < height
            invariant
                i <= height,
                0 < mine_denominator,
                mine_numerator <= mine_denominator,
                mines@.len() == i,
                forall|y: int| 0 <= y < i ==> (#[trigger] mines@[y])@.len() == width,
                mine_numerator == 0 ==> forall|x: int, y: int|
                    0 <= y < i && 0 <= x < width ==> !(#[trigger] mines@[y]@[x]),
                mine_numerator == mine_denominator ==> forall|x: int, y: int|
                    0 <= y < i && 0 <= x < width ==> (#[trigger] mines@[y]@[x]),
            decreases height - i,
        {
            let mut row: Vec<bool> = Vec::new();
            let mut j: usize = 0;
            while j < width
                invariant
                    j <= width,
                    0 < mine_denominator,
                    mine_numerator <= mine_denominator,
                    row@.len() == j,
                    mine_numerator == 0 ==> forall|x: int| 0 <= x < j ==> !(#[trigger] row@[x]),
                    mine_numerator == mine_denominator ==> forall|x: int| 0 <= x < j ==> (#[trigger] row@[x]),
                decreases width - j,
            {
                row.push(draw_ratio(mine_numerator, mine_denominator));
                j = j + 1;
            }
            mines.push(row);
            i = i + 1;
        }
        Game::from_mines(width, height, &mines)
    }

    /// No cell is closed, and no flag stands on a cell without a mine.
    pub open spec fn won(&self) -> bool {
        forall|x: int, y: int|
            self.in_bounds(x, y) ==> (#[trigger] self.cell(x, y)).state() != CellInteraction::Closed
                && !(self.cell(x, y).state() == CellInteraction::Flagged && !self.cell(x, y).mine())
    }

    /// The status that a win check leaves on this board, coming from `prior`.
    pub open spec fn checked_status(&self, prior: GameStatus) -> GameStatus {
        if prior != GameStatus::Lose && self.won() {
            GameStatus::Win
        } else {
            prior
        }
    }

    /// `self` is `old` with the cell at `(x, y)` set to `s`, the status left aside.
    pub open spec fn moved(&self, old: &Game, x: int, y: int, s: CellInteraction) -> bool {
        &&& self.width == old.width
        &&& self.height == old.height
        &&& self.cells() == old.cells().update(y, old.cells()[y].update(x, old.cell(x, y).with_state(s)))
    }

    /// `self` and `old` are the same game.
    pub open spec fn unchanged(&self, old: &Game) -> bool {
        &&& self.width == old.width
        &&& self.height == old.height
        &&& self.status == old.status
        &&& self.cells() == old.cells()
    }

    fn set_state(&mut self, x: usize, y: usize, s: CellInteraction)
        requires
            old(self).wf(),
            old(self).in_bounds(x as int, y as int),
        ensures
            final(self).wf(),
            final(self).moved(old(self), x as int, y as int, s),
            final(self).status == old(self).status,
            forall|i: int, j: int|
                old(self).in_bounds(i, j) ==> (#[trigger] final(self).cell(i, j)) == (if i == x && j == y {
                    old(self).cell(i, j).with_state(s)
                } else {
                    old(self).cell(i, j)
                }),
    {
        let ghost before = *self;
        assert(self.cells()[y as int] == self.grid.0@[y as int]@);
        let mut c = self.grid.0[y][x];
        match s {
            CellInteraction::Opened => c.open(),
            CellInteraction::Flagged => c.flag(),
            CellInteraction::Closed => c.unflag(),
        }
        assert(c == before.cell(x as int, y as int).with_state(s));
        self.set_cell(x, y, c);
        proof {
            before.cell(x as int, y as int).lemma_with_state(s);
        }
        assert forall|i: int, j: int| before.in_bounds(i, j) implies (#[trigger] self.cell(i, j)) == (if i == x && j == y {
            before.cell(i, j).with_state(s)
        } else {
            before.cell(i, j)
        }) by {
            assert(self.cells()[j] == before.cells()[j].update(if j == y { x as int } else { i }, if j == y { c } else { before.cells()[j][i] }));
        }
        assert(self.mine_map() =~~= before.mine_map()) by {
            assert forall|j: int| 0 <= j < self.height implies #[trigger] self.mine_map()[j] =~~= before.mine_map()[j] by {
                assert forall|i: int| 0 <= i < self.width implies #[trigger] self.mine_map()[j][i] == before.mine_map()[j][i] by {
                    assert(self.cell(i, j).mine() == before.cell(i, j).mine());
                }
            }
        }
        assert forall|i: int, j: int| self.in_bounds(i, j) implies (#[trigger] self.cell(i, j)).count() == self.adjacent_mines(i, j) by {
            assert(before.cell(i, j).count() == before.adjacent_mines(i, j));
        }
    }

    /// Declares a win when no cell is closed and every flag stands on a mine; a lost game stays lost.
    pub fn check_win(&mut self)
        requires
            old(self).shaped(),
        ensures
            final(self).width == old(self).width,
            final(self).height == old(self).height,
            final(self).cells() == old(self).cells(),
            final(self).status == final(self).checked_status(old(self).status),
            old(self).wf() ==> final(self).wf(),
    {
        let ghost start = *self;
        proof {
            lemma_same_cells_wf(start, *self);
        }
        if self.status == GameStatus::Lose {
            return;
        }
        let mut i: usize = 0;
        while i < self.height
            invariant
                self.shaped(),
                i <= self.height,
                forall|x: int, y: int|
                    self.in_bounds(x, y) && y < i ==> (#[trigger] self.cell(x, y)).state() != CellInteraction::Closed
                        && !(self.cell(x, y).state() == CellInteraction::Flagged && !self.cell(x, y).mine()),
            decreases self.height - i,
        {
            let row = &self.grid.0[i];
            assert(row@ == self.cells()[i as int]);
            let mut j: usize = 0;
            while j < self.width
                invariant
                    self.shaped(),
                    i < self.height,
                    j <= self.width,
                    row@ == self.cells()[i as int],
                    forall|x: int, y: int|
                        self.in_bounds(x, y) && (y < i || (y == i && x < j)) ==> (#[trigger] self.cell(x, y)).state() != CellInteraction::Closed
                            && !(self.cell(x, y).state() == CellInteraction::Flagged && !self.cell(x, y).mine()),
                decreases self.width - j,
            {
                let cell = &row[j];
                if cell.interaction == CellInteraction::Closed
                    || (cell.interaction == CellInteraction::Flagged && !cell.has_mine) {
                    assert(cell == self.cell(j as int, i as int));
                    return;
                }
                j = j + 1;
            }
            i = i + 1;
        }
        self.status = GameStatus::Win;
        proof {
            lemma_same_cells_wf(start, *self);
        }
    }

    /// Flags a closed cell; any other cell is left as it is.
    pub fn flag(&mut self, position: &Position)
        requires
            old(self).wf(),
            old(self).in_bounds(position.x as int, position.y as int),
        ensures
            final(self).wf(),
            old(self).cell(position.x as int, position.y as int).state() == CellInteraction::Closed ==> {
                &&& final(self).moved(old(self), position.x as int, position.y as int, CellInteraction::Flagged)
                &&& final(self).status == final(self).checked_status(old(self).status)
            },
            old(self).cell(position.x as int, position.y as int).state() != CellInteraction::Closed ==> final(self).unchanged(old(self)),
    {
        assert(self.cells()[position.y as int] == self.grid.0@[position.y as int]@);
        if self.grid.0[position.y][position.x].interaction == CellInteraction::Closed {
            self.set_state(position.x, position.y, CellInteraction::Flagged);
            self.check_win();
        }
    }

    /// Takes the flag off a flagged cell; any other cell is left as it is.
    pub fn unflag(&mut self, position: Position)
        requires
            old(self).wf(),
            old(self).in_bounds(position.x as int, position.y as int),
        ensures
            final(self).wf(),
            old(self).cell(position.x as int, position.y as int).state() == CellInteraction::Flagged ==> {
                &&& final(self).moved(old(self), position.x as int, position.y as int, CellInteraction::Closed)
                &&& final(self).status == final(self).checked_status(old(self).status)
            },
            old(self).cell(position.x as int, position.y as int).state() != CellInteraction::Flagged ==> final(self).unchanged(old(self)),
    {
        assert(self.cells()[position.y as int] == self.grid.0@[position.y as int]@);
        if self.grid.0[position.y][position.x].interaction == CellInteraction::Flagged {
            self.set_state(position.x, position.y, CellInteraction::Closed);
            self.check_win();
        }
    }

    /// Opens every cell.
    pub fn open_all(&mut self)
        requires
            old(self).wf(),
        ensures
            final(self).wf(),
            final(self).width == old(self).width,
            final(self).height == old(self).height,
            final(self).status == old(self).status,
            forall|x: int, y: int|
                old(self).in_bounds(x, y) ==> (#[trigger] final(self).cell(x, y)) == old(self).cell(x, y).with_state(CellInteraction::Opened),
    {
        let ghost start = *self;
        let mut i: usize = 0;
        while i < self.height
            invariant
                self.wf(),
                i <= self.height,
                self.width == start.width,
                self.height == start.height,
                self.status == start.status,
                forall|x: int, y: int|
                    self.in_bounds(x, y) ==> (#[trigger] self.cell(x, y)) == if y < i {
                        start.cell(x, y).with_state(CellInteraction::Opened)
                    } else {
                        start.cell(x, y)
                    },
            decreases self.height - i,
        {
            let mut j: usize = 0;
            while j < self.width
                invariant
                    self.wf(),
                    i < self.height,
                    j <= self.width,
                    self.width == start.width,
                    self.height == start.height,
                    self.status == start.status,
                    forall|x: int, y: int|
                        self.in_bounds(x, y) ==> (#[trigger] self.cell(x, y)) == if y < i || (y == i && x < j) {
                            start.cell(x, y).with_state(CellInteraction::Opened)
                        } else {
                            start.cell(x, y)
                        },
                decreases self.width - j,
            {
                self.set_state(j, i, CellInteraction::Opened);
                j = j + 1;
            }
            i = i + 1;
        }
    }

    /// The cells around `position`, itself included, column by column.
    pub fn neighbors(&self, position: &Position) -> (r: Vec<Position>)
        requires
            self.in_bounds(position.x as int, position.y as int),
        ensures
            forall|i: int| 0 <= i < r@.len() ==> self.in_bounds((#[trigger] r@[i]).x as int, r@[i].y as int)
                && adjacent(position.x as int, position.y as int, r@[i].x as int, r@[i].y as int),
            forall|x: int, y: int|
                self.in_bounds(x, y) && adjacent(position.x as int, position.y as int, x, y) ==> #[trigger] listed(r@, x, y),
            forall|i: int, j: int| 0 <= i < j < r@.len() ==> column_order(#[trigger] r@[i], #[trigger] r@[j]),
            r@.no_duplicates(),
            r@.len() == (hi(position.x as int, self.width as int) - lo(position.x as int)) * (hi(
                position.y as int,
                self.height as int,
            ) - lo(position.y as int)),
            r@.len() <= 9,
    {
        let mut r: Vec<Position> = Vec::new();
        let px = position.x;
        let py = position.y;
        let x0: usize = if px > 0 { px - 1 } else { 0 };
        let x1: usize = if px + 1 < self.width { px + 2 } else { self.width };
        let y0: usize = if py > 0 { py - 1 } else { 0 };
        let y1: usize = if py + 1 < self.height { py + 2 } else { self.height };
        let mut x: usize = x0;
        while x < x1
            invariant
                x0 <= x <= x1 <= x0 + 3,
                x1 <= self.width,
                y0 <= y1 <= y0 + 3,
                y1 <= self.height,
                x0 == lo(px as int),
                x1 == hi(px as int, self.width as int),
                y0 == lo(py as int),
                y1 == hi(py as int, self.height as int),
                r@.len() == (x - x0) * (y1 - y0),
                forall|i: int, j: int| 0 <= i < j < r@.len() ==> column_order(#[trigger] r@[i], #[trigger] r@[j]),
                forall|i: int| 0 <= i < r@.len() ==> (#[trigger] r@[i]).x < x,
                forall|i: int| 0 <= i < r@.len() ==> self.in_bounds((#[trigger] r@[i]).x as int, r@[i].y as int)
                    && adjacent(px as int, py as int, r@[i].x as int, r@[i].y as int),
                forall|a: int, b: int|
                    x0 <= a < x && y0 <= b < y1 ==> #[trigger] listed(r@, a, b),
            decreases x1 - x,
        {
            let mut y: usize = y0;
            while y < y1
                invariant
                    x0 <= x < x1 <= x0 + 3,
                    x1 <= self.width,
                    y0 <= y <= y1 <= y0 + 3,
                    y1 <= self.height,
                    x0 == lo(px as int),
                    x1 == hi(px as int, self.width as int),
                    y0 == lo(py as int),
                    y1 == hi(py as int, self.height as int),
                    r@.len() == (x - x0) * (y1 - y0) + (y - y0),
                    forall|i: int, j: int| 0 <= i < j < r@.len() ==> column_order(#[trigger] r@[i], #[trigger] r@[j]),
                    forall|i: int| 0 <= i < r@.len() ==> (#[trigger] r@[i]).x < x || (r@[i].x == x && r@[i].y < y),
                    forall|i: int| 0 <= i < r@.len() ==> self.in_bounds((#[trigger] r@[i]).x as int, r@[i].y as int)
                        && adjacent(px as int, py as int, r@[i].x as int, r@[i].y as int),
                    forall|a: int, b: int|
                        (x0 <= a < x && y0 <= b < y1) || (a == x && y0 <= b < y) ==> #[trigger] listed(r@, a, b),
                decreases y1 - y,
            {
                let ghost before = r@;
                r.push(Position::new(x, y));
                assert forall|a: int, b: int|
                    (x0 <= a < x && y0 <= b < y1) || (a == x && y0 <= b < y + 1) implies #[trigger] listed(r@, a, b) by {
                    if a == x && b == y {
                        assert(r@[r@.len() - 1].x == a && r@[r@.len() - 1].y == b);
                    } else {
                        assert(listed(before, a, b));
                        let i = choose|i: int| 0 <= i < before.len() && (#[trigger] before[i]).x == a && before[i].y == b;
                        assert(r@[i] == before[i]);
                    }
                }
                assert forall|i: int, j: int| 0 <= i < j < r@.len() implies column_order(#[trigger] r@[i], #[trigger] r@[j]) by {
                    if j < r@.len() - 1 {
                        assert(r@[i] == before[i] && r@[j] == before[j]);
                    } else {
                        assert(r@[i] == before[i]);
                    }
                }
                assert forall|i: int| 0 <= i < r@.len() implies (#[trigger] r@[i]).x < x || (r@[i].x == x && r@[i].y < y + 1) by {
                    if i < r@.len() - 1 {
                        assert(r@[i] == before[i]);
                    }
                }
                y = y + 1;
            }
            assert((x - x0) * (y1 - y0) + (y1 - y0) == (x + 1 - x0) * (y1 - y0)) by (nonlinear_arith);
            x = x + 1;
        }
        assert(r@.no_duplicates()) by {
            assert forall|i: int, j: int| 0 <= i < r@.len() && 0 <= j < r@.len() && i != j implies r@[i] != r@[j] by {
                if i < j {
                    assert(column_order(r@[i], r@[j]));
                } else {
                    assert(column_order(r@[j], r@[i]));
                }
            }
        }
        assert((x1 - x0) * (y1 - y0) <= 9) by (nonlinear_arith)
            requires
                0 <= x1 - x0 <= 3,
                0 <= y1 - y0 <= 3,
        ;
        r
    }

    /// `(x, y)` was not open in `old` and is open in `self`.
    pub open spec fn newly_opened(&self, old: &Game, x: int, y: int) -> bool {
        old.cell(x, y).state() != CellInteraction::Opened && self.cell(x, y).state() == CellInteraction::Opened
    }

    /// `self` is `old` with some closed cells without a mine opened, and nothing else changed.
    pub open spec fn opened_from(&self, old: &Game) -> bool {
        &&& self.width == old.width
        &&& self.height == old.height
        &&& forall|x: int, y: int|
            old.in_bounds(x, y) ==> (#[trigger] self.cell(x, y)) == old.cell(x, y) || (old.cell(x, y).state()
                == CellInteraction::Closed && !old.cell(x, y).mine() && self.cell(x, y) == old.cell(x, y).with_state(
                CellInteraction::Opened))
    }

    /// No cell is closed next to a cell that was opened since `old` and has count 0, except
    /// around `(sx, sy)` and the cells of `pending`.
    pub open spec fn spread(&self, old: &Game, pending: Seq<Position>, sx: int, sy: int) -> bool {
        forall|qx: int, qy: int, nx: int, ny: int|
            #![trigger self.cell(qx, qy), self.cell(nx, ny)]
            self.in_bounds(qx, qy) && self.newly_opened(old, qx, qy) && self.cell(qx, qy).count() == 0
                && !listed(pending, qx, qy) && !(qx == sx && qy == sy) && self.in_bounds(nx, ny) && adjacent(
                qx,
                qy,
                nx,
                ny,
            ) ==> self.cell(nx, ny).state() != CellInteraction::Closed
    }

    /// Every cell opened since `old`, but `(x, y)`, lies next to a cell opened since `old`
    /// that has count 0 and a lower `rank`.
    pub open spec fn ranked(&self, old: &Game, x: int, y: int, rank: spec_fn(int, int) -> nat) -> bool {
        forall|qx: int, qy: int|
            self.in_bounds(qx, qy) && #[trigger] self.newly_opened(old, qx, qy) && !(qx == x && qy == y) ==> exists|
                zx: int,
                zy: int,
            |
                self.in_bounds(zx, zy) && adjacent(zx, zy, qx, qy) && #[trigger] self.newly_opened(old, zx, zy)
                    && self.cell(zx, zy).count() == 0 && rank(zx, zy) < rank(qx, qy)
    }

    /// Every cell opened since `old` is reached from `(x, y)` by a chain of neighbouring cells
    /// opened since `old`, each but the last with count 0: the ranks fall along such a chain.
    pub open spec fn reached_from(&self, old: &Game, x: int, y: int) -> bool {
        exists|rank: spec_fn(int, int) -> nat| #[trigger] self.ranked(old, x, y, rank)
    }

    /// `self` is what opening `(x, y)` makes of `old`.
    ///
    /// A finished game, or a cell that is not closed, is left as it was. A mine loses the game
    /// and opens every cell. Otherwise the cell is opened, and then, from each newly opened
    /// cell whose count is 0, every closed cell around it; no mine and no flag is touched.
    /// The game is won when that leaves no cell closed and every flag on a mine.
    pub open spec fn open_result(&self, old: &Game, x: int, y: int) -> bool {
        let c = old.cell(x, y);
        if old.status != GameStatus::OnGoing || c.state() != CellInteraction::Closed {
            self.unchanged(old)
        } else if c.mine() {
            &&& self.width == old.width
            &&& self.height == old.height
            &&& self.status == GameStatus::Lose
            &&& forall|i: int, j: int|
                old.in_bounds(i, j) ==> (#[trigger] self.cell(i, j)) == old.cell(i, j).with_state(
                    CellInteraction::Opened,
                )
        } else {
            &&& self.opened_from(old)
            &&& self.cell(x, y).state() == CellInteraction::Opened
            &&& self.spread(old, Seq::empty(), -1, -1)
            &&& self.reached_from(old, x, y)
            &&& c.count() != 0 ==> self.moved(old, x, y, CellInteraction::Opened)
            &&& self.status == self.checked_status(GameStatus::OnGoing)
        }
    }

    /// Opens a cell; see `open_result`.
    pub fn open(&mut self, position: &Position)
        requires
            old(self).wf(),
            old(self).in_bounds(position.x as int, position.y as int),
        ensures
            final(self).wf(),
            final(self).open_result(old(self), position.x as int, position.y as int),
    {
        if self.status != GameStatus::OnGoing {
            return;
        }
        assert(self.cells()[position.y as int] == self.grid.0@[position.y as int]@);
        let c = self.grid.0[position.y][position.x];
        assert(c == self.cell(position.x as int, position.y as int));
        if c.interaction != CellInteraction::Closed {
            return;
        }
        let ghost start = *self;
        if c.has_mine {
            self.status = GameStatus::Lose;
            proof {
                lemma_same_cells_wf(start, *self);
            }
            self.open_all();
            return;
        } else if c.counter == 0 {
            self.reveal_from(position);
        } else {
            self.set_state(position.x, position.y, CellInteraction::Opened);
            proof {
                c.lemma_with_state(CellInteraction::Opened);
                assert forall|x: int, y: int| start.in_bounds(x, y) implies (#[trigger] self.cell(x, y)) == start.cell(x, y) || (start.cell(x, y).state()
                    == CellInteraction::Closed && !start.cell(x, y).mine() && self.cell(x, y) == start.cell(x, y).with_state(
                    CellInteraction::Opened)) by {}
                assert forall|x: int, y: int| self.in_bounds(x, y) && #[trigger] self.newly_opened(&start, x, y) implies x == position.x && y == position.y by {}
                let rank = |a: int, b: int| 0nat;
                assert(self.ranked(&start, position.x as int, position.y as int, rank));
            }
        }
        let ghost mid = *self;
        self.check_win();
        proof {
            lemma_same_cells_flood(mid, *self, start, position.x as int, position.y as int);
        }
    }

    /// Opens a closed cell drawn at random, each closed cell being equally likely.
    /// A board with no closed cell is left as it is.
    pub fn open_random(&mut self)
        requires
            old(self).wf(),
        ensures
            final(self).wf(),
            (forall|x: int, y: int|
                old(self).in_bounds(x, y) ==> (#[trigger] old(self).cell(x, y)).state() != CellInteraction::Closed)
                ==> final(self).unchanged(old(self)),
            (exists|x: int, y: int|
                old(self).in_bounds(x, y) && (#[trigger] old(self).cell(x, y)).state() == CellInteraction::Closed)
                ==> exists|x: int, y: int|
                old(self).in_bounds(x, y) && (#[trigger] old(self).cell(x, y)).state() == CellInteraction::Closed
                    && final(self).open_result(old(self), x, y),
    {
        let mut closed: Vec<Position> = Vec::new();
        let mut i: usize = 0;
        while i < self.height
            invariant
                self.wf(),
                i <= self.height,
                forall|k: int| 0 <= k < closed@.len() ==> self.in_bounds((#[trigger] closed@[k]).x as int, closed@[k].y as int)
                    && self.cell(closed@[k].x as int, closed@[k].y as int).state() == CellInteraction::Closed,
                closed@.len() == 0 ==> forall|x: int, y: int|
                    self.in_bounds(x, y) && y < i ==> (#[trigger] self.cell(x, y)).state() != CellInteraction::Closed,
            decreases self.height - i,
        {
            let row = &self.grid.0[i];
            assert(row@ == self.cells()[i as int]);
            let mut j: usize = 0;
            while j < self.width
                invariant
                    self.wf(),
                    i < self.height,
                    j <= self.width,
                    row@ == self.cells()[i as int],
                    forall|k: int| 0 <= k < closed@.len() ==> self.in_bounds((#[trigger] closed@[k]).x as int, closed@[k].y as int)
                        && self.cell(closed@[k].x as int, closed@[k].y as int).state() == CellInteraction::Closed,
                    closed@.len() == 0 ==> forall|x: int, y: int|
                        self.in_bounds(x, y) && (y < i || (y == i && x < j)) ==> (#[trigger] self.cell(x, y)).state() != CellInteraction::Closed,
                decreases self.width - j,
            {
                if row[j].interaction == CellInteraction::Closed {
                    assert(row@[j as int] == self.cell(j as int, i as int));
                    closed.push(Position::new(j, i));
                }
                j = j + 1;
            }
            i = i + 1;
        }
        if closed.len() == 0 {
            return;
        }
        let pick = closed[draw_below(closed.len())];
        self.open(&pick);
    }

    /// The number of closed cells.
    pub open spec fn closed_count(&self) -> nat {
        rect_count(self.state_map(CellInteraction::Closed), 0, self.width as int, 0, self.height as int)
    }

    /// A flood fill from `(px, py)` begun on `start` is under way: the cells of `pending`
    /// and `(sx, sy)` are still to be spread from.
    spec fn flooding(
        &self,
        start: &Game,
        px: int,
        py: int,
        pending: Seq<Position>,
        sx: int,
        sy: int,
        rank: spec_fn(int, int) -> nat,
        next: nat,
    ) -> bool {
        &&& self.wf()
        &&& self.status == start.status
        &&& self.opened_from(start)
        &&& start.in_bounds(px, py)
        &&& self.cell(px, py).state() == CellInteraction::Opened
        &&& forall|i: int| 0 <= i < pending.len() ==> self.in_bounds((#[trigger] pending[i]).x as int, pending[i].y as int)
            && self.newly_opened(start, pending[i].x as int, pending[i].y as int)
            && self.cell(pending[i].x as int, pending[i].y as int).count() == 0
        &&& self.spread(start, pending, sx, sy)
        &&& self.ranked(start, px, py, rank)
        &&& forall|x: int, y: int| self.in_bounds(x, y) && #[trigger] self.newly_opened(start, x, y) ==> rank(x, y) < next
    }

    proof fn lemma_spread_pop(&self, start: &Game, before: Seq<Position>, after: Seq<Position>, q: Position)
        requires
            self.spread(start, before, -1, -1),
            before.len() > 0,
            after == before.drop_last(),
            q == before[before.len() - 1],
        ensures
            self.spread(start, after, q.x as int, q.y as int),
    {
        assert forall|qx: int, qy: int, nx: int, ny: int|
            #![trigger self.cell(qx, qy), self.cell(nx, ny)]
            self.in_bounds(qx, qy) && self.newly_opened(start, qx, qy) && self.cell(qx, qy).count() == 0
                && !listed(after, qx, qy) && !(qx == q.x && qy == q.y) && self.in_bounds(nx, ny) && adjacent(
                qx,
                qy,
                nx,
                ny,
            ) implies self.cell(nx, ny).state() != CellInteraction::Closed by {
            if listed(before, qx, qy) {
                let i = choose|i: int| 0 <= i < before.len() && (#[trigger] before[i]).x == qx && before[i].y == qy;
                if i < after.len() {
                    assert(after[i] == before[i]);
                    assert(listed(after, qx, qy));
                }
            }
        }
    }

    proof fn lemma_pop(
        &self,
        start: &Game,
        px: int,
        py: int,
        before: Seq<Position>,
        after: Seq<Position>,
        q: Position,
        rank: spec_fn(int, int) -> nat,
        next: nat,
    )
        requires
            self.flooding(start, px, py, before, -1, -1, rank, next),
            before.len() > 0,
            after == before.drop_last(),
            q == before[before.len() - 1],
        ensures
            self.flooding(start, px, py, after, q.x as int, q.y as int, rank, next),
            self.in_bounds(q.x as int, q.y as int),
            self.newly_opened(start, q.x as int, q.y as int),
            self.cell(q.x as int, q.y as int).count() == 0,
    {
        self.lemma_spread_pop(start, before, after, q);
        assert forall|i: int| 0 <= i < after.len() implies self.in_bounds((#[trigger] after[i]).x as int, after[i].y as int)
            && self.newly_opened(start, after[i].x as int, after[i].y as int)
            && self.cell(after[i].x as int, after[i].y as int).count() == 0 by {
            assert(after[i] == before[i]);
        }
    }

    proof fn lemma_spread_done(
        &self,
        start: &Game,
        px: int,
        py: int,
        pending: Seq<Position>,
        q: Position,
        rank: spec_fn(int, int) -> nat,
        next: nat,
    )
        requires
            self.flooding(start, px, py, pending, q.x as int, q.y as int, rank, next),
            forall|x: int, y: int|
                self.in_bounds(x, y) && adjacent(q.x as int, q.y as int, x, y) ==> (#[trigger] self.cell(x, y)).state()
                    != CellInteraction::Closed,
        ensures
            self.flooding(start, px, py, pending, -1, -1, rank, next),
    {
        assert forall|qx: int, qy: int, nx: int, ny: int|
            #![trigger self.cell(qx, qy), self.cell(nx, ny)]
            self.in_bounds(qx, qy) && self.newly_opened(start, qx, qy) && self.cell(qx, qy).count() == 0
                && !listed(pending, qx, qy) && !(qx == -1 && qy == -1) && self.in_bounds(nx, ny) && adjacent(
                qx,
                qy,
                nx,
                ny,
            ) implies self.cell(nx, ny).state() != CellInteraction::Closed by {
            if qx == q.x && qy == q.y {
                assert(self.cell(nx, ny).state() != CellInteraction::Closed);
            }
        }
    }

    /// Opens `n`, a neighbour of `q`, if it is closed, and queues it when its count is 0.
    #[verifier::rlimit(50)]
    fn open_step(
        &mut self,
        start: Ghost<Game>,
        px: Ghost<int>,
        py: Ghost<int>,
        q: Position,
        n: Position,
        stack: &mut Vec<Position>,
        rank: Ghost<spec_fn(int, int) -> nat>,
        next: Ghost<nat>,
    )
        requires
            old(self).flooding(&start@, px@, py@, old(stack)@, q.x as int, q.y as int, rank@, next@),
            old(self).in_bounds(q.x as int, q.y as int),
            old(self).newly_opened(&start@, q.x as int, q.y as int),
            old(self).cell(q.x as int, q.y as int).count() == 0,
            old(self).in_bounds(n.x as int, n.y as int),
            adjacent(q.x as int, q.y as int, n.x as int, n.y as int),
            !start@.cell(n.x as int, n.y as int).mine(),
        ensures
            old(self).cell(n.x as int, n.y as int).state() == CellInteraction::Closed ==> final(self).flooding(
                &start@,
                px@,
                py@,
                final(stack)@,
                q.x as int,
                q.y as int,
                bump(rank@, n.x as int, n.y as int, next@),
                next@ + 1,
            ),
            old(self).cell(n.x as int, n.y as int).state() != CellInteraction::Closed ==> final(self).flooding(
                &start@,
                px@,
                py@,
                final(stack)@,
                q.x as int,
                q.y as int,
                rank@,
                next@,
            ),
            final(self).cell(n.x as int, n.y as int).state() != CellInteraction::Closed,
            forall|x: int, y: int|
                old(self).in_bounds(x, y) && (#[trigger] final(self).cell(x, y)).state() == CellInteraction::Closed
                    ==> old(self).cell(x, y).state() == CellInteraction::Closed,
            final(self).closed_count() <= old(self).closed_count(),
            final(self).closed_count() == old(self).closed_count() ==> final(stack)@ == old(stack)@,
    {
        let ghost start = start@;
        let ghost rank = rank@;
        let ghost next = next@;
        let ghost rank2 = bump(rank, n.x as int, n.y as int, next);
        let ghost before = *self;
        let ghost before_stack = stack@;
        assert(self.cells()[n.y as int] == self.grid.0@[n.y as int]@);
        let c = self.grid.0[n.y][n.x];
        assert(c == self.cell(n.x as int, n.y as int));
        if c.interaction != CellInteraction::Closed {
            return;
        }
        self.set_state(n.x, n.y, CellInteraction::Opened);
        proof {
            c.lemma_with_state(CellInteraction::Opened);
            let cm = before.state_map(CellInteraction::Closed);
            let cm2 = cm.update(n.y as int, cm[n.y as int].update(n.x as int, false));
            assert(self.state_map(CellInteraction::Closed) =~~= cm2) by {
                assert forall|j: int| 0 <= j < self.height implies #[trigger] self.state_map(CellInteraction::Closed)[j] =~~= cm2[j] by {
                    assert forall|i: int| 0 <= i < self.width implies #[trigger] self.state_map(CellInteraction::Closed)[j][i] == cm2[j][i] by {
                        assert(self.cell(i, j).state() == before.cell(i, j).state() || (i == n.x && j == n.y));
                    }
                }
            }
            lemma_rect_clear(cm, 0, self.width as int, 0, self.height as int, n.x as int, n.y as int);
            assert(before.cell(n.x as int, n.y as int) == start.cell(n.x as int, n.y as int));
            assert forall|x: int, y: int| start.in_bounds(x, y) implies (#[trigger] self.cell(x, y)) == start.cell(x, y) || (start.cell(x, y).state()
                == CellInteraction::Closed && !start.cell(x, y).mine() && self.cell(x, y) == start.cell(x, y).with_state(
                CellInteraction::Opened)) by {
                assert(before.cell(x, y) == start.cell(x, y) || (start.cell(x, y).state()
                    == CellInteraction::Closed && !start.cell(x, y).mine() && before.cell(x, y) == start.cell(x, y).with_state(
                    CellInteraction::Opened)));
            }
            assert(before.newly_opened(&start, q.x as int, q.y as int));
            assert(rank(q.x as int, q.y as int) < next);
            assert forall|qx: int, qy: int|
                self.in_bounds(qx, qy) && #[trigger] self.newly_opened(&start, qx, qy) && !(qx == px@ && qy == py@) implies exists|
                    zx: int,
                    zy: int,
                |
                    self.in_bounds(zx, zy) && adjacent(zx, zy, qx, qy) && #[trigger] self.newly_opened(&start, zx, zy)
                        && self.cell(zx, zy).count() == 0 && rank2(zx, zy) < rank2(qx, qy) by {
                if qx == n.x && qy == n.y {
                    assert(self.newly_opened(&start, q.x as int, q.y as int));
                    assert(rank2(q.x as int, q.y as int) == rank(q.x as int, q.y as int));
                } else {
                    assert(before.newly_opened(&start, qx, qy));
                    let (zx, zy) = choose|zx: int, zy: int|
                        before.in_bounds(zx, zy) && adjacent(zx, zy, qx, qy) && #[trigger] before.newly_opened(&start, zx, zy)
                            && before.cell(zx, zy).count() == 0 && rank(zx, zy) < rank(qx, qy);
                    assert(self.newly_opened(&start, zx, zy));
                    assert(!(zx == n.x && zy == n.y));
                }
            }
            assert forall|x: int, y: int| self.in_bounds(x, y) && #[trigger] self.newly_opened(&start, x, y) implies rank2(x, y) < next + 1 by {
                if !(x == n.x && y == n.y) {
                    assert(before.newly_opened(&start, x, y));
                }
            }
        }
        if c.counter == 0 {
            stack.push(n);
        }
        proof {
            assert forall|i: int| 0 <= i < before_stack.len() implies #[trigger] stack@[i] == before_stack[i] by {}
            assert forall|i: int| 0 <= i < stack@.len() implies self.in_bounds((#[trigger] stack@[i]).x as int, stack@[i].y as int)
                && self.newly_opened(&start, stack@[i].x as int, stack@[i].y as int)
                && self.cell(stack@[i].x as int, stack@[i].y as int).count() == 0 by {
                if i < before_stack.len() {
                    let r = before_stack[i];
                    assert(before.newly_opened(&start, r.x as int, r.y as int));
                    assert(before.cell(r.x as int, r.y as int) == self.cell(r.x as int, r.y as int) || (r.x == n.x && r.y == n.y));
                }
            }
            assert forall|qx: int, qy: int, nx: int, ny: int|
                #![trigger self.cell(qx, qy), self.cell(nx, ny)]
                self.in_bounds(qx, qy) && self.newly_opened(&start, qx, qy) && self.cell(qx, qy).count() == 0
                    && !listed(stack@, qx, qy) && !(qx == q.x && qy == q.y) && self.in_bounds(nx, ny) && adjacent(
                    qx,
                    qy,
                    nx,
                    ny,
                ) implies self.cell(nx, ny).state() != CellInteraction::Closed by {
                if qx == n.x && qy == n.y {
                    if c.counter == 0 {
                        assert(stack@[stack@.len() - 1] == n);
                    }
                } else {
                    assert(before.newly_opened(&start, qx, qy));
                    assert(before.cell(qx, qy) == self.cell(qx, qy));
                    if listed(before_stack, qx, qy) {
                        let i = choose|i: int| 0 <= i < before_stack.len() && (#[trigger] before_stack[i]).x == qx && before_stack[i].y == qy;
                        assert(stack@[i] == before_stack[i]);
                    }
                    assert(before.cell(nx, ny).state() != CellInteraction::Closed);
                }
            }
        }
    }

    /// Opens the closed, mine-free cell `position` whose count is 0, and then every cell
    /// that the zero counts reach.
    fn reveal_from(&mut self, position: &Position)
        requires
            old(self).wf(),
            old(self).in_bounds(position.x as int, position.y as int),
            old(self).cell(position.x as int, position.y as int).state() == CellInteraction::Closed,
            !old(self).cell(position.x as int, position.y as int).mine(),
            old(self).cell(position.x as int, position.y as int).count() == 0,
        ensures
            final(self).wf(),
            final(self).status == old(self).status,
            final(self).opened_from(old(self)),
            final(self).cell(position.x as int, position.y as int).state() == CellInteraction::Opened,
            final(self).spread(old(self), Seq::empty(), -1, -1),
            final(self).reached_from(old(self), position.x as int, position.y as int),
    {
        let ghost start = *self;
        let ghost px = position.x as int;
        let ghost py = position.y as int;
        self.set_state(position.x, position.y, CellInteraction::Opened);
        let mut stack: Vec<Position> = Vec::new();
        stack.push(*position);
        let ghost mut rank: spec_fn(int, int) -> nat = |a: int, b: int| 0nat;
        let ghost mut next: nat = 1;
        proof {
            start.cell(px, py).lemma_with_state(CellInteraction::Opened);
            assert forall|x: int, y: int| self.in_bounds(x, y) && #[trigger] self.newly_opened(&start, x, y) implies x == px && y == py by {}
            assert forall|x: int, y: int| start.in_bounds(x, y) implies (#[trigger] self.cell(x, y)) == start.cell(x, y) || (start.cell(x, y).state()
                == CellInteraction::Closed && !start.cell(x, y).mine() && self.cell(x, y) == start.cell(x, y).with_state(
                CellInteraction::Opened)) by {}
            assert(stack@[0] == *position);
            assert forall|qx: int, qy: int, nx: int, ny: int|
                #![trigger self.cell(qx, qy), self.cell(nx, ny)]
                self.in_bounds(qx, qy) && self.newly_opened(&start, qx, qy) && self.cell(qx, qy).count() == 0
                    && !listed(stack@, qx, qy) && !(qx == -1 && qy == -1) && self.in_bounds(nx, ny) && adjacent(
                    qx,
                    qy,
                    nx,
                    ny,
                ) implies self.cell(nx, ny).state() != CellInteraction::Closed by {
                if qx == px && qy == py {
                    assert(listed(stack@, qx, qy));
                }
            }
        }
        while stack.len() > 0
            invariant
                self.flooding(&start, px, py, stack@, -1, -1, rank, next),
            decreases self.closed_count(), stack@.len(),
        {
            let ghost old_stack = stack@;
            let q = stack.pop().unwrap();
            proof {
                self.lemma_pop(&start, px, py, old_stack, stack@, q, rank, next);
                assert(self.cell(q.x as int, q.y as int).count() == self.adjacent_mines(q.x as int, q.y as int));
                lemma_rect_zero(self.mine_map(), lo(q.x as int), hi(q.x as int, self.width as int), lo(q.y as int), hi(q.y as int, self.height as int));
                assert forall|x: int, y: int| self.in_bounds(x, y) && adjacent(q.x as int, q.y as int, x, y) implies !(#[trigger] start.cell(x, y)).mine() by {
                    assert(self.mine_map()[y][x] == self.cell(x, y).mine());
                    assert(self.cell(x, y).mine() == start.cell(x, y).mine());
                }
            }
            let ghost cc0 = self.closed_count();
            let ghost len0 = stack@.len();
            let nb = self.neighbors(&q);
            let mut k: usize = 0;
            while k < nb.len()
                invariant
                    self.flooding(&start, px, py, stack@, q.x as int, q.y as int, rank, next),
                    self.in_bounds(q.x as int, q.y as int),
                    self.newly_opened(&start, q.x as int, q.y as int),
                    self.cell(q.x as int, q.y as int).count() == 0,
                    forall|x: int, y: int| self.in_bounds(x, y) && adjacent(q.x as int, q.y as int, x, y) ==> !(#[trigger] start.cell(x, y)).mine(),
                    forall|i: int| 0 <= i < nb@.len() ==> self.in_bounds((#[trigger] nb@[i]).x as int, nb@[i].y as int)
                        && adjacent(q.x as int, q.y as int, nb@[i].x as int, nb@[i].y as int),
                    forall|x: int, y: int|
                        self.in_bounds(x, y) && adjacent(q.x as int, q.y as int, x, y) ==> #[trigger] listed(nb@, x, y),
                    forall|i: int| 0 <= i < k ==> self.cell((#[trigger] nb@[i]).x as int, nb@[i].y as int).state() != CellInteraction::Closed,
                    k <= nb@.len(),
                    self.closed_count() <= cc0,
                    self.closed_count() == cc0 ==> stack@.len() == len0,
                decreases nb@.len() - k,
            {
                let n = nb[k];
                let ghost prev = *self;
                let ghost was_closed = self.cell(n.x as int, n.y as int).state() == CellInteraction::Closed;
                self.open_step(Ghost(start), Ghost(px), Ghost(py), q, n, &mut stack, Ghost(rank), Ghost(next));
                proof {
                    if was_closed {
                        rank = bump(rank, n.x as int, n.y as int, next);
                        next = next + 1;
                    }
                }
                assert forall|i: int| 0 <= i < k + 1 implies self.cell((#[trigger] nb@[i]).x as int, nb@[i].y as int).state() != CellInteraction::Closed by {
                    if i < k {
                        assert(prev.cell(nb@[i].x as int, nb@[i].y as int).state() != CellInteraction::Closed);
                    }
                }
                k = k + 1;
            }
            proof {
                assert forall|x: int, y: int|
                    self.in_bounds(x, y) && adjacent(q.x as int, q.y as int, x, y) implies (#[trigger] self.cell(x, y)).state() != CellInteraction::Closed by {
                    assert(listed(nb@, x, y));
                    let i = choose|i: int| 0 <= i < nb@.len() && (#[trigger] nb@[i]).x == x && nb@[i].y == y;
                    assert(self.cell(nb@[i].x as int, nb@[i].y as int).state() != CellInteraction::Closed);
                }
                self.lemma_spread_done(&start, px, py, stack@, q, rank, next);
            }
        }
        assert(self.ranked(&start, px, py, rank));
    }

    fn set_cell(&mut self, x: usize, y: usize, c: Cell)
        requires
            old(self).shaped(),
            old(self).in_bounds(x as int, y as int),
        ensures
            final(self).replaced(old(self), x as int, y as int, c),
            final(self).shaped(),
    {
        assert(self.cells()[y as int] == self.grid.0@[y as int]@);
        self.grid.0[y][x] = c;
        assert(self.cells() =~~= old(self).cells().update(y as int, old(self).cells()[y as int].update(x as int, c)));
    }
}

} // verus!
