//! A solver that marks the cells whose content follows from the counts around them.
use vstd::prelude::*;

use crate::game::{
    adjacent, hi, lo, nbhd_count, rect_count, row_count, CellInteraction, Game, Position,
};

verus! {

/// What the solver has proved of a closed cell.
#[derive(Clone, Copy, Debug, PartialEq, Eq, Structural)]
pub enum Certainty {
    /// No mine lies under the cell.
    Safe,
    /// A mine lies under the cell.
    Mine,
}

/// A move that the solver proposes.
#[derive(Clone, Copy, Debug, PartialEq, Eq, Structural)]
pub enum BestMove {
    Open(Position),
    Flag(Position),
    Random,
}

/// What an opened cell at `(x, y)` proves of the closed cells around it: all safe when
/// the flags around it match its count, all mines when the closed and flagged cells
/// around it together match its count.
pub open spec fn verdict(game: &Game, x: int, y: int) -> Option<Certainty> {
    let w = game.width as int;
    let h = game.height as int;
    if game.cell(x, y).state() == CellInteraction::Opened {
        let count = game.cell(x, y).count() as int;
        let flags = nbhd_count(game.state_map(CellInteraction::Flagged), w, h, x, y) as int;
        let closed = nbhd_count(game.state_map(CellInteraction::Closed), w, h, x, y) as int;
        if flags == count {
            Some(Certainty::Safe)
        } else if closed + flags == count {
            Some(Certainty::Mine)
        } else {
            None
        }
    } else {
        None
    }
}

/// The verdict of the last cell with one among columns `x0..cx` of row `cy`.
pub open spec fn last_verdict_in_row(game: &Game, x0: int, cx: int, cy: int) -> Option<Certainty>
    decreases cx - x0,
{
    if cx <= x0 {
        None
    } else if verdict(game, cx - 1, cy) is Some {
        verdict(game, cx - 1, cy)
    } else {
        last_verdict_in_row(game, x0, cx - 1, cy)
    }
}

/// The verdict of the last cell with one, in row-major order, among columns `x0..x1` of
/// rows `y0..cy`.
pub open spec fn last_verdict(game: &Game, x0: int, x1: int, y0: int, cy: int) -> Option<Certainty>
    decreases cy - y0,
{
    if cy <= y0 {
        None
    } else if last_verdict_in_row(game, x0, x1, cy - 1) is Some {
        last_verdict_in_row(game, x0, x1, cy - 1)
    } else {
        last_verdict(game, x0, x1, y0, cy - 1)
    }
}

/// The solver's entry for `(x, y)` after a pass over `game`, which depends on `game` alone:
/// none for a cell that is not closed; for a closed one, the verdict of the last cell
/// around it, in row-major order, that has one, and none where no cell has one.
pub open spec fn solved_entry(game: &Game, x: int, y: int) -> Option<Certainty> {
    if game.cell(x, y).state() != CellInteraction::Closed {
        None
    } else {
        last_verdict(game, lo(x), hi(x, game.width as int), lo(y), hi(y, game.height as int))
    }
}

/// Every flag stands on a mine, and no opened cell holds one.
pub open spec fn consistent(game: &Game) -> bool {
    forall|x: int, y: int|
        game.in_bounds(x, y) ==> ((#[trigger] game.cell(x, y)).state() == CellInteraction::Flagged ==> game.cell(
            x,
            y,
        ).mine()) && (game.cell(x, y).state() == CellInteraction::Opened ==> !game.cell(x, y).mine())
}

/// Where `a` holds, `b` or `c` does, and never both.
pub open spec fn covered(a: Seq<bool>, b: Seq<bool>, c: Seq<bool>, x: int) -> bool {
    (a[x] ==> b[x] || c[x]) && !(b[x] && c[x])
}

proof fn lemma_row_le(a: Seq<bool>, b: Seq<bool>, c: Seq<bool>, x0: int, x1: int, k: int)
    requires
        forall|x: int| x0 <= x < x1 ==> #[trigger] covered(a, b, c, x),
    ensures
        row_count(a, x0, x1) <= row_count(b, x0, x1) + row_count(c, x0, x1),
        x0 <= k < x1 && (b[k] || c[k]) && !a[k] ==> row_count(a, x0, x1) < row_count(b, x0, x1) + row_count(c, x0, x1),
    decreases x1 - x0,
{
    if x1 > x0 {
        lemma_row_le(a, b, c, x0, x1 - 1, k);
        assert(covered(a, b, c, x1 - 1));
    }
}

proof fn lemma_rect_le(
    a: Seq<Seq<bool>>,
    b: Seq<Seq<bool>>,
    c: Seq<Seq<bool>>,
    x0: int,
    x1: int,
    y0: int,
    y1: int,
    kx: int,
    ky: int,
)
    requires
        forall|x: int, y: int|
            x0 <= x < x1 && y0 <= y < y1 ==> #[trigger] covered(a[y], b[y], c[y], x),
    ensures
        rect_count(a, x0, x1, y0, y1) <= rect_count(b, x0, x1, y0, y1) + rect_count(c, x0, x1, y0, y1),
        x0 <= kx < x1 && y0 <= ky < y1 && (b[ky][kx] || c[ky][kx]) && !a[ky][kx] ==> rect_count(a, x0, x1, y0, y1)
            < rect_count(b, x0, x1, y0, y1) + rect_count(c, x0, x1, y0, y1),
    decreases y1 - y0,
{
    if y1 > y0 {
        lemma_rect_le(a, b, c, x0, x1, y0, y1 - 1, kx, ky);
        let t = y1 - 1;
        lemma_row_le(a[t], b[t], c[t], x0, x1, kx);
    }
}

proof fn lemma_last_in_row_safe(game: &Game, x0: int, cx: int, cy: int, k: int)
    requires
        forall|x: int| x0 <= x < cx ==> (#[trigger] verdict(game, x, cy) is Some ==> verdict(game, x, cy) == Some(Certainty::Safe)),
    ensures
        last_verdict_in_row(game, x0, cx, cy) is None || last_verdict_in_row(game, x0, cx, cy) == Some(Certainty::Safe),
        x0 <= k < cx && verdict(game, k, cy) is Some ==> last_verdict_in_row(game, x0, cx, cy) is Some,
    decreases cx - x0,
{
    if cx > x0 {
        lemma_last_in_row_safe(game, x0, cx - 1, cy, k);
        assert(verdict(game, cx - 1, cy) is Some ==> verdict(game, cx - 1, cy) == Some(Certainty::Safe));
    }
}

proof fn lemma_last_safe(game: &Game, x0: int, x1: int, y0: int, cy: int, kx: int, ky: int)
    requires
        forall|x: int, y: int|
            x0 <= x < x1 && y0 <= y < cy ==> (#[trigger] verdict(game, x, y) is Some ==> verdict(game, x, y) == Some(
                Certainty::Safe,
            )),
    ensures
        last_verdict(game, x0, x1, y0, cy) is None || last_verdict(game, x0, x1, y0, cy) == Some(Certainty::Safe),
        x0 <= kx < x1 && y0 <= ky < cy && verdict(game, kx, ky) is Some ==> last_verdict(game, x0, x1, y0, cy) is Some,
    decreases cy - y0,
{
    if cy > y0 {
        lemma_last_safe(game, x0, x1, y0, cy - 1, kx, ky);
        let t = cy - 1;
        assert forall|x: int| x0 <= x < x1 implies (#[trigger] verdict(game, x, t) is Some ==> verdict(game, x, t) == Some(Certainty::Safe)) by {
            assert(verdict(game, x, t) is Some ==> verdict(game, x, t) == Some(Certainty::Safe));
        }
        lemma_last_in_row_safe(game, x0, x1, t, kx);
    }
}

proof fn lemma_maps(game: &Game)
    requires
        game.wf(),
    ensures
        forall|x: int, y: int| #![trigger game.cell(x, y)] game.in_bounds(x, y) ==> game.mine_map()[y][x] == game.cell(x, y).mine()
            && game.state_map(CellInteraction::Flagged)[y][x] == (game.cell(x, y).state() == CellInteraction::Flagged)
            && game.state_map(CellInteraction::Closed)[y][x] == (game.cell(x, y).state() == CellInteraction::Closed),
{
    assert forall|x: int, y: int| #![trigger game.cell(x, y)] game.in_bounds(x, y) implies game.mine_map()[y][x] == game.cell(x, y).mine()
        && game.state_map(CellInteraction::Flagged)[y][x] == (game.cell(x, y).state() == CellInteraction::Flagged)
        && game.state_map(CellInteraction::Closed)[y][x] == (game.cell(x, y).state() == CellInteraction::Closed) by {
        assert(game.cells()[y].len() == game.width);
    }
}

/// An opened cell with count 0 on a consistent game calls its neighbours safe.
proof fn lemma_zero_count_verdict(game: &Game, cx: int, cy: int)
    requires
        game.wf(),
        consistent(game),
        game.in_bounds(cx, cy),
        game.cell(cx, cy).state() == CellInteraction::Opened,
        game.cell(cx, cy).count() == 0,
    ensures
        verdict(game, cx, cy) == Some(Certainty::Safe),
        forall|x: int, y: int| game.in_bounds(x, y) && adjacent(cx, cy, x, y) ==> !(#[trigger] game.cell(x, y)).mine(),
{
    let w = game.width as int;
    let h = game.height as int;
    let mm = game.mine_map();
    let fm = game.state_map(CellInteraction::Flagged);
    lemma_maps(game);
    assert(game.cell(cx, cy).count() == game.adjacent_mines(cx, cy));
    crate::game::lemma_rect_zero(mm, lo(cx), hi(cx, w), lo(cy), hi(cy, h));
    assert forall|x: int, y: int|
        lo(cx) <= x < hi(cx, w) && lo(cy) <= y < hi(cy, h) implies #[trigger] covered(fm[y], mm[y], mm[y], x) by {
        assert(game.in_bounds(x, y));
        assert(fm[y][x] == (game.cell(x, y).state() == CellInteraction::Flagged));
        assert(mm[y][x] == game.cell(x, y).mine());
        assert(!mm[y][x]);
        assert(!fm[y][x]);
    }
    lemma_rect_le(fm, mm, mm, lo(cx), hi(cx, w), lo(cy), hi(cy, h), -1, -1);
    assert forall|x: int, y: int| game.in_bounds(x, y) && adjacent(cx, cy, x, y) implies !(#[trigger] game.cell(x, y)).mine() by {
        assert(!mm[y][x]);
    }
}

/// On a consistent game, no opened cell calls a closed cell without a mine a mine.
proof fn lemma_no_false_mine(game: &Game, x: int, y: int, qx: int, qy: int)
    requires
        game.wf(),
        consistent(game),
        game.in_bounds(x, y),
        game.in_bounds(qx, qy),
        adjacent(x, y, qx, qy),
        game.cell(qx, qy).state() == CellInteraction::Closed,
        !game.cell(qx, qy).mine(),
    ensures
        verdict(game, x, y) != Some(Certainty::Mine),
{
    let w = game.width as int;
    let h = game.height as int;
    let mm = game.mine_map();
    let fm = game.state_map(CellInteraction::Flagged);
    let cm = game.state_map(CellInteraction::Closed);
    lemma_maps(game);
    if game.cell(x, y).state() == CellInteraction::Opened {
        assert forall|i: int, j: int|
            lo(x) <= i < hi(x, w) && lo(y) <= j < hi(y, h) implies #[trigger] covered(mm[j], fm[j], cm[j], i) by {
            assert(game.in_bounds(i, j));
            assert(fm[j][i] == (game.cell(i, j).state() == CellInteraction::Flagged));
            assert(cm[j][i] == (game.cell(i, j).state() == CellInteraction::Closed));
            assert(mm[j][i] == game.cell(i, j).mine());
        }
        assert(cm[qy][qx] && !mm[qy][qx]) by {
            assert(game.cell(qx, qy) == game.cell(qx, qy));
        }
        lemma_rect_le(mm, fm, cm, lo(x), hi(x, w), lo(y), hi(y, h), qx, qy);
        assert(game.cell(x, y).count() == game.adjacent_mines(x, y));
    }
}

/// On a game where every flag stands on a mine and no opened cell holds one, each closed
/// neighbour `(qx, qy)` of an opened cell `(cx, cy)` whose count is 0 is solved as safe: after
/// `calculate_matrix` its entry is `Safe`, and `batch_moves` opens it.
pub proof fn lemma_zero_count_neighbours_safe(game: &Game, cx: int, cy: int, qx: int, qy: int)
    requires
        game.wf(),
        consistent(game),
        game.in_bounds(cx, cy),
        game.in_bounds(qx, qy),
        adjacent(cx, cy, qx, qy),
        game.cell(cx, cy).state() == CellInteraction::Opened,
        game.cell(cx, cy).count() == 0,
        game.cell(qx, qy).state() == CellInteraction::Closed,
    ensures
        solved_entry(game, qx, qy) == Some(Certainty::Safe),
        move_of(solved_entry(game, qx, qy), qx, qy) == seq![BestMove::Open(Position { x: qx as usize, y: qy as usize })],
{
    let w = game.width as int;
    let h = game.height as int;
    lemma_zero_count_verdict(game, cx, cy);
    assert(!game.cell(qx, qy).mine());
    assert forall|x: int, y: int|
        lo(qx) <= x < hi(qx, w) && lo(qy) <= y < hi(qy, h) implies (#[trigger] verdict(game, x, y) is Some ==> verdict(
            game,
            x,
            y,
        ) == Some(Certainty::Safe)) by {
        lemma_no_false_mine(game, x, y, qx, qy);
    }
    lemma_last_safe(game, lo(qx), hi(qx, w), lo(qy), hi(qy, h), cx, cy);
}

/// The same, stated of a solver just brought up to date on `game` (as `calculate_matrix`
/// leaves it): the entry of `(qx, qy)` is `Safe`, and `batch_moves` lists the move that opens it.
pub proof fn lemma_zero_count_neighbours_opened(ai: &AIPlayer, game: &Game, cx: int, cy: int, qx: int, qy: int)
    requires
        game.wf(),
        consistent(game),
        game.in_bounds(cx, cy),
        game.in_bounds(qx, qy),
        adjacent(cx, cy, qx, qy),
        game.cell(cx, cy).state() == CellInteraction::Opened,
        game.cell(cx, cy).count() == 0,
        game.cell(qx, qy).state() == CellInteraction::Closed,
        ai.wf(),
        ai.width == game.width,
        ai.height == game.height,
        forall|x: int, y: int| ai.in_bounds(x, y) ==> (#[trigger] ai.entry(x, y)) == solved_entry(game, x, y),
    ensures
        ai.entry(qx, qy) == Some(Certainty::Safe),
        grid_moves(ai.entries(), ai.width as int, ai.height as int).contains(
            BestMove::Open(Position { x: qx as usize, y: qy as usize }),
        ),
{
    lemma_zero_count_neighbours_safe(game, cx, cy, qx, qy);
    assert(ai.entry(qx, qy) == solved_entry(game, qx, qy));
    lemma_grid_moves_has(ai.entries(), ai.width as int, ai.height as int, qx, qy);
}

/// The move that an entry at `(x, y)` calls for, if any.
pub open spec fn move_of(e: Option<Certainty>, x: int, y: int) -> Seq<BestMove> {
    match e {
        Some(Certainty::Mine) => seq![BestMove::Flag(Position { x: x as usize, y: y as usize })],
        Some(Certainty::Safe) => seq![BestMove::Open(Position { x: x as usize, y: y as usize })],
        None => Seq::empty(),
    }
}

/// The moves that the first `n` entries of row `y` call for, in order.
pub open spec fn row_moves(row: Seq<Option<Certainty>>, y: int, n: int) -> Seq<BestMove>
    decreases n,
{
    if n <= 0 {
        Seq::empty()
    } else {
        row_moves(row, y, n - 1) + move_of(row[n - 1], n - 1, y)
    }
}

/// The moves that the first `n` rows of `m`, each `w` wide, call for, in row-major order.
pub open spec fn grid_moves(m: Seq<Seq<Option<Certainty>>>, w: int, n: int) -> Seq<BestMove>
    decreases n,
{
    if n <= 0 {
        Seq::empty()
    } else {
        grid_moves(m, w, n - 1) + row_moves(m[n - 1], n - 1, w)
    }
}

proof fn lemma_row_moves_has(row: Seq<Option<Certainty>>, y: int, n: int, x: int)
    requires
        0 <= x < n,
        row[x] == Some(Certainty::Safe),
    ensures
        row_moves(row, y, n).contains(BestMove::Open(Position { x: x as usize, y: y as usize })),
    decreases n,
{
    let mv = BestMove::Open(Position { x: x as usize, y: y as usize });
    let front = row_moves(row, y, n - 1);
    if x == n - 1 {
        assert(row_moves(row, y, n)[front.len() as int] == mv);
    } else {
        lemma_row_moves_has(row, y, n - 1, x);
        let k = choose|k: int| 0 <= k < front.len() && front[k] == mv;
        assert(row_moves(row, y, n)[k] == mv);
    }
}

proof fn lemma_grid_moves_has(m: Seq<Seq<Option<Certainty>>>, w: int, n: int, x: int, y: int)
    requires
        0 <= y < n,
        0 <= x < w,
        m[y][x] == Some(Certainty::Safe),
    ensures
        grid_moves(m, w, n).contains(BestMove::Open(Position { x: x as usize, y: y as usize })),
    decreases n,
{
    let mv = BestMove::Open(Position { x: x as usize, y: y as usize });
    let front = grid_moves(m, w, n - 1);
    if y == n - 1 {
        lemma_row_moves_has(m[y], y, w, x);
        let k = choose|k: int| 0 <= k < row_moves(m[y], y, w).len() && row_moves(m[y], y, w)[k] == mv;
        assert(grid_moves(m, w, n)[front.len() + k] == mv);
    } else {
        lemma_grid_moves_has(m, w, n - 1, x, y);
        let k = choose|k: int| 0 <= k < front.len() && front[k] == mv;
        assert(grid_moves(m, w, n)[k] == mv);
    }
}

/// `(x1, y1)` comes before `(x2, y2)` in row-major order.
pub open spec fn before(x1: int, y1: int, x2: int, y2: int) -> bool {
    y1 < y2 || (y1 == y2 && x1 < x2)
}

/// Computes `verdict(game, x, y)`.
fn verdict_at(game: &Game, x: usize, y: usize) -> (r: Option<Certainty>)
    requires
        game.wf(),
        game.in_bounds(x as int, y as int),
    ensures
        r == verdict(game, x as int, y as int),
{
    assert(game.cells()[y as int] == game.grid.0@[y as int]@);
    let cell = &game.grid().0[y][x];
    assert(*cell == game.cell(x as int, y as int));
    match cell.counter() {
        Some(count) => {
            let (_, flags, closed) = game.tally(x, y);
            if flags == count {
                Some(Certainty::Safe)
            } else if closed as u16 + flags as u16 == count as u16 {
                Some(Certainty::Mine)
            } else {
                None
            }
        },
        None => None,
    }
}

/// `verdict` of every cell of `game`, row by row.
fn verdict_grid(game: &Game) -> (r: Vec<Vec<Option<Certainty>>>)
    requires
        game.wf(),
    ensures
        r@.len() == game.height,
        forall|y: int| 0 <= y < game.height ==> (#[trigger] r@[y])@.len() == game.width,
        forall|x: int, y: int| game.in_bounds(x, y) ==> (#[trigger] r@[y]@[x]) == verdict(game, x, y),
{
    let mut r: Vec<Vec<Option<Certainty>>> = Vec::new();
    let mut i: usize = 0;
    while i < game.height
        invariant
            game.wf(),
            i <= game.height,
            r@.len() == i,
            forall|y: int| 0 <= y < i ==> (#[trigger] r@[y])@.len() == game.width,
            forall|x: int, y: int| 0 <= y < i && 0 <= x < game.width ==> (#[trigger] r@[y]@[x]) == verdict(game, x, y),
        decreases game.height - i,
    {
        let mut row: Vec<Option<Certainty>> = Vec::new();
        let mut j: usize = 0;
        while j < game.width
            invariant
                game.wf(),
                i < game.height,
                j <= game.width,
                row@.len() == j,
                forall|x: int| 0 <= x < j ==> (#[trigger] row@[x]) == verdict(game, x, i as int),
            decreases game.width - j,
        {
            row.push(verdict_at(game, j, i));
            j = j + 1;
        }
        r.push(row);
        i = i + 1;
    }
    r
}

/// The solver: one entry per cell of a game of the same size.
pub struct AIPlayer {
    pub matrix: Vec<Vec<Option<Certainty>>>,
    pub width: usize,
    pub height: usize,
}

impl AIPlayer {
    pub open spec fn entries(&self) -> Seq<Seq<Option<Certainty>>> {
        self.matrix@.map_values(|r: Vec<Option<Certainty>>| r@)
    }

    pub open spec fn entry(&self, x: int, y: int) -> Option<Certainty> {
        self.entries()[y][x]
    }

    pub open spec fn in_bounds(&self, x: int, y: int) -> bool {
        0 <= x < self.width && 0 <= y < self.height
    }

    /// The matrix has `height` rows of `width` entries.
    pub open spec fn wf(&self) -> bool {
        &&& self.entries().len() == self.height
        &&& forall|y: int| 0 <= y < self.height ==> #[trigger] self.entries()[y].len() == self.width
    }

    /// `r` is the first position, in row-major order, whose entry is `c`, or none if no entry is.
    pub open spec fn first_with(&self, c: Certainty, r: Option<Position>) -> bool {
        match r {
            Some(p) => {
                &&& self.in_bounds(p.x as int, p.y as int)
                &&& self.entry(p.x as int, p.y as int) == Some(c)
                &&& forall|x: int, y: int|
                    self.in_bounds(x, y) && before(x, y, p.x as int, p.y as int) ==> (#[trigger] self.entry(x, y))
                        != Some(c)
            },
            None => forall|x: int, y: int| self.in_bounds(x, y) ==> (#[trigger] self.entry(x, y)) != Some(c),
        }
    }

    /// Recomputes every entry from `game`; see `solved_entry`.
    pub fn calculate_matrix(&mut self, game: &Game)
        requires
            old(self).wf(),
            game.wf(),
            old(self).width == game.width,
            old(self).height == game.height,
        ensures
            final(self).wf(),
            final(self).width == old(self).width,
            final(self).height == old(self).height,
            forall|x: int, y: int|
                old(self).in_bounds(x, y) ==> (#[trigger] final(self).entry(x, y)) == solved_entry(game, x, y),
    {
        let ghost start = *self;
        let verdicts = verdict_grid(game);
        let mut i: usize = 0;
        while i < self.height
            invariant
                self.wf(),
                game.wf(),
                verdicts@.len() == game.height,
                forall|y: int| 0 <= y < game.height ==> (#[trigger] verdicts@[y])@.len() == game.width,
                forall|x: int, y: int| game.in_bounds(x, y) ==> (#[trigger] verdicts@[y]@[x]) == verdict(game, x, y),
                i <= self.height,
                self.width == start.width,
                self.height == start.height,
                self.width == game.width,
                self.height == game.height,
                forall|x: int, y: int|
                    self.in_bounds(x, y) ==> (#[trigger] self.entry(x, y)) == if y < i {
                        solved_entry(game, x, y)
                    } else {
                        start.entry(x, y)
                    },
            decreases self.height - i,
        {
            let mut j: usize = 0;
            while j < self.width
                invariant
                    self.wf(),
                    game.wf(),
                    verdicts@.len() == game.height,
                    forall|y: int| 0 <= y < game.height ==> (#[trigger] verdicts@[y])@.len() == game.width,
                    forall|x: int, y: int| game.in_bounds(x, y) ==> (#[trigger] verdicts@[y]@[x]) == verdict(game, x, y),
                    i < self.height,
                    j <= self.width,
                    self.width == start.width,
                    self.height == start.height,
                    self.width == game.width,
                    self.height == game.height,
                    forall|x: int, y: int|
                        self.in_bounds(x, y) ==> (#[trigger] self.entry(x, y)) == if before(x, y, j as int, i as int) {
                            solved_entry(game, x, y)
                        } else {
                            start.entry(x, y)
                        },
                decreases self.width - j,
            {
                let e = self.solve_cell(game, &verdicts, j, i);
                let ghost prev = *self;
                assert(self.entries()[i as int] == self.matrix@[i as int]@);
                self.matrix[i][j] = e;
                assert forall|x: int, y: int| self.in_bounds(x, y) implies (#[trigger] self.entry(x, y)) == if x == j && y == i { e } else { prev.entry(x, y) } by {
                    assert(self.entries()[y] == self.matrix@[y]@);
                    if y != i {
                        assert(self.matrix@[y] == prev.matrix@[y]);
                    }
                }
                assert forall|y: int| 0 <= y < self.height implies #[trigger] self.entries()[y].len() == self.width by {
                    assert(self.entries()[y] == self.matrix@[y]@);
                    assert(prev.entries()[y] == prev.matrix@[y]@);
                    if y != i {
                        assert(self.matrix@[y] == prev.matrix@[y]);
                    }
                }
                j = j + 1;
            }
            i = i + 1;
        }
    }

    /// The new entry for `(x, y)`.
    fn solve_cell(&self, game: &Game, verdicts: &Vec<Vec<Option<Certainty>>>, x: usize, y: usize) -> (r: Option<Certainty>)
        requires
            self.wf(),
            game.wf(),
            verdicts@.len() == game.height,
            forall|y: int| 0 <= y < game.height ==> (#[trigger] verdicts@[y])@.len() == game.width,
            forall|x: int, y: int| game.in_bounds(x, y) ==> (#[trigger] verdicts@[y]@[x]) == verdict(game, x, y),
            self.width == game.width,
            self.height == game.height,
            self.in_bounds(x as int, y as int),
        ensures
            r == solved_entry(game, x as int, y as int),
    {
        assert(game.cells()[y as int] == game.grid.0@[y as int]@);
        if game.grid().0[y][x].interaction() != CellInteraction::Closed {
            return None;
        }
        let x0: usize = if x > 0 { x - 1 } else { 0 };
        let x1: usize = if x + 1 < game.width { x + 2 } else { game.width };
        let y0: usize = if y > 0 { y - 1 } else { 0 };
        let y1: usize = if y + 1 < game.height { y + 2 } else { game.height };
        let mut found: Option<Certainty> = None;
        let mut cy: usize = y0;
        while cy < y1
            invariant
                game.wf(),
                verdicts@.len() == game.height,
                forall|y: int| 0 <= y < game.height ==> (#[trigger] verdicts@[y])@.len() == game.width,
                forall|x: int, y: int| game.in_bounds(x, y) ==> (#[trigger] verdicts@[y]@[x]) == verdict(game, x, y),
                x0 == lo(x as int),
                x1 == hi(x as int, game.width as int),
                y0 == lo(y as int),
                y1 == hi(y as int, game.height as int),
                x1 <= game.width,
                y1 <= game.height,
                x0 <= x1,
                y0 <= cy <= y1,
                found == last_verdict(game, x0 as int, x1 as int, y0 as int, cy as int),
            decreases y1 - cy,
        {
            let mut cx: usize = x0;
            while cx < x1
                invariant
                    game.wf(),
                    verdicts@.len() == game.height,
                    forall|y: int| 0 <= y < game.height ==> (#[trigger] verdicts@[y])@.len() == game.width,
                    forall|x: int, y: int| game.in_bounds(x, y) ==> (#[trigger] verdicts@[y]@[x]) == verdict(game, x, y),
                    x1 <= game.width,
                    cy < game.height,
                    x0 <= cx <= x1,
                    y0 <= cy,
                    found == if last_verdict_in_row(game, x0 as int, cx as int, cy as int) is Some {
                        last_verdict_in_row(game, x0 as int, cx as int, cy as int)
                    } else {
                        last_verdict(game, x0 as int, x1 as int, y0 as int, cy as int)
                    },
                decreases x1 - cx,
            {
                let v = verdicts[cy][cx];
                if v.is_some() {
                    found = v;
                }
                cx = cx + 1;
            }
            cy = cy + 1;
        }
        found
    }

    /// Every move that the matrix proves, in row-major order: a flag for each entry that
    /// is a mine, an opening for each that is safe.
    pub fn batch_moves(&self) -> (r: Vec<BestMove>)
        requires
            self.wf(),
        ensures
            r@ == grid_moves(self.entries(), self.width as int, self.height as int),
    {
        let mut moves: Vec<BestMove> = Vec::new();
        let mut i: usize = 0;
        while i < self.height
            invariant
                self.wf(),
                i <= self.height,
                moves@ == grid_moves(self.entries(), self.width as int, i as int),
            decreases self.height - i,
        {
            let row = &self.matrix[i];
            assert(row@ == self.entries()[i as int]);
            let ghost done = moves@;
            let mut j: usize = 0;
            while j < self.width
                invariant
                    self.wf(),
                    i < self.height,
                    j <= self.width,
                    row@ == self.entries()[i as int],
                    done == grid_moves(self.entries(), self.width as int, i as int),
                    moves@ == done + row_moves(row@, i as int, j as int),
                decreases self.width - j,
            {
                let ghost prev = moves@;
                match row[j] {
                    Some(Certainty::Mine) => moves.push(BestMove::Flag(Position::new(j, i))),
                    Some(Certainty::Safe) => moves.push(BestMove::Open(Position::new(j, i))),
                    None => {},
                }
                assert(moves@ =~= done + row_moves(row@, i as int, j + 1));
                j = j + 1;
            }
            i = i + 1;
        }
        moves
    }

    fn first(&self, c: Certainty) -> (r: Option<Position>)
        requires
            self.wf(),
        ensures
            self.first_with(c, r),
    {
        let mut i: usize = 0;
        while i < self.height
            invariant
                self.wf(),
                i <= self.height,
                forall|x: int, y: int| self.in_bounds(x, y) && y < i ==> (#[trigger] self.entry(x, y)) != Some(c),
            decreases self.height - i,
        {
            let row = &self.matrix[i];
            assert(row@ == self.entries()[i as int]);
            let mut j: usize = 0;
            while j < self.width
                invariant
                    self.wf(),
                    i < self.height,
                    j <= self.width,
                    row@ == self.entries()[i as int],
                    forall|x: int, y: int| self.in_bounds(x, y) && before(x, y, j as int, i as int) ==> (#[trigger] self.entry(x, y)) != Some(c),
                decreases self.width - j,
            {
                if row[j] == Some(c) {
                    return Some(Position::new(j, i));
                }
                j = j + 1;
            }
            i = i + 1;
        }
        None
    }

    /// The first position, in row-major order, that is surely a mine.
    pub fn should_flag(&self) -> (r: Option<Position>)
        requires
            self.wf(),
        ensures
            self.first_with(Certainty::Mine, r),
    {
        self.first(Certainty::Mine)
    }

    /// The first position, in row-major order, that is surely safe.
    pub fn best_play(&self) -> (r: Option<Position>)
        requires
            self.wf(),
        ensures
            self.first_with(Certainty::Safe, r),
    {
        self.first(Certainty::Safe)
    }

    /// A solver for `game`, with no entry set.
    pub fn new(game: &Game) -> (r: Self)
        ensures
            r.wf(),
            r.width == game.width,
            r.height == game.height,
            forall|x: int, y: int| r.in_bounds(x, y) ==> (#[trigger] r.entry(x, y)) is None,
    {
        let mut matrix: Vec<Vec<Option<Certainty>>> = Vec::new();
        let mut i: usize = 0;
        while i < game.height
            invariant
                i <= game.height,
                matrix@.len() == i,
                forall|y: int| 0 <= y < i ==> (#[trigger] matrix@[y])@.len() == game.width,
                forall|x: int, y: int| 0 <= y < i && 0 <= x < game.width ==> (#[trigger] matrix@[y]@[x]) is None,
            decreases game.height - i,
        {
            let mut row: Vec<Option<Certainty>> = Vec::new();
            let mut j: usize = 0;
            while j < game.width
                invariant
                    j <= game.width,
                    row@.len() == j,
                    forall|x: int| 0 <= x < j ==> (#[trigger] row@[x]) is None,
                decreases game.width - j,
            {
                row.push(None);
                j = j + 1;
            }
            matrix.push(row);
            i = i + 1;
        }
        let r = Self { matrix, width: game.width, height: game.height };
        assert forall|y: int| 0 <= y < r.height implies #[trigger] r.entries()[y].len() == r.width by {
            assert(r.entries()[y] == matrix@[y]@);
        }
        r
    }
}

} // verus!
