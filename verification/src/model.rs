//! The fill as a mathematical state machine, and what holds of it.

use vstd::prelude::*;
use crate::color::{spec_jitter_within, Color, Jitter};
use crate::frontier::{
    spec_all_in_bounds, spec_distinct, spec_insert, spec_remove, spec_remove_coord,
};
use crate::grid::{
    lemma_cell_index_bound, lemma_cell_index_injective, spec_adjacent, spec_cell_index,
    spec_in_bounds, spec_neighbors4, GridView,
};
use crate::synthesis::{lemma_zero_randomness, spec_average_color, spec_synthesize};

verus! {

/// One iteration's random choices: which frontier entry to take, and the
/// perturbation of its colour.
#[derive(Clone, Copy, Debug, PartialEq, Eq, Structural)]
pub struct Draw {
    pub index: usize,
    pub jitter: Jitter,
}

/// A starting pixel: a coordinate and the colour it is finalized with.
#[derive(Clone, Copy, Debug, PartialEq, Eq, Structural)]
pub struct Seed {
    pub x: u32,
    pub y: u32,
    pub color: Color,
}

/// Whether one of the seeds sits at `cell`.
pub open spec fn spec_is_seed(seeds: Seq<Seed>, cell: (u32, u32)) -> bool {
    exists|i: int| 0 <= i < seeds.len() && (#[trigger] seeds[i]).x == cell.0 && seeds[i].y == cell.1
}

/// Whether every seed lies inside the rectangle.
pub open spec fn spec_seeds_in_bounds(seeds: Seq<Seed>, width: u32, height: u32) -> bool {
    forall|i: int|
        0 <= i < seeds.len() ==> spec_in_bounds(width, height, (#[trigger] seeds[i]).x, seeds[i].y)
}

/// Whether no two seeds share a coordinate.
pub open spec fn spec_seeds_distinct(seeds: Seq<Seed>) -> bool {
    forall|i: int, j: int|
        0 <= i < seeds.len() && 0 <= j < seeds.len() && i != j ==> !((#[trigger] seeds[i]).x == (
        #[trigger] seeds[j]).x && seeds[i].y == seeds[j].y)
}

/// `frontier` after each unfinalized cell of `near` is inserted, in order.
pub open spec fn spec_push_near(
    frontier: Seq<(u32, u32)>,
    grid: GridView,
    near: Seq<(u32, u32)>,
) -> Seq<(u32, u32)>
    decreases near.len(),
{
    if near.len() == 0 {
        frontier
    } else {
        let rest = spec_push_near(frontier, grid, near.drop_last());
        let cell = near.last();
        if grid.is_finalized(cell.0, cell.1) {
            rest
        } else {
            spec_insert(rest, cell)
        }
    }
}

/// Whether some in-grid neighbour of `(x, y)` is finalized.
pub open spec fn spec_near_finalized(grid: GridView, x: u32, y: u32) -> bool {
    ||| y + 1 < grid.height && grid.is_finalized(x, (y + 1) as u32)
    ||| x > 0 && grid.is_finalized((x - 1) as u32, y)
    ||| x + 1 < grid.width && grid.is_finalized((x + 1) as u32, y)
    ||| y > 0 && grid.is_finalized(x, (y - 1) as u32)
}

/// An unfinalized cell beside a finalized one.
pub open spec fn spec_on_boundary(grid: GridView, cell: (u32, u32)) -> bool {
    &&& grid.in_bounds(cell.0, cell.1)
    &&& !grid.is_finalized(cell.0, cell.1)
    &&& spec_near_finalized(grid, cell.0, cell.1)
}

/// How many markers are still false.
pub open spec fn spec_unfinalized(flags: Seq<bool>) -> nat
    decreases flags.len(),
{
    if flags.len() == 0 {
        0
    } else {
        spec_unfinalized(flags.drop_last()) + if flags.last() {
            0nat
        } else {
            1nat
        }
    }
}

/// The state of a fill.
pub struct EngineView {
    pub grid: GridView,
    pub frontier: Seq<(u32, u32)>,
    pub randomness: i16,
}

impl EngineView {
    /// Validity: the frontier is exactly the set of unfinalized cells beside
    /// a finalized one, each held once.
    pub open spec fn inv(self) -> bool {
        &&& self.grid.wf()
        &&& self.randomness >= 0
        &&& spec_distinct(self.frontier)
        &&& forall|p: (u32, u32)| #[trigger]
            self.frontier.contains(p) <==> spec_on_boundary(self.grid, p)
    }

    /// The state after `cell` is finalized with `color`: it leaves the
    /// frontier, and its unfinalized neighbours enter.
    pub open spec fn finalize(self, cell: (u32, u32), color: Color) -> EngineView {
        let grid = self.grid.set(cell.0, cell.1, color);
        EngineView {
            grid,
            frontier: spec_push_near(
                spec_remove_coord(self.frontier, cell),
                grid,
                grid.neighbors4(cell.0, cell.1),
            ),
            randomness: self.randomness,
        }
    }

    /// The state after the seeds are finalized in order.
    pub open spec fn seed_all(self, seeds: Seq<Seed>) -> EngineView
        decreases seeds.len(),
    {
        if seeds.len() == 0 {
            self
        } else {
            let seed = seeds.last();
            self.seed_all(seeds.drop_last()).finalize((seed.x, seed.y), seed.color)
        }
    }

    /// Whether `draw` names a frontier entry and stays within the bound.
    pub open spec fn draw_valid(self, draw: Draw) -> bool {
        &&& draw.index < self.frontier.len()
        &&& spec_jitter_within(draw.jitter, self.randomness)
    }

    /// The colour that `draw` gives the cell it takes.
    pub open spec fn drawn_color(self, draw: Draw) -> Color {
        let cell = self.frontier[draw.index as int];
        spec_synthesize(self.grid, cell.0, cell.1, draw.jitter)
    }

    /// One iteration: the drawn cell is coloured from the grid as it stands
    /// and finalized, the last entry takes its place in the frontier, and
    /// its unfinalized neighbours enter.
    pub open spec fn step(self, draw: Draw) -> EngineView {
        let cell = self.frontier[draw.index as int];
        let grid = self.grid.set(cell.0, cell.1, self.drawn_color(draw));
        EngineView {
            grid,
            frontier: spec_push_near(
                spec_remove(self.frontier, draw.index as int),
                grid,
                grid.neighbors4(cell.0, cell.1),
            ),
            randomness: self.randomness,
        }
    }

    /// The state after the draws are applied in order, stopping before the
    /// first that is not valid where it comes.
    pub open spec fn replay(self, draws: Seq<Draw>) -> EngineView
        decreases draws.len(),
    {
        if draws.len() == 0 || !self.draw_valid(draws[0]) {
            self
        } else {
            self.step(draws[0]).replay(draws.drop_first())
        }
    }

    /// How many of the draws are applied by `replay`.
    pub open spec fn replayed(self, draws: Seq<Draw>) -> nat
        decreases draws.len(),
    {
        if draws.len() == 0 || !self.draw_valid(draws[0]) {
            0
        } else {
            1 + self.step(draws[0]).replayed(draws.drop_first())
        }
    }

    /// The state of a fresh engine: a blank grid and an empty frontier.
    pub open spec fn fresh(width: u32, height: u32, randomness: i16) -> EngineView {
        EngineView {
            grid: GridView::blank(width, height),
            frontier: Seq::empty(),
            randomness,
        }
    }

    /// A fresh engine seeded with pure white at the centre of its grid.
    pub open spec fn centered(width: u32, height: u32, randomness: i16) -> EngineView {
        Self::fresh(width, height, randomness).finalize(
            (width / 2, height / 2),
            Color { red: 255, green: 255, blue: 255 },
        )
    }

    pub open spec fn is_done(self) -> bool {
        self.frontier.len() == 0
    }

    pub open spec fn all_finalized(self) -> bool {
        forall|p: (u32, u32)|
            self.grid.in_bounds(p.0, p.1) ==> #[trigger] self.grid.is_finalized(p.0, p.1)
    }

    /// Whether some cell of the grid is finalized.
    pub open spec fn some_finalized(self) -> bool {
        exists|p: (u32, u32)|
            self.grid.in_bounds(p.0, p.1) && #[trigger] self.grid.is_finalized(p.0, p.1)
    }

    pub open spec fn unfinalized(self) -> nat {
        spec_unfinalized(self.grid.finalized)
    }
}

/// Inserting the unfinalized cells of `near` keeps the entries distinct and
/// adds exactly those cells.
pub proof fn lemma_push_near(frontier: Seq<(u32, u32)>, grid: GridView, near: Seq<(u32, u32)>)
    requires
        spec_distinct(frontier),
    ensures
        spec_distinct(spec_push_near(frontier, grid, near)),
        forall|p: (u32, u32)| #[trigger]
            spec_push_near(frontier, grid, near).contains(p) <==> frontier.contains(p) || (
            near.contains(p) && !grid.is_finalized(p.0, p.1)),
    decreases near.len(),
{
    if near.len() > 0 {
        let shorter = near.drop_last();
        let rest = spec_push_near(frontier, grid, shorter);
        let cell = near.last();
        let out = spec_push_near(frontier, grid, near);
        lemma_push_near(frontier, grid, shorter);
        assert(near[near.len() - 1] == cell);
        assert forall|p: (u32, u32)| near.contains(p) <==> shorter.contains(p) || p == cell by {
            if near.contains(p) {
                let i = choose|i: int| 0 <= i < near.len() && near[i] == p;
                if i < shorter.len() {
                    assert(shorter[i] == p);
                }
            }
            if shorter.contains(p) {
                let i = choose|i: int| 0 <= i < shorter.len() && shorter[i] == p;
                assert(near[i] == p);
            }
        }
        if !grid.is_finalized(cell.0, cell.1) && !rest.contains(cell) {
            assert(out == rest.push(cell));
            assert forall|p: (u32, u32)| out.contains(p) <==> rest.contains(p) || p == cell by {
                if out.contains(p) {
                    let i = choose|i: int| 0 <= i < out.len() && out[i] == p;
                    if i < rest.len() {
                        assert(rest[i] == p);
                    }
                }
                if rest.contains(p) {
                    let i = choose|i: int| 0 <= i < rest.len() && rest[i] == p;
                    assert(out[i] == p);
                }
                assert(out[rest.len() as int] == cell);
            }
            assert forall|i: int, j: int|
                0 <= i < out.len() && 0 <= j < out.len() && i != j implies out[i] != out[j] by {
                if i < rest.len() && j < rest.len() {
                    assert(out[i] == rest[i] && out[j] == rest[j]);
                } else if i < rest.len() {
                    assert(rest[i] == out[i]);
                    assert(rest.contains(out[i]));
                } else {
                    assert(rest[j] == out[j]);
                    assert(rest.contains(out[j]));
                }
            }
        } else {
            assert(out == rest);
        }
    }
}

/// Removing the entry at `index` keeps the others, each once.
pub proof fn lemma_remove(entries: Seq<(u32, u32)>, index: int)
    requires
        spec_distinct(entries),
        0 <= index < entries.len(),
    ensures
        spec_distinct(spec_remove(entries, index)),
        forall|p: (u32, u32)| #[trigger]
            spec_remove(entries, index).contains(p) <==> entries.contains(p) && p
                != entries[index],
{
    let out = spec_remove(entries, index);
    let last = entries.len() - 1;
    assert forall|i: int| 0 <= i < out.len() implies #[trigger] out[i] == entries[if i == index {
        last
    } else {
        i
    }] by {}
    assert forall|i: int, j: int|
        0 <= i < out.len() && 0 <= j < out.len() && i != j implies out[i] != out[j] by {
        let ki = if i == index { last } else { i };
        let kj = if j == index { last } else { j };
        assert(out[i] == entries[ki] && out[j] == entries[kj]);
    }
    assert forall|p: (u32, u32)| #[trigger]
        out.contains(p) <==> entries.contains(p) && p != entries[index] by {
        if out.contains(p) {
            let i = choose|i: int| 0 <= i < out.len() && out[i] == p;
            let ki = if i == index { last } else { i };
            assert(entries[ki] == p);
        }
        if entries.contains(p) && p != entries[index] {
            let k = choose|k: int| 0 <= k < entries.len() && entries[k] == p;
            if k == last {
                assert(out[index] == p);
            } else {
                assert(out[k] == p);
            }
        }
    }
}

/// Removing a coordinate keeps the others, each once.
pub proof fn lemma_remove_coord(entries: Seq<(u32, u32)>, coord: (u32, u32))
    requires
        spec_distinct(entries),
    ensures
        spec_distinct(spec_remove_coord(entries, coord)),
        forall|p: (u32, u32)| #[trigger]
            spec_remove_coord(entries, coord).contains(p) <==> entries.contains(p) && p != coord,
{
    if entries.contains(coord) {
        let index = entries.index_of(coord);
        assert(0 <= index < entries.len() && entries[index] == coord);
        lemma_remove(entries, index);
    }
}

/// A concatenation holds what either part holds.
pub proof fn lemma_concat_contains(
    first: Seq<(u32, u32)>,
    second: Seq<(u32, u32)>,
    p: (u32, u32),
)
    ensures
        (first + second).contains(p) <==> first.contains(p) || second.contains(p),
{
    let both = first + second;
    if first.contains(p) {
        let i = choose|i: int| 0 <= i < first.len() && first[i] == p;
        assert(both[i] == p);
    }
    if second.contains(p) {
        let i = choose|i: int| 0 <= i < second.len() && second[i] == p;
        assert(both[first.len() + i] == p);
    }
    if both.contains(p) {
        let i = choose|i: int| 0 <= i < both.len() && both[i] == p;
        if i < first.len() {
            assert(first[i] == p);
        } else {
            assert(second[i - first.len()] == p);
        }
    }
}

/// A sequence of one cell, or of none, holds that cell or nothing.
pub proof fn lemma_optional_contains(present: bool, cell: (u32, u32), p: (u32, u32))
    ensures
        (if present {
            seq![cell]
        } else {
            Seq::empty()
        }).contains(p) <==> present && p == cell,
{
    let cells: Seq<(u32, u32)> = if present {
        seq![cell]
    } else {
        Seq::empty()
    };
    if present {
        assert(cells[0] == cell);
    }
    if cells.contains(p) {
        let i = choose|i: int| 0 <= i < cells.len() && cells[i] == p;
        assert(cells[i] == p);
    }
}

/// The neighbours of an in-grid cell are the in-grid cells adjacent to it.
pub proof fn lemma_neighbors4(width: u32, height: u32, x: u32, y: u32)
    requires
        spec_in_bounds(width, height, x, y),
    ensures
        forall|p: (u32, u32)| #[trigger]
            spec_neighbors4(width, height, x, y).contains(p) <==> spec_in_bounds(
                width,
                height,
                p.0,
                p.1,
            ) && spec_adjacent((x, y), p),
        spec_all_in_bounds(spec_neighbors4(width, height, x, y), width, height),
{
    let near = spec_neighbors4(width, height, x, y);
    let above = (x, (y + 1) as u32);
    let left = ((x - 1) as u32, y);
    let right = ((x + 1) as u32, y);
    let below = (x, (y - 1) as u32);
    let a: Seq<(u32, u32)> = if x < width && y + 1 < height {
        seq![above]
    } else {
        Seq::empty()
    };
    let b: Seq<(u32, u32)> = if 0 < x <= width && y < height {
        seq![left]
    } else {
        Seq::empty()
    };
    let c: Seq<(u32, u32)> = if x + 1 < width && y < height {
        seq![right]
    } else {
        Seq::empty()
    };
    let d: Seq<(u32, u32)> = if x < width && 0 < y <= height {
        seq![below]
    } else {
        Seq::empty()
    };
    assert(near == a + b + c + d);
    assert forall|p: (u32, u32)| #[trigger]
        near.contains(p) <==> spec_in_bounds(width, height, p.0, p.1) && spec_adjacent(
            (x, y),
            p,
        ) by {
        lemma_concat_contains(a + b + c, d, p);
        lemma_concat_contains(a + b, c, p);
        lemma_concat_contains(a, b, p);
        lemma_optional_contains(x < width && y + 1 < height, above, p);
        lemma_optional_contains(0 < x <= width && y < height, left, p);
        lemma_optional_contains(x + 1 < width && y < height, right, p);
        lemma_optional_contains(x < width && 0 < y <= height, below, p);
    }
    assert forall|i: int| 0 <= i < near.len() implies spec_in_bounds(
        width,
        height,
        (#[trigger] near[i]).0,
        near[i].1,
    ) by {
        assert(near.contains(near[i]));
    }
}

/// Finalizing `cell` marks that cell and no other.
pub proof fn lemma_set_marks(grid: GridView, cell: (u32, u32), color: Color, p: (u32, u32))
    requires
        grid.wf(),
        grid.in_bounds(cell.0, cell.1),
        grid.in_bounds(p.0, p.1),
    ensures
        grid.set(cell.0, cell.1, color).is_finalized(p.0, p.1) == (grid.is_finalized(p.0, p.1) || p
            == cell),
{
    lemma_cell_index_bound(grid.width, grid.height, cell.0, cell.1);
    lemma_cell_index_bound(grid.width, grid.height, p.0, p.1);
    if spec_cell_index(grid.width, p.0, p.1) == spec_cell_index(grid.width, cell.0, cell.1) {
        lemma_cell_index_injective(grid.width, p, cell);
    }
}

/// Finalizing `cell` gives a finalized neighbour to the cells adjacent to
/// it and to no other.
pub proof fn lemma_set_near(grid: GridView, cell: (u32, u32), color: Color, p: (u32, u32))
    requires
        grid.wf(),
        grid.in_bounds(cell.0, cell.1),
        grid.in_bounds(p.0, p.1),
    ensures
        spec_near_finalized(grid.set(cell.0, cell.1, color), p.0, p.1) == (spec_near_finalized(
            grid,
            p.0,
            p.1,
        ) || spec_adjacent(cell, p)),
{
    if p.1 + 1 < grid.height {
        lemma_set_marks(grid, cell, color, (p.0, (p.1 + 1) as u32));
    }
    if p.0 > 0 {
        lemma_set_marks(grid, cell, color, ((p.0 - 1) as u32, p.1));
    }
    if p.0 + 1 < grid.width {
        lemma_set_marks(grid, cell, color, ((p.0 + 1) as u32, p.1));
    }
    if p.1 > 0 {
        lemma_set_marks(grid, cell, color, (p.0, (p.1 - 1) as u32));
    }
}

/// Finalizing an in-grid cell, taking it out of the frontier and inserting
/// its unfinalized neighbours keeps the state valid.
pub proof fn lemma_transition(view: EngineView, cell: (u32, u32), color: Color, base: Seq<(u32, u32)>)
    requires
        view.inv(),
        view.grid.in_bounds(cell.0, cell.1),
        spec_distinct(base),
        forall|p: (u32, u32)| #[trigger] base.contains(p) <==> view.frontier.contains(p) && p != cell,
    ensures
        (EngineView {
            grid: view.grid.set(cell.0, cell.1, color),
            frontier: spec_push_near(
                base,
                view.grid.set(cell.0, cell.1, color),
                view.grid.neighbors4(cell.0, cell.1),
            ),
            randomness: view.randomness,
        }).inv(),
{
    let grid = view.grid.set(cell.0, cell.1, color);
    let near = view.grid.neighbors4(cell.0, cell.1);
    let frontier = spec_push_near(base, grid, near);
    lemma_cell_index_bound(view.grid.width, view.grid.height, cell.0, cell.1);
    assert(grid.colors.dom() =~= view.grid.colors.dom());
    lemma_push_near(base, grid, near);
    lemma_neighbors4(view.grid.width, view.grid.height, cell.0, cell.1);
    assert forall|p: (u32, u32)| #[trigger] frontier.contains(p) <==> spec_on_boundary(grid, p) by {
        assert(base.contains(p) <==> view.frontier.contains(p) && p != cell);
        assert(view.frontier.contains(p) <==> spec_on_boundary(view.grid, p));
        assert(near.contains(p) <==> view.grid.in_bounds(p.0, p.1) && spec_adjacent(cell, p));
        if view.grid.in_bounds(p.0, p.1) {
            lemma_set_marks(view.grid, cell, color, p);
            lemma_set_near(view.grid, cell, color, p);
        }
    }
}

/// Marking one cell lowers the number of unfinalized cells by one where the
/// cell was unfinalized, and leaves it otherwise.
pub proof fn lemma_unfinalized_update(flags: Seq<bool>, index: int)
    requires
        0 <= index < flags.len(),
    ensures
        spec_unfinalized(flags.update(index, true)) + (if flags[index] {
            0nat
        } else {
            1nat
        }) == spec_unfinalized(flags),
    decreases flags.len(),
{
    let after = flags.update(index, true);
    if index == flags.len() - 1 {
        assert(after.drop_last() =~= flags.drop_last());
    } else {
        assert(after.drop_last() =~= flags.drop_last().update(index, true));
        lemma_unfinalized_update(flags.drop_last(), index);
    }
}

/// No cell is unfinalized exactly when every marker is set; and there are
/// never more unfinalized cells than cells.
pub proof fn lemma_unfinalized_zero(flags: Seq<bool>)
    ensures
        spec_unfinalized(flags) <= flags.len(),
        spec_unfinalized(flags) == 0 <==> forall|i: int| 0 <= i < flags.len() ==> flags[i],
        spec_unfinalized(flags) == flags.len() <==> forall|i: int| 0 <= i < flags.len() ==> !flags[i],
    decreases flags.len(),
{
    if flags.len() > 0 {
        let shorter = flags.drop_last();
        lemma_unfinalized_zero(shorter);
        assert forall|i: int| 0 <= i < shorter.len() implies shorter[i] == flags[i] by {}
        if forall|i: int| 0 <= i < flags.len() ==> flags[i] {
            assert forall|i: int| 0 <= i < shorter.len() implies shorter[i] by {
                assert(flags[i]);
            }
        }
        if forall|i: int| 0 <= i < flags.len() ==> !flags[i] {
            assert forall|i: int| 0 <= i < shorter.len() implies !shorter[i] by {
                assert(!flags[i]);
            }
        }
        if spec_unfinalized(flags) == 0 {
            assert forall|i: int| 0 <= i < flags.len() implies flags[i] by {
                if i < shorter.len() {
                    assert(shorter[i]);
                }
            }
        }
        if spec_unfinalized(flags) == flags.len() {
            assert forall|i: int| 0 <= i < flags.len() implies !flags[i] by {
                if i < shorter.len() {
                    assert(!shorter[i]);
                }
            }
        }
    }
}

/// Every row-major position below `width * height` is that of a cell inside
/// the grid.
pub proof fn lemma_index_has_cell(width: u32, height: u32, index: int) -> (cell: (u32, u32))
    requires
        0 <= index < width * height,
    ensures
        spec_in_bounds(width, height, cell.0, cell.1),
        spec_cell_index(width, cell.0, cell.1) == index,
{
    let w = width as int;
    let h = height as int;
    assert(w > 0) by (nonlinear_arith)
        requires
            0 <= index < w * h,
            0 <= w,
            0 <= h,
    ;
    let x = index % w;
    let y = index / w;
    assert(index == y * w + x && 0 <= x < w && 0 <= y < h) by (nonlinear_arith)
        requires
            w > 0,
            0 <= index < w * h,
            x == index % w,
            y == index / w,
    {
        assert(index == w * (index / w) + index % w);
        if y >= h {
            assert(y * w >= h * w);
        }
    }
    (x as u32, y as u32)
}

/// On a connected grid with an empty boundary, one finalized cell means
/// every cell is finalized.
pub proof fn lemma_reach(grid: GridView, from: (u32, u32), to: (u32, u32))
    requires
        grid.wf(),
        grid.in_bounds(from.0, from.1),
        grid.in_bounds(to.0, to.1),
        grid.is_finalized(from.0, from.1),
        forall|p: (u32, u32)| !#[trigger] spec_on_boundary(grid, p),
    ensures
        grid.is_finalized(to.0, to.1),
    decreases
        (if from.0 < to.0 { to.0 - from.0 } else { from.0 - to.0 }) + (if from.1 < to.1 {
            to.1 - from.1
        } else {
            from.1 - to.1
        }),
{
    if to != from {
        let closer: (u32, u32) = if to.0 < from.0 {
            ((to.0 + 1) as u32, to.1)
        } else if to.0 > from.0 {
            ((to.0 - 1) as u32, to.1)
        } else if to.1 < from.1 {
            (to.0, (to.1 + 1) as u32)
        } else {
            (to.0, (to.1 - 1) as u32)
        };
        lemma_reach(grid, from, closer);
        assert(spec_near_finalized(grid, to.0, to.1));
        assert(!spec_on_boundary(grid, to));
    }
}

/// Total coverage: once the frontier is empty, a grid with one finalized
/// cell has every cell finalized.
pub proof fn lemma_coverage(view: EngineView, seed: (u32, u32))
    requires
        view.inv(),
        view.is_done(),
        view.grid.in_bounds(seed.0, seed.1),
        view.grid.is_finalized(seed.0, seed.1),
    ensures
        view.all_finalized(),
        view.unfinalized() == 0,
{
    assert forall|p: (u32, u32)| !#[trigger] spec_on_boundary(view.grid, p) by {
        assert(view.frontier.contains(p) <==> spec_on_boundary(view.grid, p));
    }
    assert forall|p: (u32, u32)| view.grid.in_bounds(p.0, p.1) implies #[trigger]
        view.grid.is_finalized(p.0, p.1) by {
        lemma_reach(view.grid, seed, p);
    }
    assert forall|i: int| 0 <= i < view.grid.finalized.len() implies view.grid.finalized[i] by {
        let cell = lemma_index_has_cell(view.grid.width, view.grid.height, i);
        assert(view.grid.is_finalized(cell.0, cell.1));
    }
    lemma_unfinalized_zero(view.grid.finalized);
}

/// A blank grid has every cell unfinalized, and so no boundary.
pub proof fn lemma_blank_unfinalized(width: u32, height: u32)
    ensures
        spec_unfinalized(GridView::blank(width, height).finalized) == width * height,
        forall|p: (u32, u32)| !#[trigger] spec_on_boundary(GridView::blank(width, height), p),
{
    let grid = GridView::blank(width, height);
    lemma_unfinalized_zero(grid.finalized);
    assert forall|p: (u32, u32)| !#[trigger] spec_on_boundary(grid, p) by {
        if grid.in_bounds(p.0, p.1) {
            if p.1 + 1 < height {
                lemma_cell_index_bound(width, height, p.0, (p.1 + 1) as u32);
            }
            if p.0 > 0 {
                lemma_cell_index_bound(width, height, (p.0 - 1) as u32, p.1);
            }
            if p.0 + 1 < width {
                lemma_cell_index_bound(width, height, (p.0 + 1) as u32, p.1);
            }
            if p.1 > 0 {
                lemma_cell_index_bound(width, height, p.0, (p.1 - 1) as u32);
            }
        }
    }
}

/// One iteration keeps the state valid, finalizes a cell that was not
/// finalized before and no other, and so lowers the number of unfinalized
/// cells by exactly one.
pub proof fn lemma_step(view: EngineView, draw: Draw)
    requires
        view.inv(),
        draw.index < view.frontier.len(),
    ensures
        view.step(draw).inv(),
        view.grid.in_bounds(view.frontier[draw.index as int].0, view.frontier[draw.index as int].1),
        !view.grid.is_finalized(
            view.frontier[draw.index as int].0,
            view.frontier[draw.index as int].1,
        ),
        view.step(draw).grid.is_finalized(
            view.frontier[draw.index as int].0,
            view.frontier[draw.index as int].1,
        ),
        view.step(draw).grid.color_at(
            view.frontier[draw.index as int].0,
            view.frontier[draw.index as int].1,
        ) == view.drawn_color(draw),
        forall|p: (u32, u32)|
            view.grid.in_bounds(p.0, p.1) && p != view.frontier[draw.index as int] ==> #[trigger]
            view.step(draw).grid.is_finalized(p.0, p.1) == view.grid.is_finalized(p.0, p.1)
                && view.step(draw).grid.color_at(p.0, p.1) == view.grid.color_at(p.0, p.1),
        view.step(draw).unfinalized() + 1 == view.unfinalized(),
{
    let cell = view.frontier[draw.index as int];
    let color = view.drawn_color(draw);
    assert(view.frontier.contains(cell));
    assert(spec_on_boundary(view.grid, cell));
    lemma_remove(view.frontier, draw.index as int);
    lemma_transition(view, cell, color, spec_remove(view.frontier, draw.index as int));
    lemma_cell_index_bound(view.grid.width, view.grid.height, cell.0, cell.1);
    lemma_unfinalized_update(view.grid.finalized, spec_cell_index(view.grid.width, cell.0, cell.1));
    lemma_set_marks(view.grid, cell, color, cell);
    assert forall|p: (u32, u32)|
        view.grid.in_bounds(p.0, p.1) && p != cell implies #[trigger] view.step(
        draw,
    ).grid.is_finalized(p.0, p.1) == view.grid.is_finalized(p.0, p.1) && view.step(
        draw,
    ).grid.color_at(p.0, p.1) == view.grid.color_at(p.0, p.1) by {
        lemma_set_marks(view.grid, cell, color, p);
    }
}

/// Finalizing a chosen in-grid cell keeps the state valid, and lowers the
/// number of unfinalized cells by one unless the cell was finalized already.
pub proof fn lemma_finalize(view: EngineView, cell: (u32, u32), color: Color)
    requires
        view.inv(),
        view.grid.in_bounds(cell.0, cell.1),
    ensures
        view.finalize(cell, color).inv(),
        view.finalize(cell, color).grid.is_finalized(cell.0, cell.1),
        view.finalize(cell, color).grid.color_at(cell.0, cell.1) == color,
        view.finalize(cell, color).unfinalized() + (if view.grid.is_finalized(cell.0, cell.1) {
            0nat
        } else {
            1nat
        }) == view.unfinalized(),
{
    lemma_remove_coord(view.frontier, cell);
    lemma_transition(view, cell, color, spec_remove_coord(view.frontier, cell));
    lemma_cell_index_bound(view.grid.width, view.grid.height, cell.0, cell.1);
    lemma_unfinalized_update(view.grid.finalized, spec_cell_index(view.grid.width, cell.0, cell.1));
    lemma_set_marks(view.grid, cell, color, cell);
}

/// Applying one more valid draw after a run of valid draws is one more
/// iteration.
pub proof fn lemma_replay_push(view: EngineView, draws: Seq<Draw>, draw: Draw)
    requires
        view.replayed(draws) == draws.len(),
        view.replay(draws).draw_valid(draw),
    ensures
        view.replay(draws.push(draw)) == view.replay(draws).step(draw),
        view.replayed(draws.push(draw)) == draws.len() + 1,
    decreases draws.len(),
{
    let longer = draws.push(draw);
    if draws.len() == 0 {
        let rest = longer.drop_first();
        assert(longer[0] == draw);
        assert(rest.len() == 0);
        assert(view.replay(draws) == view);
        assert(view.step(draw).replay(rest) == view.step(draw));
        assert(view.step(draw).replayed(rest) == 0);
        assert(view.replay(longer) == view.step(draw).replay(rest));
        assert(view.replayed(longer) == 1 + view.step(draw).replayed(rest));
    } else {
        let next = view.step(draws[0]);
        assert(longer[0] == draws[0]);
        assert(longer.drop_first() =~= draws.drop_first().push(draw));
        assert(view.draw_valid(draws[0]));
        assert(view.replay(draws) == next.replay(draws.drop_first()));
        assert(view.replayed(draws) == 1 + next.replayed(draws.drop_first()));
        lemma_replay_push(next, draws.drop_first(), draw);
        assert(view.replay(longer) == next.replay(longer.drop_first()));
        assert(view.replayed(longer) == 1 + next.replayed(longer.drop_first()));
    }
}

/// Determinism: states that agree, given the same draws, end in states that
/// agree, after the same number of iterations.
pub proof fn lemma_replay_deterministic(first: EngineView, second: EngineView, draws: Seq<Draw>)
    requires
        first.grid.width == second.grid.width,
        first.grid.height == second.grid.height,
        first.grid.colors =~= second.grid.colors,
        first.grid.finalized =~= second.grid.finalized,
        first.frontier =~= second.frontier,
        first.randomness == second.randomness,
    ensures
        first.replay(draws) == second.replay(draws),
        first.replayed(draws) == second.replayed(draws),
{
}

/// With a randomness bound of zero, an iteration gives the cell it takes
/// exactly the rounded average of its neighbours finalized at that time.
pub proof fn lemma_step_zero_randomness(view: EngineView, draw: Draw)
    requires
        view.inv(),
        view.randomness == 0,
        view.draw_valid(draw),
    ensures
        view.step(draw).grid.color_at(
            view.frontier[draw.index as int].0,
            view.frontier[draw.index as int].1,
        ) == spec_average_color(
            view.grid,
            view.frontier[draw.index as int].0,
            view.frontier[draw.index as int].1,
        ),
{
    let cell = view.frontier[draw.index as int];
    lemma_step(view, draw);
    lemma_zero_randomness(view.grid, cell.0, cell.1, draw.jitter);
}

/// A run of valid draws keeps the state valid and finalizes one cell per
/// draw.
pub proof fn lemma_replay(view: EngineView, draws: Seq<Draw>)
    requires
        view.inv(),
    ensures
        view.replay(draws).inv(),
        view.replayed(draws) <= draws.len(),
        view.replay(draws).unfinalized() + view.replayed(draws) == view.unfinalized(),
        view.replay(draws).grid.width == view.grid.width,
        view.replay(draws).grid.height == view.grid.height,
        view.replay(draws).randomness == view.randomness,
    decreases draws.len(),
{
    if draws.len() > 0 && view.draw_valid(draws[0]) {
        lemma_step(view, draws[0]);
        lemma_replay(view.step(draws[0]), draws.drop_first());
    }
}

/// A fresh engine is valid.
pub proof fn lemma_fresh(width: u32, height: u32, randomness: i16)
    requires
        width * height <= usize::MAX,
        randomness >= 0,
    ensures
        EngineView::fresh(width, height, randomness).inv(),
        EngineView::fresh(width, height, randomness).unfinalized() == width * height,
{
    lemma_blank_unfinalized(width, height);
}

/// Seeding keeps the state valid and finalizes the seeds and nothing else;
/// distinct seeds on unfinalized cells lower the number of unfinalized cells
/// by one each.
pub proof fn lemma_seed_all(view: EngineView, seeds: Seq<Seed>)
    requires
        view.inv(),
        spec_seeds_in_bounds(seeds, view.grid.width, view.grid.height),
    ensures
        view.seed_all(seeds).inv(),
        view.seed_all(seeds).grid.width == view.grid.width,
        view.seed_all(seeds).grid.height == view.grid.height,
        view.seed_all(seeds).randomness == view.randomness,
        forall|p: (u32, u32)|
            view.grid.in_bounds(p.0, p.1) ==> (#[trigger] view.seed_all(seeds).grid.is_finalized(
                p.0,
                p.1,
            ) <==> view.grid.is_finalized(p.0, p.1) || spec_is_seed(seeds, p)),
        spec_seeds_distinct(seeds) && (forall|i: int|
            0 <= i < seeds.len() ==> !view.grid.is_finalized((#[trigger] seeds[i]).x, seeds[i].y))
            ==> view.seed_all(seeds).unfinalized() + seeds.len() == view.unfinalized(),
    decreases seeds.len(),
{
    if seeds.len() > 0 {
        let earlier = seeds.drop_last();
        let seed = seeds.last();
        let cell = (seed.x, seed.y);
        let mid = view.seed_all(earlier);
        let out = view.seed_all(seeds);
        assert(seeds[seeds.len() - 1] == seed);
        assert forall|i: int| 0 <= i < earlier.len() implies #[trigger] earlier[i] == seeds[i] by {}
        lemma_seed_all(view, earlier);
        lemma_finalize(mid, cell, seed.color);
        assert forall|p: (u32, u32)| view.grid.in_bounds(p.0, p.1) implies (#[trigger] out.grid.is_finalized(
            p.0,
            p.1,
        ) <==> view.grid.is_finalized(p.0, p.1) || spec_is_seed(seeds, p)) by {
            lemma_set_marks(mid.grid, cell, seed.color, p);
            assert(mid.grid.is_finalized(p.0, p.1) <==> view.grid.is_finalized(p.0, p.1)
                || spec_is_seed(earlier, p));
            if spec_is_seed(earlier, p) {
                let i = choose|i: int|
                    0 <= i < earlier.len() && (#[trigger] earlier[i]).x == p.0 && earlier[i].y
                        == p.1;
                assert(seeds[i].x == p.0 && seeds[i].y == p.1);
            }
            if spec_is_seed(seeds, p) && p != cell {
                let i = choose|i: int|
                    0 <= i < seeds.len() && (#[trigger] seeds[i]).x == p.0 && seeds[i].y == p.1;
                assert(earlier[i].x == p.0 && earlier[i].y == p.1);
            }
        }
        if spec_seeds_distinct(seeds) && (forall|i: int|
            0 <= i < seeds.len() ==> !view.grid.is_finalized((#[trigger] seeds[i]).x, seeds[i].y)) {
            assert(spec_seeds_distinct(earlier));
            assert forall|i: int| 0 <= i < earlier.len() implies !view.grid.is_finalized(
                (#[trigger] earlier[i]).x,
                earlier[i].y,
            ) by {
                assert(earlier[i] == seeds[i]);
            }
            if spec_is_seed(earlier, cell) {
                let i = choose|i: int|
                    0 <= i < earlier.len() && (#[trigger] earlier[i]).x == cell.0 && earlier[i].y
                        == cell.1;
                assert(seeds[i] == earlier[i]);
                assert(false);
            }
            assert(mid.grid.is_finalized(cell.0, cell.1) <==> view.grid.is_finalized(cell.0, cell.1)
                || spec_is_seed(earlier, cell));
            assert(!mid.grid.is_finalized(cell.0, cell.1));
        }
    }
}

/// A cell once finalized stays finalized through any run of draws.
pub proof fn lemma_replay_keeps_finalized(view: EngineView, draws: Seq<Draw>, cell: (u32, u32))
    requires
        view.inv(),
        view.grid.in_bounds(cell.0, cell.1),
        view.grid.is_finalized(cell.0, cell.1),
    ensures
        view.replay(draws).grid.is_finalized(cell.0, cell.1),
    decreases draws.len(),
{
    if draws.len() > 0 && view.draw_valid(draws[0]) {
        lemma_step(view, draws[0]);
        lemma_replay_keeps_finalized(view.step(draws[0]), draws.drop_first(), cell);
    }
}

/// Termination and total coverage: from a fresh grid of `width * height`
/// cells with at least one seed, all seeds distinct, every run of valid
/// draws that empties the frontier has exactly `width * height` minus the
/// number of seeds iterations, and leaves every cell finalized.
pub proof fn lemma_complete_run(
    width: u32,
    height: u32,
    randomness: i16,
    seeds: Seq<Seed>,
    draws: Seq<Draw>,
)
    requires
        width * height <= usize::MAX,
        randomness >= 0,
        seeds.len() >= 1,
        spec_seeds_in_bounds(seeds, width, height),
        spec_seeds_distinct(seeds),
        EngineView::fresh(width, height, randomness).seed_all(seeds).replayed(draws)
            == draws.len(),
        EngineView::fresh(width, height, randomness).seed_all(seeds).replay(draws).is_done(),
    ensures
        draws.len() == width * height - seeds.len(),
        EngineView::fresh(width, height, randomness).seed_all(seeds).replay(draws).all_finalized(),
{
    let fresh = EngineView::fresh(width, height, randomness);
    let start = fresh.seed_all(seeds);
    let end = start.replay(draws);
    lemma_fresh(width, height, randomness);
    lemma_unfinalized_zero(fresh.grid.finalized);
    assert forall|i: int| 0 <= i < seeds.len() implies !fresh.grid.is_finalized(
        (#[trigger] seeds[i]).x,
        seeds[i].y,
    ) by {
        lemma_cell_index_bound(width, height, seeds[i].x, seeds[i].y);
    }
    lemma_seed_all(fresh, seeds);
    let origin = (seeds[0].x, seeds[0].y);
    assert(spec_is_seed(seeds, origin));
    assert(start.grid.is_finalized(origin.0, origin.1));
    lemma_replay(start, draws);
    lemma_replay_keeps_finalized(start, draws, origin);
    lemma_coverage(end, origin);
}

} // verus!
