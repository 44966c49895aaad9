//! The diffusion engine: seeding, single iterations and the whole fill.

use vstd::prelude::*;
use rand::rngs::StdRng;
use crate::color::Color;
use crate::error::FillError;
use crate::frontier::Frontier;
use crate::grid::{GridView, PixelGrid};
use crate::model::{
    lemma_blank_unfinalized, lemma_coverage, lemma_finalize, lemma_replay_push, lemma_step,
    lemma_unfinalized_zero, spec_push_near, spec_seeds_in_bounds, Draw, EngineView, Seed,
};
use crate::random::random_index;
use crate::synthesis::random_jitter;

verus! {

/// A fill in progress: the grid, the frontier and the randomness bound.
pub struct Diffusion {
    grid: PixelGrid,
    frontier: Frontier,
    randomness: i16,
}

impl View for Diffusion {
    type V = EngineView;

    closed spec fn view(&self) -> EngineView {
        EngineView { grid: self.grid@, frontier: self.frontier@, randomness: self.randomness }
    }
}

impl Diffusion {
    /// The grid and the frontier are valid and of one size.
    pub closed spec fn parts_agree(&self) -> bool {
        &&& self.grid.wf()
        &&& self.frontier.wf()
        &&& self.frontier.grid_width() == self.grid@.width
        &&& self.frontier.grid_height() == self.grid@.height
    }

    /// Validity: the frontier holds, once each, exactly the unfinalized
    /// cells beside a finalized one.
    pub open spec fn wf(&self) -> bool {
        &&& self.parts_agree()
        &&& self@.inv()
    }

    /// An engine over a blank grid, with nothing seeded yet.
    pub fn new(width: u32, height: u32, randomness: i16) -> (engine: Diffusion)
        requires
            width > 0,
            height > 0,
            randomness >= 0,
            3 * width * height <= isize::MAX,
        ensures
            engine.wf(),
            engine@.grid == GridView::blank(width, height),
            engine@.frontier == Seq::<(u32, u32)>::empty(),
            engine@.randomness == randomness,
    {
        let grid = PixelGrid::new(width, height);
        let frontier = Frontier::new(width, height);
        let engine = Diffusion { grid, frontier, randomness };
        proof {
            lemma_blank_unfinalized(width, height);
        }
        engine
    }

    pub fn grid(&self) -> (grid: &PixelGrid)
        ensures
            grid@ == self@.grid,
            self.wf() ==> grid.wf(),
    {
        &self.grid
    }

    pub fn into_grid(self) -> (grid: PixelGrid)
        ensures
            grid@ == self@.grid,
            self.wf() ==> grid.wf(),
    {
        self.grid
    }

    pub fn randomness(&self) -> (randomness: i16)
        ensures
            randomness == self@.randomness,
    {
        self.randomness
    }

    /// How many cells wait in the frontier.
    pub fn frontier_len(&self) -> (count: usize)
        ensures
            count == self@.frontier.len(),
    {
        self.frontier.len()
    }

    /// Whether the frontier is empty: nothing is left to finalize.
    pub fn is_done(&self) -> (done: bool)
        ensures
            done == self@.is_done(),
    {
        self.frontier.is_empty()
    }

    /// Inserts the unfinalized neighbours of `(x, y)` into the frontier.
    fn push_near(&mut self, x: u32, y: u32)
        requires
            old(self).parts_agree(),
        ensures
            final(self).parts_agree(),
            final(self)@.grid == old(self)@.grid,
            final(self)@.randomness == old(self)@.randomness,
            final(self)@.frontier == spec_push_near(
                old(self)@.frontier,
                old(self)@.grid,
                old(self)@.grid.neighbors4(x, y),
            ),
    {
        let near = self.grid.neighbors4(x, y);
        let mut i: usize = 0;
        while i < near.len()
            invariant
                self.parts_agree(),
                self.grid == old(self).grid,
                self.randomness == old(self).randomness,
                near@ == old(self)@.grid.neighbors4(x, y),
                i <= near@.len(),
                self.frontier@ == spec_push_near(
                    old(self)@.frontier,
                    old(self)@.grid,
                    near@.take(i as int),
                ),
            decreases near@.len() - i,
        {
            let cell = near[i];
            proof {
                assert(near@.take(i + 1).drop_last() =~= near@.take(i as int));
                assert(near@.take(i + 1).last() == cell);
                assert(old(self)@.grid.neighbors4(x, y)[i as int] == cell);
                assert(self.grid@.in_bounds(cell.0, cell.1));
            }
            match self.grid.get(cell.0, cell.1) {
                Ok((_, finalized)) => {
                    if !finalized {
                        let _ = self.frontier.insert(cell);
                    }
                },
                Err(_) => {},
            }
            i = i + 1;
        }
        proof {
            assert(near@.take(i as int) =~= near@);
        }
    }

    /// Finalizes `(x, y)` with `color` as a seed: the cell leaves the
    /// frontier if it was waiting there, and its unfinalized neighbours
    /// enter. Refused outside the grid, with nothing changed.
    pub fn seed(&mut self, x: u32, y: u32, color: Color) -> (done: Result<(), FillError>)
        requires
            old(self).wf(),
        ensures
            final(self).wf(),
            old(self)@.grid.in_bounds(x, y) ==> done == Ok::<(), FillError>(()) && final(self)@
                == old(self)@.finalize((x, y), color) && final(self)@.unfinalized() + (if old(
                self,
            )@.grid.is_finalized(x, y) {
                0nat
            } else {
                1nat
            }) == old(self)@.unfinalized(),
            !old(self)@.grid.in_bounds(x, y) ==> done == Err::<(), FillError>(
                FillError::OutOfBounds,
            ) && final(self)@ == old(self)@,
    {
        if x >= self.grid.width() || y >= self.grid.height() {
            return Err(FillError::OutOfBounds);
        }
        let _ = self.frontier.remove((x, y));
        let _ = self.grid.set(x, y, color);
        self.push_near(x, y);
        proof {
            lemma_finalize(old(self)@, (x, y), color);
        }
        Ok(())
    }

    /// Finalizes every seed in order; refused, with nothing changed, where
    /// one of them lies outside the grid.
    pub fn seed_all(&mut self, seeds: &Vec<Seed>) -> (done: Result<(), FillError>)
        requires
            old(self).wf(),
        ensures
            final(self).wf(),
            spec_seeds_in_bounds(seeds@, old(self)@.grid.width, old(self)@.grid.height) ==> done
                == Ok::<(), FillError>(()) && final(self)@ == old(self)@.seed_all(seeds@),
            !spec_seeds_in_bounds(seeds@, old(self)@.grid.width, old(self)@.grid.height) ==> done
                == Err::<(), FillError>(FillError::OutOfBounds) && final(self)@ == old(self)@,
    {
        let width: u32 = self.grid.width();
        let height: u32 = self.grid.height();
        let mut i: usize = 0;
        while i < seeds.len()
            invariant
                self.wf(),
                self@ == old(self)@,
                width == self@.grid.width,
                height == self@.grid.height,
                i <= seeds@.len(),
                spec_seeds_in_bounds(seeds@.take(i as int), width, height),
            decreases seeds@.len() - i,
        {
            if seeds[i].x >= width || seeds[i].y >= height {
                assert(!crate::grid::spec_in_bounds(width, height, seeds@[i as int].x, seeds@[i as int].y));
                return Err(FillError::OutOfBounds);
            }
            proof {
                assert forall|k: int| 0 <= k < i + 1 implies crate::grid::spec_in_bounds(
                    width,
                    height,
                    (#[trigger] seeds@.take(i + 1)[k]).x,
                    seeds@.take(i + 1)[k].y,
                ) by {
                    if k < i {
                        assert(seeds@.take(i as int)[k] == seeds@.take(i + 1)[k]);
                    }
                }
            }
            i = i + 1;
        }
        assert(seeds@.take(i as int) =~= seeds@);
        let mut i: usize = 0;
        while i < seeds.len()
            invariant
                self.wf(),
                i <= seeds@.len(),
                self@.grid.width == width,
                self@.grid.height == height,
                spec_seeds_in_bounds(seeds@, width, height),
                self@ == old(self)@.seed_all(seeds@.take(i as int)),
            decreases seeds@.len() - i,
        {
            let seed = seeds[i];
            proof {
                assert(seeds@.take(i + 1).drop_last() =~= seeds@.take(i as int));
                assert(seeds@.take(i + 1).last() == seed);
            }
            let _ = self.seed(seed.x, seed.y, seed.color);
            i = i + 1;
        }
        assert(seeds@.take(i as int) =~= seeds@);
        Ok(())
    }

    /// Seeds the centre of the grid with pure white.
    pub fn seed_center(&mut self)
        requires
            old(self).wf(),
            old(self)@.grid.width > 0,
            old(self)@.grid.height > 0,
        ensures
            final(self).wf(),
            final(self)@ == old(self)@.finalize(
                (old(self)@.grid.width / 2, old(self)@.grid.height / 2),
                Color { red: 255, green: 255, blue: 255 },
            ),
    {
        let x: u32 = self.grid.width() / 2;
        let y: u32 = self.grid.height() / 2;
        let _ = self.seed(x, y, Color { red: 255, green: 255, blue: 255 });
    }

    /// One iteration with the given draw: the frontier entry at
    /// `draw.index` is coloured by the synthesis rule with `draw.jitter`,
    /// finalized, and replaced in the frontier by its unfinalized
    /// neighbours. Returns the cell finalized.
    pub fn step(&mut self, draw: Draw) -> (taken: Result<(u32, u32), FillError>)
        requires
            old(self).wf(),
        ensures
            final(self).wf(),
            old(self)@.is_done() ==> taken == Err::<(u32, u32), FillError>(
                FillError::EmptyFrontier,
            ) && final(self)@ == old(self)@,
            !old(self)@.is_done() && !old(self)@.draw_valid(draw) ==> taken == Err::<
                (u32, u32),
                FillError,
            >(FillError::InvalidDraw) && final(self)@ == old(self)@,
            old(self)@.draw_valid(draw) ==> taken == Ok::<(u32, u32), FillError>(
                old(self)@.frontier[draw.index as int],
            ) && final(self)@ == old(self)@.step(draw) && !old(self)@.grid.is_finalized(
                old(self)@.frontier[draw.index as int].0,
                old(self)@.frontier[draw.index as int].1,
            ) && final(self)@.unfinalized() + 1 == old(self)@.unfinalized(),
    {
        if self.frontier.is_empty() {
            return Err(FillError::EmptyFrontier);
        }
        let bound: i16 = self.randomness;
        let jitter = draw.jitter;
        if draw.index >= self.frontier.len() || jitter.red < -bound || jitter.red > bound
            || jitter.green < -bound || jitter.green > bound || jitter.blue < -bound || jitter.blue
            > bound {
            return Err(FillError::InvalidDraw);
        }
        proof {
            lemma_step(old(self)@, draw);
        }
        let cell = match self.frontier.draw_at(draw.index) {
            Ok(cell) => cell,
            Err(refusal) => {
                return Err(refusal);
            },
        };
        let color = self.grid.synthesize(cell.0, cell.1, jitter);
        let _ = self.grid.set(cell.0, cell.1, color);
        self.push_near(cell.0, cell.1);
        Ok(cell)
    }

    /// One iteration with its draw taken from `rng`: a uniformly chosen
    /// frontier entry and three independent perturbations.
    pub fn step_random(&mut self, rng: &mut StdRng) -> (taken: Result<(u32, u32), FillError>)
        requires
            old(self).wf(),
        ensures
            final(self).wf(),
            old(self)@.is_done() ==> taken == Err::<(u32, u32), FillError>(
                FillError::EmptyFrontier,
            ) && final(self)@ == old(self)@,
            !old(self)@.is_done() ==> exists|draw: Draw|
                old(self)@.draw_valid(draw) && taken == Ok::<(u32, u32), FillError>(
                    old(self)@.frontier[draw.index as int],
                ) && final(self)@ == #[trigger] old(self)@.step(draw),
            !old(self)@.is_done() ==> final(self)@.unfinalized() + 1 == old(self)@.unfinalized(),
    {
        if self.frontier.is_empty() {
            return Err(FillError::EmptyFrontier);
        }
        let index = random_index(rng, self.frontier.len());
        let jitter = random_jitter(rng, self.randomness);
        self.step(Draw { index, jitter })
    }

    /// Runs iterations with draws from `rng` until the frontier is empty,
    /// and returns how many it ran.
    pub fn fill(&mut self, rng: &mut StdRng) -> (steps: usize)
        requires
            old(self).wf(),
        ensures
            final(self).wf(),
            final(self)@.is_done(),
            exists|draws: Seq<Draw>|
                draws.len() == steps && old(self)@.replayed(draws) == steps && final(self)@
                    == #[trigger] old(self)@.replay(draws),
            steps + final(self)@.unfinalized() == old(self)@.unfinalized(),
            old(self)@.some_finalized() ==> final(self)@.all_finalized() && steps == old(
                self,
            )@.unfinalized(),
    {
        let mut steps: usize = 0;
        let ghost mut draws: Seq<Draw> = Seq::empty();
        let ghost origin: (u32, u32) = choose|p: (u32, u32)|
            old(self)@.grid.in_bounds(p.0, p.1) && old(self)@.grid.is_finalized(p.0, p.1);
        proof {
            lemma_unfinalized_zero(old(self)@.grid.finalized);
        }
        while !self.frontier.is_empty()
            invariant
                self.wf(),
                old(self)@.unfinalized() <= usize::MAX,
                draws.len() == steps,
                old(self)@.replayed(draws) == steps,
                self@ == old(self)@.replay(draws),
                steps + self@.unfinalized() == old(self)@.unfinalized(),
                self@.grid.width == old(self)@.grid.width,
                self@.grid.height == old(self)@.grid.height,
                old(self)@.some_finalized() ==> self@.grid.in_bounds(origin.0, origin.1)
                    && self@.grid.is_finalized(origin.0, origin.1),
            decreases self@.unfinalized(),
        {
            let ghost before = self@;
            let taken = self.step_random(rng);
            proof {
                let draw = choose|draw: Draw|
                    before.draw_valid(draw) && taken == Ok::<(u32, u32), FillError>(
                        before.frontier[draw.index as int],
                    ) && self@ == #[trigger] before.step(draw);
                lemma_replay_push(old(self)@, draws, draw);
                lemma_step(before, draw);
                draws = draws.push(draw);
            }
            steps = steps + 1;
        }
        proof {
            if old(self)@.some_finalized() {
                lemma_coverage(self@, origin);
            }
        }
        steps
    }

    /// Applies the given draws in order, stopping before the first that is
    /// not valid where it comes, and returns how many were applied.
    pub fn replay(&mut self, draws: &Vec<Draw>) -> (applied: usize)
        requires
            old(self).wf(),
        ensures
            final(self).wf(),
            final(self)@ == old(self)@.replay(draws@),
            applied == old(self)@.replayed(draws@),
    {
        let mut i: usize = 0;
        assert(draws@.skip(0) =~= draws@);
        while i < draws.len()
            invariant
                self.wf(),
                i <= draws@.len(),
                self@.replay(draws@.skip(i as int)) == old(self)@.replay(draws@),
                i + self@.replayed(draws@.skip(i as int)) == old(self)@.replayed(draws@),
            decreases draws@.len() - i,
        {
            let draw = draws[i];
            proof {
                assert(draws@.skip(i as int)[0] == draw);
                assert(draws@.skip(i as int).drop_first() =~= draws@.skip(i + 1));
            }
            match self.step(draw) {
                Ok(_) => {},
                Err(_) => {
                    return i;
                },
            }
            i = i + 1;
        }
        i
    }
}

/// A finished image: a fresh grid seeded with pure white at its centre and
/// filled with draws from `rng`.
pub fn generate_image(width: u32, height: u32, randomness: i16, rng: &mut StdRng) -> (grid:
    PixelGrid)
    requires
        width > 0,
        height > 0,
        randomness >= 0,
        3 * width * height <= isize::MAX,
    ensures
        grid.wf(),
        grid@.width == width,
        grid@.height == height,
        forall|p: (u32, u32)| grid@.in_bounds(p.0, p.1) ==> #[trigger] grid@.is_finalized(p.0, p.1),
        exists|draws: Seq<Draw>|
            draws.len() == width * height - 1 && EngineView::centered(
                width,
                height,
                randomness,
            ).replayed(draws) == draws.len() && grid@ == (#[trigger] EngineView::centered(
                width,
                height,
                randomness,
            ).replay(draws)).grid,
{
    let mut engine = Diffusion::new(width, height, randomness);
    engine.seed_center();
    proof {
        let fresh = EngineView::fresh(width, height, randomness);
        let white = Color { red: 255, green: 255, blue: 255 };
        assert(engine@ == EngineView::centered(width, height, randomness));
        lemma_blank_unfinalized(width, height);
        lemma_finalize(fresh, (width / 2, height / 2), white);
        crate::grid::lemma_cell_index_bound(width, height, width / 2, height / 2);
        assert(!fresh.grid.is_finalized(width / 2, height / 2));
        assert(engine@.grid.is_finalized(width / 2, height / 2));
        assert(engine@.some_finalized());
    }
    let ghost start = engine@;
    let steps = engine.fill(rng);
    proof {
        let draws = choose|draws: Seq<Draw>|
            draws.len() == steps && start.replayed(draws) == steps && engine@
                == #[trigger] start.replay(draws);
        crate::model::lemma_replay(start, draws);
        assert(start.replay(draws).grid == engine@.grid);
    }
    engine.into_grid()
}

} // verus!
