//! The colour-synthesis rule: the rounded average of the finalized
//! neighbours, then a clamped perturbation per channel.

use vstd::prelude::*;
use rand::rngs::StdRng;
use crate::color::{
    channel_average, lemma_average_is_byte, perturb, spec_channel_average, spec_jitter_within,
    spec_perturb, Color, Jitter,
};
use crate::grid::{GridView, PixelGrid};
use crate::random::random_offset;

verus! {

/// How many of some cells are finalized, and their channel sums.
pub struct Tally {
    pub count: int,
    pub red: int,
    pub green: int,
    pub blue: int,
}

/// The tally of the finalized cells among `cells`.
pub open spec fn spec_tally(grid: GridView, cells: Seq<(u32, u32)>) -> Tally
    decreases cells.len(),
{
    if cells.len() == 0 {
        Tally { count: 0, red: 0, green: 0, blue: 0 }
    } else {
        let rest = spec_tally(grid, cells.drop_last());
        let cell = cells.last();
        if grid.is_finalized(cell.0, cell.1) {
            let color = grid.color_at(cell.0, cell.1);
            Tally {
                count: rest.count + 1,
                red: rest.red + color.red,
                green: rest.green + color.green,
                blue: rest.blue + color.blue,
            }
        } else {
            rest
        }
    }
}

/// The rounded average colour of the finalized neighbours of `(x, y)`; with
/// none finalized the sums are divided by one.
pub open spec fn spec_average_color(grid: GridView, x: u32, y: u32) -> Color {
    let tally = spec_tally(grid, grid.neighbors4(x, y));
    Color {
        red: spec_channel_average(tally.red, tally.count) as u8,
        green: spec_channel_average(tally.green, tally.count) as u8,
        blue: spec_channel_average(tally.blue, tally.count) as u8,
    }
}

/// The average colour with each channel moved by its jitter and clamped.
pub open spec fn spec_synthesize(grid: GridView, x: u32, y: u32, jitter: Jitter) -> Color {
    let average = spec_average_color(grid, x, y);
    Color {
        red: spec_perturb(average.red as int, jitter.red as int) as u8,
        green: spec_perturb(average.green as int, jitter.green as int) as u8,
        blue: spec_perturb(average.blue as int, jitter.blue as int) as u8,
    }
}

/// A tally counts at most every cell, and each sum is at most 255 per cell
/// counted.
pub proof fn lemma_tally_bounds(grid: GridView, cells: Seq<(u32, u32)>)
    ensures
        0 <= spec_tally(grid, cells).count <= cells.len(),
        0 <= spec_tally(grid, cells).red <= 255 * spec_tally(grid, cells).count,
        0 <= spec_tally(grid, cells).green <= 255 * spec_tally(grid, cells).count,
        0 <= spec_tally(grid, cells).blue <= 255 * spec_tally(grid, cells).count,
    decreases cells.len(),
{
    if cells.len() > 0 {
        lemma_tally_bounds(grid, cells.drop_last());
    }
}

/// The average colour loses nothing to its byte channels: each is the
/// rounded average itself.
pub proof fn lemma_average_exact(grid: GridView, x: u32, y: u32)
    ensures
        spec_average_color(grid, x, y).red == spec_channel_average(
            spec_tally(grid, grid.neighbors4(x, y)).red,
            spec_tally(grid, grid.neighbors4(x, y)).count,
        ),
        spec_average_color(grid, x, y).green == spec_channel_average(
            spec_tally(grid, grid.neighbors4(x, y)).green,
            spec_tally(grid, grid.neighbors4(x, y)).count,
        ),
        spec_average_color(grid, x, y).blue == spec_channel_average(
            spec_tally(grid, grid.neighbors4(x, y)).blue,
            spec_tally(grid, grid.neighbors4(x, y)).count,
        ),
{
    let tally = spec_tally(grid, grid.neighbors4(x, y));
    lemma_tally_bounds(grid, grid.neighbors4(x, y));
    lemma_average_is_byte(tally.red, tally.count);
    lemma_average_is_byte(tally.green, tally.count);
    lemma_average_is_byte(tally.blue, tally.count);
}

/// Every channel of a synthesized colour is the perturbed average itself,
/// which lies in `[0, 255]` whatever the jitter.
pub proof fn lemma_synthesized_is_byte(grid: GridView, x: u32, y: u32, jitter: Jitter)
    ensures
        spec_synthesize(grid, x, y, jitter).red == spec_perturb(
            spec_average_color(grid, x, y).red as int,
            jitter.red as int,
        ),
        spec_synthesize(grid, x, y, jitter).green == spec_perturb(
            spec_average_color(grid, x, y).green as int,
            jitter.green as int,
        ),
        spec_synthesize(grid, x, y, jitter).blue == spec_perturb(
            spec_average_color(grid, x, y).blue as int,
            jitter.blue as int,
        ),
        0 <= spec_synthesize(grid, x, y, jitter).red <= 255,
        0 <= spec_synthesize(grid, x, y, jitter).green <= 255,
        0 <= spec_synthesize(grid, x, y, jitter).blue <= 255,
{
}

/// With a randomness bound of zero the synthesized colour is exactly the
/// rounded average of the finalized neighbours.
pub proof fn lemma_zero_randomness(grid: GridView, x: u32, y: u32, jitter: Jitter)
    requires
        spec_jitter_within(jitter, 0),
    ensures
        spec_synthesize(grid, x, y, jitter) == spec_average_color(grid, x, y),
{
}

impl PixelGrid {
    /// The rounded average colour of the finalized neighbours of `(x, y)`.
    pub fn average_color(&self, x: u32, y: u32) -> (average: Color)
        requires
            self.wf(),
        ensures
            average == spec_average_color(self@, x, y),
    {
        let near = self.neighbors4(x, y);
        let mut count: u16 = 0;
        let mut red: u16 = 0;
        let mut green: u16 = 0;
        let mut blue: u16 = 0;
        let mut i: usize = 0;
        assert(near@.len() <= 4);
        while i < near.len()
            invariant
                self.wf(),
                near@ == self@.neighbors4(x, y),
                near@.len() <= 4,
                i <= near@.len(),
                count == spec_tally(self@, near@.take(i as int)).count,
                red == spec_tally(self@, near@.take(i as int)).red,
                green == spec_tally(self@, near@.take(i as int)).green,
                blue == spec_tally(self@, near@.take(i as int)).blue,
            decreases near@.len() - i,
        {
            let cell = near[i];
            proof {
                lemma_tally_bounds(self@, near@.take(i as int));
                assert(near@.take(i + 1).drop_last() =~= near@.take(i as int));
                assert(near@.take(i + 1).last() == cell);
                assert(self@.neighbors4(x, y)[i as int] == cell);
                assert(self@.in_bounds(cell.0, cell.1));
            }
            match self.get(cell.0, cell.1) {
                Ok((color, finalized)) => {
                    if finalized {
                        count = count + 1;
                        red = red + color.red as u16;
                        green = green + color.green as u16;
                        blue = blue + color.blue as u16;
                    }
                },
                Err(_) => {},
            }
            i = i + 1;
        }
        proof {
            assert(near@.take(i as int) =~= near@);
            lemma_tally_bounds(self@, near@);
        }
        Color {
            red: channel_average(red, count),
            green: channel_average(green, count),
            blue: channel_average(blue, count),
        }
    }

    /// The colour of `(x, y)` under the synthesis rule, for given jitter.
    pub fn synthesize(&self, x: u32, y: u32, jitter: Jitter) -> (color: Color)
        requires
            self.wf(),
        ensures
            color == spec_synthesize(self@, x, y, jitter),
    {
        let average = self.average_color(x, y);
        Color {
            red: perturb(average.red, jitter.red),
            green: perturb(average.green, jitter.green),
            blue: perturb(average.blue, jitter.blue),
        }
    }
}

/// Three independent offsets from `rng`, each within `[-bound, bound]`.
pub fn random_jitter(rng: &mut StdRng, bound: i16) -> (jitter: Jitter)
    requires
        bound >= 0,
    ensures
        spec_jitter_within(jitter, bound),
{
    let red = random_offset(rng, bound);
    let green = random_offset(rng, bound);
    let blue = random_offset(rng, bound);
    Jitter { red, green, blue }
}

/// The colour of `(x, y)` under the synthesis rule, its three perturbations
/// drawn from `rng` within `[-randomness, randomness]`.
pub fn generate_color(grid: &PixelGrid, x: u32, y: u32, randomness: i16, rng: &mut StdRng) -> (color:
    Color)
    requires
        grid.wf(),
        randomness >= 0,
    ensures
        exists|jitter: Jitter|
            spec_jitter_within(jitter, randomness) && color == #[trigger] spec_synthesize(
                grid@,
                x,
                y,
                jitter,
            ),
        randomness == 0 ==> color == spec_average_color(grid@, x, y),
{
    let jitter = random_jitter(rng, randomness);
    proof {
        if randomness == 0 {
            lemma_zero_randomness(grid@, x, y, jitter);
        }
    }
    grid.synthesize(x, y, jitter)
}

} // verus!
