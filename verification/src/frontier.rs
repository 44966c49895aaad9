//! The frontier: the unfinalized cells waiting to be drawn.

use vstd::prelude::*;
use rand::rngs::StdRng;
use crate::error::FillError;
use crate::grid::{
    cell_index, lemma_cell_index_bound, lemma_cell_index_injective, spec_cell_index, spec_in_bounds,
};
use crate::random::random_index;

verus! {

/// `entries` with `coord` appended unless it is already there.
pub open spec fn spec_insert(entries: Seq<(u32, u32)>, coord: (u32, u32)) -> Seq<(u32, u32)> {
    if entries.contains(coord) {
        entries
    } else {
        entries.push(coord)
    }
}

/// `entries` without the entry at `index`: the last entry takes its place.
pub open spec fn spec_remove(entries: Seq<(u32, u32)>, index: int) -> Seq<(u32, u32)>
    recommends
        0 <= index < entries.len(),
{
    entries.update(index, entries.last()).drop_last()
}

/// `entries` without `coord`, where it is present.
pub open spec fn spec_remove_coord(entries: Seq<(u32, u32)>, coord: (u32, u32)) -> Seq<(u32, u32)> {
    if entries.contains(coord) {
        spec_remove(entries, entries.index_of(coord))
    } else {
        entries
    }
}

/// No coordinate occurs twice.
pub open spec fn spec_distinct(entries: Seq<(u32, u32)>) -> bool {
    forall|i: int, j: int|
        0 <= i < entries.len() && 0 <= j < entries.len() && i != j ==> entries[i] != entries[j]
}

/// Every coordinate lies inside the rectangle.
pub open spec fn spec_all_in_bounds(entries: Seq<(u32, u32)>, width: u32, height: u32) -> bool {
    forall|i: int|
        0 <= i < entries.len() ==> spec_in_bounds(width, height, (#[trigger] entries[i]).0, entries[i].1)
}

/// A duplicate-free collection of grid coordinates with constant-time
/// insertion, membership and removal at a position.
pub struct Frontier {
    width: u32,
    height: u32,
    entries: Vec<(u32, u32)>,
    /// One marker per grid cell: whether `entries` holds the cell.
    queued: Vec<bool>,
}

impl View for Frontier {
    type V = Seq<(u32, u32)>;

    closed spec fn view(&self) -> Seq<(u32, u32)> {
        self.entries@
    }
}

impl Frontier {
    pub closed spec fn grid_width(&self) -> u32 {
        self.width
    }

    pub closed spec fn grid_height(&self) -> u32 {
        self.height
    }

    /// The markers agree with the entries.
    pub closed spec fn markers_agree(&self) -> bool {
        &&& self.width * self.height <= usize::MAX
        &&& self.queued@.len() == self.width * self.height
        &&& forall|i: int|
            0 <= i < self.entries@.len() ==> self.queued@[spec_cell_index(
                self.width,
                (#[trigger] self.entries@[i]).0,
                self.entries@[i].1,
            )]
        &&& forall|x: u32, y: u32|
            spec_in_bounds(self.width, self.height, x, y) && #[trigger] self.queued@[spec_cell_index(
                self.width,
                x,
                y,
            )] ==> self.entries@.contains((x, y))
    }

    /// Validity: entries are in-grid and pairwise distinct.
    pub open spec fn wf(&self) -> bool {
        &&& self.markers_agree()
        &&& spec_distinct(self@)
        &&& spec_all_in_bounds(self@, self.grid_width(), self.grid_height())
    }

    /// An empty frontier for a grid of the given size.
    pub fn new(width: u32, height: u32) -> (frontier: Frontier)
        requires
            width * height <= usize::MAX,
        ensures
            frontier.wf(),
            frontier@ == Seq::<(u32, u32)>::empty(),
            frontier.grid_width() == width,
            frontier.grid_height() == height,
    {
        let cells: usize = width as usize * height as usize;
        let queued: Vec<bool> = vec![false; cells];
        let frontier = Frontier { width, height, entries: Vec::new(), queued };
        proof {
            assert(frontier@ =~= Seq::<(u32, u32)>::empty());
            assert forall|x: u32, y: u32|
                spec_in_bounds(width, height, x, y) implies !#[trigger] frontier.queued@[spec_cell_index(
                    width,
                    x,
                    y,
                )] by {
                lemma_cell_index_bound(width, height, x, y);
            }
        }
        frontier
    }

    pub fn is_empty(&self) -> (empty: bool)
        ensures
            empty == (self@.len() == 0),
    {
        self.entries.len() == 0
    }

    pub fn len(&self) -> (count: usize)
        ensures
            count == self@.len(),
    {
        self.entries.len()
    }

    /// Whether `coord` is waiting in the frontier.
    pub fn contains(&self, coord: (u32, u32)) -> (present: bool)
        requires
            self.wf(),
        ensures
            present == self@.contains(coord),
    {
        if coord.0 >= self.width || coord.1 >= self.height {
            return false;
        }
        let index: usize = cell_index(self.width, self.height, coord.0, coord.1);
        proof {
            if self@.contains(coord) {
                let i = choose|i: int| 0 <= i < self@.len() && self@[i] == coord;
                assert(self.entries@[i] == coord);
            }
        }
        self.queued[index]
    }

    /// Adds `coord` unless it is already present; tells whether it was
    /// added. A coordinate outside the grid is refused.
    pub fn insert(&mut self, coord: (u32, u32)) -> (added: Result<bool, FillError>)
        requires
            old(self).wf(),
        ensures
            final(self).wf(),
            final(self).grid_width() == old(self).grid_width(),
            final(self).grid_height() == old(self).grid_height(),
            spec_in_bounds(old(self).grid_width(), old(self).grid_height(), coord.0, coord.1)
                ==> added == Ok::<bool, FillError>(!old(self)@.contains(coord)) && final(self)@
                == spec_insert(old(self)@, coord),
            !spec_in_bounds(old(self).grid_width(), old(self).grid_height(), coord.0, coord.1)
                ==> added == Err::<bool, FillError>(FillError::OutOfBounds) && final(self)@ == old(
                self,
            )@,
    {
        if coord.0 >= self.width || coord.1 >= self.height {
            return Err(FillError::OutOfBounds);
        }
        if self.contains(coord) {
            return Ok(false);
        }
        let index: usize = cell_index(self.width, self.height, coord.0, coord.1);
        self.entries.push(coord);
        self.queued.set(index, true);
        proof {
            let before = old(self).entries@;
            let after = self.entries@;
            assert forall|i: int| 0 <= i < after.len() implies self.queued@[spec_cell_index(
                self.width,
                (#[trigger] after[i]).0,
                after[i].1,
            )] by {
                if i < before.len() {
                    assert(after[i] == before[i]);
                    lemma_cell_index_bound(self.width, self.height, after[i].0, after[i].1);
                }
            }
            assert forall|x: u32, y: u32|
                spec_in_bounds(self.width, self.height, x, y) && #[trigger] self.queued@[spec_cell_index(
                    self.width,
                    x,
                    y,
                )] implies after.contains((x, y)) by {
                lemma_cell_index_bound(self.width, self.height, x, y);
                if spec_cell_index(self.width, x, y) == index {
                    lemma_cell_index_injective(self.width, (x, y), coord);
                    assert(after[before.len() as int] == coord);
                } else {
                    assert(old(self).queued@[spec_cell_index(self.width, x, y)]);
                    let k = choose|k: int| 0 <= k < before.len() && before[k] == (x, y);
                    assert(after[k] == (x, y));
                }
            }
            assert forall|i: int, j: int|
                0 <= i < after.len() && 0 <= j < after.len() && i != j implies after[i]
                != after[j] by {
                if i < before.len() && j < before.len() {
                    assert(after[i] == before[i] && after[j] == before[j]);
                } else if i < before.len() {
                    assert(before[i] == after[i]);
                    assert(before.contains(after[i]));
                } else {
                    assert(before[j] == after[j]);
                    assert(before.contains(after[j]));
                }
            }
        }
        Ok(true)
    }

    /// Removes and returns the entry at `index`, the last entry taking its
    /// place.
    pub fn draw_at(&mut self, index: usize) -> (drawn: Result<(u32, u32), FillError>)
        requires
            old(self).wf(),
        ensures
            final(self).wf(),
            final(self).grid_width() == old(self).grid_width(),
            final(self).grid_height() == old(self).grid_height(),
            old(self)@.len() == 0 ==> drawn == Err::<(u32, u32), FillError>(
                FillError::EmptyFrontier,
            ) && final(self)@ == old(self)@,
            0 < old(self)@.len() <= index ==> drawn == Err::<(u32, u32), FillError>(
                FillError::InvalidDraw,
            ) && final(self)@ == old(self)@,
            index < old(self)@.len() ==> drawn == Ok::<(u32, u32), FillError>(
                old(self)@[index as int],
            ) && final(self)@ == spec_remove(old(self)@, index as int),
    {
        if self.entries.len() == 0 {
            return Err(FillError::EmptyFrontier);
        }
        if index >= self.entries.len() {
            return Err(FillError::InvalidDraw);
        }
        let coord = self.entries.swap_remove(index);
        assert(coord == old(self).entries@[index as int]);
        assert(spec_in_bounds(self.width, self.height, coord.0, coord.1));
        let marker: usize = cell_index(self.width, self.height, coord.0, coord.1);
        self.queued.set(marker, false);
        proof {
            let before = old(self).entries@;
            let after = self.entries@;
            let last = before.len() - 1;
            assert(after =~= spec_remove(before, index as int));
            // every remaining entry is an earlier entry other than the drawn one
            assert forall|i: int| 0 <= i < after.len() implies exists|k: int|
                0 <= k < before.len() && k != index && before[k] == #[trigger] after[i] && (k == i
                    || (k == last && i == index)) by {
                if i == index {
                    assert(before[last] == after[i]);
                } else {
                    assert(before[i] == after[i]);
                }
            }
            assert forall|i: int| 0 <= i < after.len() implies self.queued@[spec_cell_index(
                self.width,
                (#[trigger] after[i]).0,
                after[i].1,
            )] by {
                let k = choose|k: int|
                    0 <= k < before.len() && k != index && before[k] == after[i] && (k == i || (k
                        == last && i == index));
                assert(before[k] != before[index as int]);
                lemma_cell_index_bound(self.width, self.height, after[i].0, after[i].1);
                if spec_cell_index(self.width, after[i].0, after[i].1) == marker {
                    lemma_cell_index_injective(self.width, after[i], coord);
                }
            }
            assert forall|x: u32, y: u32|
                spec_in_bounds(self.width, self.height, x, y) && #[trigger] self.queued@[spec_cell_index(
                    self.width,
                    x,
                    y,
                )] implies after.contains((x, y)) by {
                lemma_cell_index_bound(self.width, self.height, x, y);
                assert(old(self).queued@[spec_cell_index(self.width, x, y)]);
                let k = choose|k: int| 0 <= k < before.len() && before[k] == (x, y);
                if k == last {
                    assert(after[index as int] == (x, y));
                } else {
                    assert(after[k] == (x, y));
                }
            }
            assert forall|i: int, j: int|
                0 <= i < after.len() && 0 <= j < after.len() && i != j implies after[i]
                != after[j] by {
                let ki = if i == index { last } else { i };
                let kj = if j == index { last } else { j };
                assert(before[ki] == after[i] && before[kj] == after[j]);
            }
            assert forall|i: int| 0 <= i < after.len() implies spec_in_bounds(
                self.width,
                self.height,
                (#[trigger] after[i]).0,
                after[i].1,
            ) by {
                let ki = if i == index { last } else { i };
                assert(before[ki] == after[i]);
            }
        }
        Ok(coord)
    }

    /// Takes `coord` out where it is present, the last entry taking its
    /// place; tells whether it was present.
    pub fn remove(&mut self, coord: (u32, u32)) -> (removed: bool)
        requires
            old(self).wf(),
        ensures
            final(self).wf(),
            final(self).grid_width() == old(self).grid_width(),
            final(self).grid_height() == old(self).grid_height(),
            removed == old(self)@.contains(coord),
            final(self)@ == spec_remove_coord(old(self)@, coord),
    {
        if !self.contains(coord) {
            return false;
        }
        let mut i: usize = 0;
        let count: usize = self.entries.len();
        while self.entries[i].0 != coord.0 || self.entries[i].1 != coord.1
            invariant
                self.entries@.contains(coord),
                count == self.entries@.len(),
                i < count,
                forall|j: int| 0 <= j < i ==> self.entries@[j] != coord,
            decreases self.entries@.len() - i,
        {
            proof {
                let k = choose|k: int| 0 <= k < self.entries@.len() && self.entries@[k] == coord;
                assert(k > i);
            }
            i = i + 1;
        }
        proof {
            let k = self.entries@.index_of(coord);
            assert(0 <= k < self.entries@.len() && self.entries@[k] == coord);
            assert(k == i);
        }
        let _ = self.draw_at(i);
        true
    }

    /// Removes and returns an entry chosen by `rng`, uniformly over the
    /// entries present.
    pub fn draw_random(&mut self, rng: &mut StdRng) -> (drawn: Result<(u32, u32), FillError>)
        requires
            old(self).wf(),
        ensures
            final(self).wf(),
            final(self).grid_width() == old(self).grid_width(),
            final(self).grid_height() == old(self).grid_height(),
            old(self)@.len() == 0 ==> drawn == Err::<(u32, u32), FillError>(
                FillError::EmptyFrontier,
            ) && final(self)@ == old(self)@,
            old(self)@.len() > 0 ==> exists|index: int|
                0 <= index < old(self)@.len() && drawn == Ok::<(u32, u32), FillError>(
                    #[trigger] old(self)@[index],
                ) && final(self)@ == spec_remove(old(self)@, index),
    {
        if self.entries.len() == 0 {
            return Err(FillError::EmptyFrontier);
        }
        let index: usize = random_index(rng, self.entries.len());
        self.draw_at(index)
    }
}

} // verus!
