//! The pixel grid: a colour and a "finalized" marker per cell.

use vstd::prelude::*;
use crate::color::Color;
use crate::error::FillError;

verus! {

/// The `image::RgbImage` that stores the colours. Nothing is known of it but
/// what `canvas_pixels` names and the three functions below state.
#[verifier::external_body]
pub struct Canvas {
    img: image::RgbImage,
}

/// The channel triples that a canvas holds, keyed by `(x, y)`; the keys are
/// exactly the coordinates inside the canvas.
pub uninterp spec fn canvas_pixels(canvas: Canvas) -> Map<(u32, u32), (u8, u8, u8)>;

/// The coordinates inside a `width` by `height` rectangle.
pub open spec fn spec_in_bounds(width: u32, height: u32, x: u32, y: u32) -> bool {
    x < width && y < height
}

/// `ImageBuffer::new`: a buffer of the given size with every channel zero.
/// It panics when three bytes per pixel overflow what a vector can hold.
#[verifier::external_body]
fn canvas_new(width: u32, height: u32) -> (canvas: Canvas)
    requires
        3 * width * height <= isize::MAX,
    ensures
        canvas_pixels(canvas) == Map::new(
            |c: (u32, u32)| spec_in_bounds(width, height, c.0, c.1),
            |c: (u32, u32)| (0u8, 0u8, 0u8),
        ),
{
    Canvas { img: image::RgbImage::new(width, height) }
}

/// `ImageBuffer::put_pixel`: overwrites the pixel at `(x, y)` and no other.
/// It panics outside the canvas.
#[verifier::external_body]
fn canvas_put(canvas: &mut Canvas, x: u32, y: u32, color: Color)
    requires
        canvas_pixels(*old(canvas)).dom().contains((x, y)),
    ensures
        canvas_pixels(*final(canvas)) == canvas_pixels(*old(canvas)).insert(
            (x, y),
            (color.red, color.green, color.blue),
        ),
{
    canvas.img.put_pixel(x, y, image::Rgb([color.red, color.green, color.blue]));
}

/// `ImageBuffer::get_pixel`: the pixel stored at `(x, y)`. It panics outside
/// the canvas.
#[verifier::external_body]
fn canvas_get(canvas: &Canvas, x: u32, y: u32) -> (color: Color)
    requires
        canvas_pixels(*canvas).dom().contains((x, y)),
    ensures
        (color.red, color.green, color.blue) == canvas_pixels(*canvas)[(x, y)],
{
    let pixel = canvas.img.get_pixel(x, y).0;
    Color { red: pixel[0], green: pixel[1], blue: pixel[2] }
}

/// Row-major position of `(x, y)` in a grid `width` cells wide.
pub open spec fn spec_cell_index(width: u32, x: u32, y: u32) -> int {
    y * width + x
}

/// The 4-adjacency relation.
pub open spec fn spec_adjacent(a: (u32, u32), b: (u32, u32)) -> bool {
    ||| a.0 == b.0 && a.1 + 1 == b.1
    ||| a.0 == b.0 && b.1 + 1 == a.1
    ||| a.1 == b.1 && a.0 + 1 == b.0
    ||| a.1 == b.1 && b.0 + 1 == a.0
}

/// The in-grid neighbours of `(x, y)`, in a fixed order: `(x, y+1)`,
/// `(x-1, y)`, `(x+1, y)`, `(x, y-1)`.
pub open spec fn spec_neighbors4(width: u32, height: u32, x: u32, y: u32) -> Seq<(u32, u32)> {
    let a = if x < width && y + 1 < height {
        seq![(x, (y + 1) as u32)]
    } else {
        Seq::empty()
    };
    let b = if 0 < x <= width && y < height {
        seq![((x - 1) as u32, y)]
    } else {
        Seq::empty()
    };
    let c = if x + 1 < width && y < height {
        seq![((x + 1) as u32, y)]
    } else {
        Seq::empty()
    };
    let d = if x < width && 0 < y <= height {
        seq![(x, (y - 1) as u32)]
    } else {
        Seq::empty()
    };
    a + b + c + d
}

/// What a grid holds.
pub struct GridView {
    pub width: u32,
    pub height: u32,
    /// The colour of each cell, keyed by `(x, y)`.
    pub colors: Map<(u32, u32), Color>,
    /// The marker of each cell, row by row.
    pub finalized: Seq<bool>,
}

impl GridView {
    pub open spec fn wf(self) -> bool {
        &&& self.width * self.height <= usize::MAX
        &&& self.finalized.len() == self.width * self.height
        &&& self.colors.dom() =~= Set::new(
            |c: (u32, u32)| spec_in_bounds(self.width, self.height, c.0, c.1),
        )
    }

    pub open spec fn in_bounds(self, x: u32, y: u32) -> bool {
        spec_in_bounds(self.width, self.height, x, y)
    }

    pub open spec fn is_finalized(self, x: u32, y: u32) -> bool {
        self.finalized[spec_cell_index(self.width, x, y)]
    }

    pub open spec fn color_at(self, x: u32, y: u32) -> Color {
        self.colors[(x, y)]
    }

    /// The grid after `(x, y)` is finalized with `color`.
    pub open spec fn set(self, x: u32, y: u32, color: Color) -> GridView {
        GridView {
            width: self.width,
            height: self.height,
            colors: self.colors.insert((x, y), color),
            finalized: self.finalized.update(spec_cell_index(self.width, x, y), true),
        }
    }

    /// A grid of the given size with every cell black and unfinalized.
    pub open spec fn blank(width: u32, height: u32) -> GridView {
        GridView {
            width,
            height,
            colors: Map::new(
                |c: (u32, u32)| spec_in_bounds(width, height, c.0, c.1),
                |c: (u32, u32)| Color { red: 0, green: 0, blue: 0 },
            ),
            finalized: Seq::new((width * height) as nat, |i: int| false),
        }
    }

    pub open spec fn neighbors4(self, x: u32, y: u32) -> Seq<(u32, u32)> {
        spec_neighbors4(self.width, self.height, x, y)
    }
}

/// A cell inside the grid has a row-major position below `width * height`.
pub proof fn lemma_cell_index_bound(width: u32, height: u32, x: u32, y: u32)
    requires
        spec_in_bounds(width, height, x, y),
    ensures
        0 <= spec_cell_index(width, x, y) < width * height,
{
    assert(y * width + x < width * height) by (nonlinear_arith)
        requires
            0 <= x < width,
            0 <= y < height,
    {
        assert((y + 1) * width <= height * width);
    }
    assert(0 <= y * width) by (nonlinear_arith)
        requires
            0 <= y,
            0 <= width,
    ;
}

/// Distinct cells of one grid have distinct row-major positions.
pub proof fn lemma_cell_index_injective(width: u32, a: (u32, u32), b: (u32, u32))
    requires
        a.0 < width,
        b.0 < width,
        spec_cell_index(width, a.0, a.1) == spec_cell_index(width, b.0, b.1),
    ensures
        a == b,
{
    let (ax, ay, bx, by, w) = (a.0 as int, a.1 as int, b.0 as int, b.1 as int, width as int);
    assert(ay == by) by (nonlinear_arith)
        requires
            0 <= ax < w,
            0 <= bx < w,
            0 <= ay,
            0 <= by,
            ay * w + ax == by * w + bx,
    {
        if ay < by {
            assert((ay + 1) * w <= by * w);
        } else if by < ay {
            assert((by + 1) * w <= ay * w);
        }
    }
}

/// The row-major position of a cell inside the grid.
pub fn cell_index(width: u32, height: u32, x: u32, y: u32) -> (index: usize)
    requires
        spec_in_bounds(width, height, x, y),
        width * height <= usize::MAX,
    ensures
        index == spec_cell_index(width, x, y),
        index < width * height,
{
    proof {
        lemma_cell_index_bound(width, height, x, y);
        let (xi, yi, wi) = (x as int, y as int, width as int);
        assert(0 <= yi * wi) by (nonlinear_arith)
            requires
                0 <= yi,
                0 <= wi,
        ;
        assert(yi * wi + xi < usize::MAX);
        assert((y as usize) as int * (width as usize) as int == yi * wi);
    }
    y as usize * width as usize + x as usize
}

/// Whether the three bytes of the cell at row-major position `index` are the
/// channels of `color`.
pub open spec fn spec_bytes_hold(bytes: Seq<u8>, index: int, color: Color) -> bool {
    &&& 0 <= index
    &&& 3 * index + 2 < bytes.len()
    &&& bytes[3 * index] == color.red
    &&& bytes[3 * index + 1] == color.green
    &&& bytes[3 * index + 2] == color.blue
}

/// The grid of colours with a "finalized" marker per cell.
pub struct PixelGrid {
    width: u32,
    height: u32,
    canvas: Canvas,
    finalized: Vec<bool>,
}

impl View for PixelGrid {
    type V = GridView;

    closed spec fn view(&self) -> GridView {
        GridView {
            width: self.width,
            height: self.height,
            colors: Map::new(
                |c: (u32, u32)| canvas_pixels(self.canvas).dom().contains(c),
                |c: (u32, u32)|
                    {
                        let p = canvas_pixels(self.canvas)[c];
                        Color { red: p.0, green: p.1, blue: p.2 }
                    },
            ),
            finalized: self.finalized@,
        }
    }
}

impl PixelGrid {
    /// Validity: the view is well formed.
    pub open spec fn wf(&self) -> bool {
        self@.wf()
    }

    /// A grid with every cell unfinalized, holding the all-zero colour.
    pub fn new(width: u32, height: u32) -> (grid: PixelGrid)
        requires
            width > 0,
            height > 0,
            3 * width * height <= isize::MAX,
        ensures
            grid.wf(),
            grid@ == GridView::blank(width, height),
    {
        assert(width * height <= 3 * width * height) by (nonlinear_arith)
            requires
                width > 0,
                height > 0,
        ;
        let cells: usize = width as usize * height as usize;
        let canvas = canvas_new(width, height);
        let finalized: Vec<bool> = vec![false; cells];
        let grid = PixelGrid { width, height, canvas, finalized };
        proof {
            assert(grid@.finalized =~= GridView::blank(width, height).finalized);
            assert(grid@.colors =~= GridView::blank(width, height).colors);
        }
        grid
    }

    pub fn width(&self) -> (width: u32)
        ensures
            width == self@.width,
    {
        self.width
    }

    pub fn height(&self) -> (height: u32)
        ensures
            height == self@.height,
    {
        self.height
    }

    /// The colour and marker of `(x, y)`, refused outside the grid.
    pub fn get(&self, x: u32, y: u32) -> (cell: Result<(Color, bool), FillError>)
        requires
            self.wf(),
        ensures
            self@.in_bounds(x, y) ==> cell == Ok::<(Color, bool), FillError>(
                (self@.color_at(x, y), self@.is_finalized(x, y)),
            ),
            !self@.in_bounds(x, y) ==> cell == Err::<(Color, bool), FillError>(
                FillError::OutOfBounds,
            ),
    {
        if x >= self.width || y >= self.height {
            return Err(FillError::OutOfBounds);
        }
        proof {
            lemma_cell_index_bound(self.width, self.height, x, y);
            assert(self@.colors.dom().contains((x, y)));
        }
        let index: usize = cell_index(self.width, self.height, x, y);
        let color = canvas_get(&self.canvas, x, y);
        Ok((color, self.finalized[index]))
    }

    /// Writes `color` at `(x, y)` and marks the cell finalized; refused
    /// outside the grid, which then stays as it was.
    pub fn set(&mut self, x: u32, y: u32, color: Color) -> (done: Result<(), FillError>)
        requires
            old(self).wf(),
        ensures
            final(self).wf(),
            old(self)@.in_bounds(x, y) ==> done == Ok::<(), FillError>(()) && final(self)@ == old(
                self,
            )@.set(x, y, color),
            !old(self)@.in_bounds(x, y) ==> done == Err::<(), FillError>(FillError::OutOfBounds)
                && final(self)@ == old(self)@,
    {
        if x >= self.width || y >= self.height {
            return Err(FillError::OutOfBounds);
        }
        proof {
            lemma_cell_index_bound(self.width, self.height, x, y);
            assert(self@.colors.dom().contains((x, y)));
        }
        let index: usize = cell_index(self.width, self.height, x, y);
        canvas_put(&mut self.canvas, x, y, color);
        self.finalized.set(index, true);
        proof {
            assert(self@.colors =~= old(self)@.set(x, y, color).colors);
            assert(self@.finalized =~= old(self)@.set(x, y, color).finalized);
        }
        Ok(())
    }

    /// The colours row by row, three bytes per cell: red, green, blue.
    pub fn to_rgb_bytes(&self) -> (bytes: Vec<u8>)
        requires
            self.wf(),
            3 * self@.width * self@.height <= usize::MAX,
        ensures
            bytes@.len() == 3 * self@.width * self@.height,
            forall|x: u32, y: u32|
                self@.in_bounds(x, y) ==> spec_bytes_hold(
                    bytes@,
                    spec_cell_index(self@.width, x, y),
                    #[trigger] self@.color_at(x, y),
                ),
    {
        let mut bytes: Vec<u8> = Vec::new();
        let mut y: u32 = 0;
        while y < self.height
            invariant
                self.wf(),
                y <= self.height,
                bytes@.len() == 3 * (y * self.width),
                forall|px: u32, py: u32|
                    self@.in_bounds(px, py) && py < y ==> spec_bytes_hold(
                        bytes@,
                        spec_cell_index(self.width, px, py),
                        #[trigger] self@.color_at(px, py),
                    ),
            decreases self.height - y,
        {
            let mut x: u32 = 0;
            while x < self.width
                invariant
                    self.wf(),
                    y < self.height,
                    x <= self.width,
                    bytes@.len() == 3 * (y * self.width + x),
                    forall|px: u32, py: u32|
                        self@.in_bounds(px, py) && (py < y || (py == y && px < x))
                            ==> spec_bytes_hold(
                            bytes@,
                            spec_cell_index(self.width, px, py),
                            #[trigger] self@.color_at(px, py),
                        ),
                decreases self.width - x,
            {
                let ghost before = bytes@;
                proof {
                    assert(self@.colors.dom().contains((x, y)));
                    assert(0 <= y * self.width) by (nonlinear_arith);
                }
                let color = canvas_get(&self.canvas, x, y);
                bytes.push(color.red);
                bytes.push(color.green);
                bytes.push(color.blue);
                proof {
                    assert(color == self@.color_at(x, y));
                    assert forall|px: u32, py: u32|
                        self@.in_bounds(px, py) && (py < y || (py == y && px < x + 1))
                        implies spec_bytes_hold(
                        bytes@,
                        spec_cell_index(self.width, px, py),
                        #[trigger] self@.color_at(px, py),
                    ) by {
                        if py == y && px == x {
                        } else {
                            assert(spec_bytes_hold(
                                before,
                                spec_cell_index(self.width, px, py),
                                self@.color_at(px, py),
                            ));
                        }
                    }
                }
                x = x + 1;
            }
            proof {
                assert(3 * (y * self.width + self.width) == 3 * ((y + 1) * self.width))
                    by (nonlinear_arith);
            }
            y = y + 1;
        }
        proof {
            assert(3 * (self.height * self.width) == 3 * self.width * self.height)
                by (nonlinear_arith);
        }
        bytes
    }

    /// The grid-adjacent coordinates of `(x, y)` that lie inside the grid.
    pub fn neighbors4(&self, x: u32, y: u32) -> (near: Vec<(u32, u32)>)
        ensures
            near@ == self@.neighbors4(x, y),
    {
        let mut near: Vec<(u32, u32)> = Vec::new();
        if x < self.width && y < u32::MAX && y + 1 < self.height {
            near.push((x, y + 1));
        }
        if 0 < x && x <= self.width && y < self.height {
            near.push((x - 1, y));
        }
        if x < u32::MAX && x + 1 < self.width && y < self.height {
            near.push((x + 1, y));
        }
        if x < self.width && 0 < y && y <= self.height {
            near.push((x, y - 1));
        }
        proof {
            assert(near@ =~= self@.neighbors4(x, y));
        }
        near
    }
}

} // verus!
