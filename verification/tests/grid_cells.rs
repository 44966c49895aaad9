use imaginery::color::Color;
use imaginery::error::FillError;
use imaginery::grid::{cell_index, PixelGrid};

#[test]
fn new_grid_is_black_and_unfinalized() {
    let grid = PixelGrid::new(4, 3);
    assert_eq!(grid.width(), 4);
    assert_eq!(grid.height(), 3);
    for x in 0..4 {
        for y in 0..3 {
            assert_eq!(grid.get(x, y), Ok((Color { red: 0, green: 0, blue: 0 }, false)));
        }
    }
}

#[test]
fn get_outside_the_grid_is_refused() {
    let grid = PixelGrid::new(4, 3);
    assert_eq!(grid.get(4, 0), Err(FillError::OutOfBounds));
    assert_eq!(grid.get(0, 3), Err(FillError::OutOfBounds));
    assert_eq!(grid.get(u32::MAX, u32::MAX), Err(FillError::OutOfBounds));
    assert!(grid.get(3, 2).is_ok());
}

#[test]
fn set_writes_one_cell_and_finalizes_it() {
    let mut grid = PixelGrid::new(4, 3);
    let color = Color { red: 1, green: 2, blue: 3 };
    assert_eq!(grid.set(3, 1, color), Ok(()));
    assert_eq!(grid.get(3, 1), Ok((color, true)));
    assert_eq!(grid.get(1, 3 - 1), Ok((Color { red: 0, green: 0, blue: 0 }, false)));
    assert_eq!(grid.get(0, 2), Ok((Color { red: 0, green: 0, blue: 0 }, false)));
    let again = Color { red: 9, green: 8, blue: 7 };
    assert_eq!(grid.set(3, 1, again), Ok(()));
    assert_eq!(grid.get(3, 1), Ok((again, true)));
}

#[test]
fn set_outside_the_grid_is_refused() {
    let mut grid = PixelGrid::new(2, 2);
    let color = Color { red: 1, green: 2, blue: 3 };
    assert_eq!(grid.set(2, 0, color), Err(FillError::OutOfBounds));
    assert_eq!(grid.set(0, 2, color), Err(FillError::OutOfBounds));
    for x in 0..2 {
        for y in 0..2 {
            assert_eq!(grid.get(x, y), Ok((Color { red: 0, green: 0, blue: 0 }, false)));
        }
    }
}

#[test]
fn neighbors_of_an_inner_cell() {
    let grid = PixelGrid::new(3, 3);
    assert_eq!(grid.neighbors4(1, 1), vec![(1, 2), (0, 1), (2, 1), (1, 0)]);
}

#[test]
fn neighbors_at_corners_and_edges() {
    let grid = PixelGrid::new(3, 2);
    assert_eq!(grid.neighbors4(0, 0), vec![(0, 1), (1, 0)]);
    assert_eq!(grid.neighbors4(2, 1), vec![(1, 1), (2, 0)]);
    assert_eq!(grid.neighbors4(1, 0), vec![(1, 1), (0, 0), (2, 0)]);
    assert_eq!(grid.neighbors4(1, 1), vec![(0, 1), (2, 1), (1, 0)]);
}

#[test]
fn neighbors_of_the_only_cell() {
    let grid = PixelGrid::new(1, 1);
    assert_eq!(grid.neighbors4(0, 0), Vec::<(u32, u32)>::new());
}

#[test]
fn neighbors_of_a_cell_outside() {
    let grid = PixelGrid::new(2, 2);
    assert_eq!(grid.neighbors4(2, 0), vec![(1, 0)]);
    assert_eq!(grid.neighbors4(0, 2), vec![(0, 1)]);
    assert_eq!(grid.neighbors4(5, 5), Vec::<(u32, u32)>::new());
    assert_eq!(grid.neighbors4(u32::MAX, 0), Vec::<(u32, u32)>::new());
}

#[test]
fn cell_index_is_row_major() {
    assert_eq!(cell_index(4, 3, 0, 0), 0);
    assert_eq!(cell_index(4, 3, 3, 0), 3);
    assert_eq!(cell_index(4, 3, 0, 1), 4);
    assert_eq!(cell_index(4, 3, 3, 2), 11);
}

#[test]
fn bytes_are_row_major_triples() {
    let mut grid = PixelGrid::new(2, 2);
    grid.set(1, 0, Color { red: 1, green: 2, blue: 3 }).unwrap();
    grid.set(0, 1, Color { red: 4, green: 5, blue: 6 }).unwrap();
    assert_eq!(grid.to_rgb_bytes(), vec![0, 0, 0, 1, 2, 3, 4, 5, 6, 0, 0, 0]);
    let wide = PixelGrid::new(3, 1);
    assert_eq!(wide.to_rgb_bytes(), vec![0; 9]);
}
