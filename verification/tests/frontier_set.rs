use imaginery::error::FillError;
use imaginery::frontier::Frontier;
use rand::rngs::StdRng;
use rand::SeedableRng;

#[test]
fn new_frontier_is_empty() {
    let frontier = Frontier::new(3, 3);
    assert!(frontier.is_empty());
    assert_eq!(frontier.len(), 0);
    assert!(!frontier.contains((0, 0)));
}

#[test]
fn insert_ignores_a_duplicate() {
    let mut frontier = Frontier::new(3, 3);
    assert_eq!(frontier.insert((1, 2)), Ok(true));
    assert_eq!(frontier.insert((1, 2)), Ok(false));
    assert_eq!(frontier.insert((2, 1)), Ok(true));
    assert_eq!(frontier.len(), 2);
    assert!(frontier.contains((1, 2)));
    assert!(frontier.contains((2, 1)));
    assert!(!frontier.contains((1, 1)));
}

#[test]
fn insert_outside_the_grid_is_refused() {
    let mut frontier = Frontier::new(3, 2);
    assert_eq!(frontier.insert((3, 0)), Err(FillError::OutOfBounds));
    assert_eq!(frontier.insert((0, 2)), Err(FillError::OutOfBounds));
    assert!(frontier.is_empty());
    assert!(!frontier.contains((3, 0)));
}

#[test]
fn draw_at_moves_the_last_entry_into_the_gap() {
    let mut frontier = Frontier::new(4, 4);
    for coord in [(0, 0), (1, 0), (2, 0), (3, 0)] {
        frontier.insert(coord).unwrap();
    }
    assert_eq!(frontier.draw_at(1), Ok((1, 0)));
    assert_eq!(frontier.len(), 3);
    assert!(!frontier.contains((1, 0)));
    assert_eq!(frontier.draw_at(1), Ok((3, 0)));
    assert_eq!(frontier.draw_at(1), Ok((2, 0)));
    assert_eq!(frontier.draw_at(0), Ok((0, 0)));
    assert!(frontier.is_empty());
}

#[test]
fn a_drawn_coordinate_can_enter_again() {
    let mut frontier = Frontier::new(2, 2);
    frontier.insert((1, 1)).unwrap();
    assert_eq!(frontier.draw_at(0), Ok((1, 1)));
    assert_eq!(frontier.insert((1, 1)), Ok(true));
    assert_eq!(frontier.len(), 1);
}

#[test]
fn draw_from_an_empty_frontier_is_refused() {
    let mut frontier = Frontier::new(2, 2);
    assert_eq!(frontier.draw_at(0), Err(FillError::EmptyFrontier));
    let mut rng = StdRng::seed_from_u64(0);
    assert_eq!(frontier.draw_random(&mut rng), Err(FillError::EmptyFrontier));
}

#[test]
fn draw_at_a_missing_position_is_refused() {
    let mut frontier = Frontier::new(2, 2);
    frontier.insert((0, 1)).unwrap();
    assert_eq!(frontier.draw_at(1), Err(FillError::InvalidDraw));
    assert_eq!(frontier.len(), 1);
    assert!(frontier.contains((0, 1)));
}

#[test]
fn draw_random_hands_out_every_entry_once() {
    let mut frontier = Frontier::new(5, 5);
    let mut expected = Vec::new();
    for x in 0..5 {
        for y in 0..5 {
            frontier.insert((x, y)).unwrap();
            expected.push((x, y));
        }
    }
    let mut rng = StdRng::seed_from_u64(99);
    let mut drawn = Vec::new();
    while !frontier.is_empty() {
        drawn.push(frontier.draw_random(&mut rng).unwrap());
    }
    assert_eq!(drawn.len(), 25);
    assert_ne!(drawn, expected);
    drawn.sort();
    assert_eq!(drawn, expected);
}

#[test]
fn remove_takes_out_a_present_coordinate() {
    let mut frontier = Frontier::new(3, 3);
    for coord in [(0, 0), (1, 1), (2, 2)] {
        frontier.insert(coord).unwrap();
    }
    assert!(frontier.remove((0, 0)));
    assert!(!frontier.remove((0, 0)));
    assert!(!frontier.remove((7, 7)));
    assert_eq!(frontier.len(), 2);
    assert_eq!(frontier.draw_at(0), Ok((2, 2)));
    assert_eq!(frontier.draw_at(0), Ok((1, 1)));
}
