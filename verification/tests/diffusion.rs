use imaginery::color::{Color, Jitter};
use imaginery::engine::{generate_image, Diffusion};
use imaginery::error::FillError;
use imaginery::grid::PixelGrid;
use imaginery::model::{Draw, Seed};
use rand::rngs::StdRng;
use rand::SeedableRng;

const WHITE: Color = Color { red: 255, green: 255, blue: 255 };
const BLACK: Color = Color { red: 0, green: 0, blue: 0 };
const STILL: Jitter = Jitter { red: 0, green: 0, blue: 0 };

fn cells(grid: &PixelGrid) -> Vec<(Color, bool)> {
    let mut all = Vec::new();
    for y in 0..grid.height() {
        for x in 0..grid.width() {
            all.push(grid.get(x, y).unwrap());
        }
    }
    all
}

#[test]
fn single_cell_grid_is_done_after_seeding() {
    let mut engine = Diffusion::new(1, 1, 3);
    assert!(engine.is_done());
    let seed = Color { red: 12, green: 34, blue: 56 };
    assert_eq!(engine.seed(0, 0, seed), Ok(()));
    assert!(engine.is_done());
    let mut rng = StdRng::seed_from_u64(5);
    assert_eq!(engine.fill(&mut rng), 0);
    assert_eq!(engine.grid().get(0, 0), Ok((seed, true)));
}

#[test]
fn seeding_queues_the_unfinalized_neighbors() {
    let mut engine = Diffusion::new(3, 3, 0);
    engine.seed(1, 1, WHITE).unwrap();
    assert_eq!(engine.frontier_len(), 4);
    assert_eq!(engine.grid().get(1, 1), Ok((WHITE, true)));
    engine.seed(1, 2, WHITE).unwrap();
    assert_eq!(engine.frontier_len(), 5);
    engine.seed(1, 1, BLACK).unwrap();
    assert_eq!(engine.frontier_len(), 5);
    assert_eq!(engine.grid().get(1, 1), Ok((BLACK, true)));
}

#[test]
fn seed_outside_the_grid_is_refused() {
    let mut engine = Diffusion::new(3, 3, 0);
    assert_eq!(engine.seed(3, 0, WHITE), Err(FillError::OutOfBounds));
    assert_eq!(engine.seed(0, 3, WHITE), Err(FillError::OutOfBounds));
    assert!(engine.is_done());
    assert!(cells(engine.grid()).iter().all(|cell| *cell == (BLACK, false)));
}

#[test]
fn seed_center_is_white_in_the_middle() {
    let mut engine = Diffusion::new(5, 3, 0);
    engine.seed_center();
    assert_eq!(engine.grid().get(2, 1), Ok((WHITE, true)));
    assert_eq!(engine.frontier_len(), 4);
}

#[test]
fn three_by_three_white_seed_without_randomness() {
    let mut engine = Diffusion::new(3, 3, 0);
    engine.seed(1, 1, WHITE).unwrap();
    // the frontier now holds (1,2), (0,1), (2,1), (1,0) in this order
    let first = Draw { index: 0, jitter: STILL };
    assert_eq!(engine.step(first), Ok((1, 2)));
    assert_eq!(engine.grid().get(1, 2), Ok((WHITE, true)));
    // (1,0) took the gap; (0,2) and (2,2) were appended
    assert_eq!(engine.frontier_len(), 5);
    assert_eq!(engine.step(Draw { index: 3, jitter: STILL }), Ok((0, 2)));
    assert_eq!(engine.step(Draw { index: 3, jitter: STILL }), Ok((2, 2)));
    assert_eq!(engine.step(Draw { index: 0, jitter: STILL }), Ok((1, 0)));
    let mut rng = StdRng::seed_from_u64(17);
    assert_eq!(engine.fill(&mut rng), 4);
    assert!(engine.is_done());
    assert!(cells(engine.grid()).iter().all(|cell| *cell == (WHITE, true)));
}

#[test]
fn a_cell_between_two_seeds_takes_their_rounded_average() {
    let mut engine = Diffusion::new(3, 1, 0);
    engine.seed(0, 0, Color { red: 0, green: 10, blue: 200 }).unwrap();
    engine.seed(2, 0, Color { red: 255, green: 11, blue: 100 }).unwrap();
    assert_eq!(engine.frontier_len(), 1);
    assert_eq!(engine.step(Draw { index: 0, jitter: STILL }), Ok((1, 0)));
    assert_eq!(
        engine.grid().get(1, 0),
        Ok((Color { red: 128, green: 11, blue: 150 }, true))
    );
    assert!(engine.is_done());
}

#[test]
fn step_applies_the_given_jitter() {
    let mut engine = Diffusion::new(2, 1, 20);
    engine.seed(0, 0, Color { red: 250, green: 10, blue: 100 }).unwrap();
    let jitter = Jitter { red: 20, green: -20, blue: -7 };
    assert_eq!(engine.step(Draw { index: 0, jitter }), Ok((1, 0)));
    assert_eq!(engine.grid().get(1, 0), Ok((Color { red: 255, green: 0, blue: 93 }, true)));
}

#[test]
fn step_on_an_empty_frontier_is_refused() {
    let mut engine = Diffusion::new(2, 2, 0);
    assert_eq!(engine.step(Draw { index: 0, jitter: STILL }), Err(FillError::EmptyFrontier));
    let mut rng = StdRng::seed_from_u64(0);
    assert_eq!(engine.step_random(&mut rng), Err(FillError::EmptyFrontier));
    assert_eq!(engine.fill(&mut rng), 0);
    assert!(cells(engine.grid()).iter().all(|cell| *cell == (BLACK, false)));
}

#[test]
fn step_with_an_invalid_draw_is_refused() {
    let mut engine = Diffusion::new(3, 3, 2);
    engine.seed(1, 1, WHITE).unwrap();
    let before = cells(engine.grid());
    assert_eq!(engine.step(Draw { index: 4, jitter: STILL }), Err(FillError::InvalidDraw));
    let wide = Jitter { red: 0, green: 3, blue: 0 };
    assert_eq!(engine.step(Draw { index: 0, jitter: wide }), Err(FillError::InvalidDraw));
    let low = Jitter { red: 0, green: 0, blue: -3 };
    assert_eq!(engine.step(Draw { index: 0, jitter: low }), Err(FillError::InvalidDraw));
    assert_eq!(engine.frontier_len(), 4);
    assert_eq!(cells(engine.grid()), before);
}

#[test]
fn fill_runs_once_per_unseeded_cell() {
    let mut engine = Diffusion::new(5, 4, 6);
    engine.seed(2, 2, WHITE).unwrap();
    let mut rng = StdRng::seed_from_u64(1);
    assert_eq!(engine.fill(&mut rng), 19);
    assert!(engine.is_done());
    assert!(cells(engine.grid()).iter().all(|cell| cell.1));

    let mut engine = Diffusion::new(5, 4, 6);
    engine.seed(0, 0, WHITE).unwrap();
    engine.seed(4, 3, BLACK).unwrap();
    engine.seed(0, 1, WHITE).unwrap();
    assert_eq!(engine.fill(&mut rng), 17);
    assert!(cells(engine.grid()).iter().all(|cell| cell.1));
}

#[test]
fn no_cell_is_finalized_twice() {
    let mut engine = Diffusion::new(6, 5, 10);
    engine.seed(3, 2, WHITE).unwrap();
    let mut counts = vec![0u32; 30];
    counts[2 * 6 + 3] = 1;
    let mut rng = StdRng::seed_from_u64(2024);
    while !engine.is_done() {
        let before = engine.grid().get(0, 0).unwrap();
        let cell = engine.step_random(&mut rng).unwrap();
        if cell != (0, 0) {
            assert_eq!(engine.grid().get(0, 0).unwrap(), before);
        }
        counts[(cell.1 * 6 + cell.0) as usize] += 1;
        assert!(engine.grid().get(cell.0, cell.1).unwrap().1);
    }
    assert!(counts.iter().all(|count| *count == 1));
}

#[test]
fn same_seed_gives_the_same_image() {
    let mut first_rng = StdRng::seed_from_u64(42);
    let mut second_rng = StdRng::seed_from_u64(42);
    let first = generate_image(16, 9, 12, &mut first_rng);
    let second = generate_image(16, 9, 12, &mut second_rng);
    assert_eq!(cells(&first), cells(&second));
    let mut other_rng = StdRng::seed_from_u64(43);
    let other = generate_image(16, 9, 12, &mut other_rng);
    assert_ne!(cells(&first), cells(&other));
}

#[test]
fn same_draws_give_the_same_image() {
    let draws: Vec<Draw> = (0..8)
        .map(|i| Draw {
            index: (i * 7) % 3,
            jitter: Jitter { red: i as i16 - 4, green: 4 - i as i16, blue: 0 },
        })
        .collect();
    let mut first = Diffusion::new(3, 3, 4);
    first.seed(0, 0, Color { red: 90, green: 120, blue: 3 }).unwrap();
    let mut second = Diffusion::new(3, 3, 4);
    second.seed(0, 0, Color { red: 90, green: 120, blue: 3 }).unwrap();
    let applied = first.replay(&draws);
    assert_eq!(second.replay(&draws), applied);
    assert_eq!(cells(first.grid()), cells(second.grid()));
    assert_eq!(first.frontier_len(), second.frontier_len());
}

#[test]
fn replay_stops_before_an_invalid_draw() {
    let mut engine = Diffusion::new(3, 3, 0);
    engine.seed(1, 1, WHITE).unwrap();
    let draws = vec![
        Draw { index: 0, jitter: STILL },
        Draw { index: 1, jitter: STILL },
        Draw { index: 9, jitter: STILL },
        Draw { index: 0, jitter: STILL },
    ];
    assert_eq!(engine.replay(&draws), 2);
    let finalized = cells(engine.grid()).iter().filter(|cell| cell.1).count();
    assert_eq!(finalized, 3);
}

#[test]
fn replay_finishes_a_small_grid() {
    let mut engine = Diffusion::new(2, 2, 0);
    engine.seed(0, 0, Color { red: 7, green: 7, blue: 7 }).unwrap();
    let draws = vec![Draw { index: 0, jitter: STILL }; 5];
    assert_eq!(engine.replay(&draws), 3);
    assert!(engine.is_done());
    assert!(cells(engine.grid()).iter().all(|cell| *cell == (Color { red: 7, green: 7, blue: 7 }, true)));
}

#[test]
fn zero_randomness_keeps_a_white_image_white() {
    let mut rng = StdRng::seed_from_u64(8);
    let grid = generate_image(9, 7, 0, &mut rng);
    assert_eq!(grid.width(), 9);
    assert_eq!(grid.height(), 7);
    assert!(cells(&grid).iter().all(|cell| *cell == (WHITE, true)));
}

#[test]
fn generated_image_is_fully_finalized() {
    let mut rng = StdRng::seed_from_u64(77);
    let grid = generate_image(12, 12, 30, &mut rng);
    let all = cells(&grid);
    assert_eq!(all.len(), 144);
    assert!(all.iter().all(|cell| cell.1));
    assert!(all.iter().any(|cell| cell.0 != WHITE));
}

#[test]
fn engine_reports_its_randomness() {
    let engine = Diffusion::new(2, 2, 9);
    assert_eq!(engine.randomness(), 9);
    let grid = engine.into_grid();
    assert_eq!(grid.width(), 2);
}

#[test]
fn edges_first_then_corners() {
    let mut engine = Diffusion::new(3, 3, 0);
    engine.seed(1, 1, WHITE).unwrap();
    let mut order = Vec::new();
    for index in [0, 0, 1, 2] {
        let cell = engine.step(Draw { index, jitter: STILL }).unwrap();
        assert_eq!(engine.grid().get(cell.0, cell.1), Ok((WHITE, true)));
        order.push(cell);
    }
    assert_eq!(order, vec![(1, 2), (1, 0), (0, 1), (2, 1)]);
    assert_eq!(engine.frontier_len(), 4);
    let mut corners = Vec::new();
    while !engine.is_done() {
        let cell = engine.step(Draw { index: 0, jitter: STILL }).unwrap();
        assert_eq!(engine.grid().average_color(cell.0, cell.1), WHITE);
        assert_eq!(engine.grid().get(cell.0, cell.1), Ok((WHITE, true)));
        corners.push(cell);
    }
    corners.sort();
    assert_eq!(corners, vec![(0, 0), (0, 2), (2, 0), (2, 2)]);
}

#[test]
fn a_corner_averages_its_two_finalized_neighbors() {
    let mut engine = Diffusion::new(2, 2, 0);
    engine.seed(1, 0, Color { red: 100, green: 0, blue: 255 }).unwrap();
    engine.seed(0, 1, Color { red: 201, green: 1, blue: 254 }).unwrap();
    // the frontier holds (1,1) and (0,0), both between the two seeds
    assert_eq!(engine.frontier_len(), 2);
    assert_eq!(engine.step(Draw { index: 0, jitter: STILL }), Ok((1, 1)));
    assert_eq!(
        engine.grid().get(1, 1),
        Ok((Color { red: 151, green: 1, blue: 255 }, true))
    );
    assert_eq!(engine.step(Draw { index: 0, jitter: STILL }), Ok((0, 0)));
    assert_eq!(
        engine.grid().get(0, 0),
        Ok((Color { red: 151, green: 1, blue: 255 }, true))
    );
}

#[test]
fn seed_all_finalizes_every_seed() {
    let seeds = vec![
        Seed { x: 0, y: 0, color: WHITE },
        Seed { x: 3, y: 0, color: BLACK },
        Seed { x: 0, y: 3, color: Color { red: 1, green: 2, blue: 3 } },
        Seed { x: 3, y: 3, color: WHITE },
    ];
    let mut engine = Diffusion::new(4, 4, 5);
    assert_eq!(engine.seed_all(&seeds), Ok(()));
    assert_eq!(engine.grid().get(0, 3), Ok((Color { red: 1, green: 2, blue: 3 }, true)));
    assert_eq!(engine.grid().get(3, 0), Ok((BLACK, true)));
    assert_eq!(engine.frontier_len(), 8);
    let mut rng = StdRng::seed_from_u64(4);
    assert_eq!(engine.fill(&mut rng), 12);
    assert!(cells(engine.grid()).iter().all(|cell| cell.1));
}

#[test]
fn seed_all_with_a_seed_outside_changes_nothing() {
    let seeds = vec![Seed { x: 0, y: 0, color: WHITE }, Seed { x: 4, y: 0, color: WHITE }];
    let mut engine = Diffusion::new(4, 4, 5);
    assert_eq!(engine.seed_all(&seeds), Err(FillError::OutOfBounds));
    assert!(engine.is_done());
    assert!(cells(engine.grid()).iter().all(|cell| *cell == (BLACK, false)));
}

#[test]
fn adjacent_seeds_leave_no_seed_in_the_frontier() {
    let mut engine = Diffusion::new(3, 1, 0);
    engine.seed(0, 0, WHITE).unwrap();
    assert_eq!(engine.frontier_len(), 1);
    engine.seed(1, 0, BLACK).unwrap();
    assert_eq!(engine.frontier_len(), 1);
    assert_eq!(engine.step(Draw { index: 0, jitter: STILL }), Ok((2, 0)));
    assert_eq!(engine.grid().get(2, 0), Ok((BLACK, true)));
    assert_eq!(engine.grid().get(1, 0), Ok((BLACK, true)));
    assert_eq!(engine.grid().get(0, 0), Ok((WHITE, true)));
}
