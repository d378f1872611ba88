use greedy::board::{GreedyContext, Tile};
use greedy::direction::Direction;
use greedy::rules::{game_over, is_legal, move_rogue, print_moves, valid_moves};
use greedy::setup::{deal, roll, setup_game, sum_draws};

/// A `width` x `height` board with the rogue at `(rx, ry)`, the given piles,
/// and every other cell empty.
fn board(width: i32, height: i32, rx: i32, ry: i32, piles: &[(i32, i32, i32)]) -> GreedyContext {
    let mut gc = GreedyContext::new(width, height);
    gc.set_tile(gc.rogue_x, gc.rogue_y, Tile::Empty);
    gc.rogue_x = rx;
    gc.rogue_y = ry;
    gc.set_tile(rx, ry, Tile::Rogue);
    for &(x, y, n) in piles {
        gc.set_tile(x, y, Tile::Gold(n));
    }
    gc
}

fn full_board(width: i32, height: i32, rx: i32, ry: i32, n: i32) -> GreedyContext {
    let mut piles = vec![];
    for x in 0..width {
        for y in 0..height {
            if (x, y) != (rx, ry) {
                piles.push((x, y, n));
            }
        }
    }
    board(width, height, rx, ry, &piles)
}

const ALL: [Direction; 8] = [
    Direction::North,
    Direction::South,
    Direction::East,
    Direction::West,
    Direction::Northwest,
    Direction::Northeast,
    Direction::Southwest,
    Direction::Southeast,
];

#[test]
fn direction_steps() {
    let expected = [(0, -1), (0, 1), (1, 0), (-1, 0), (-1, -1), (1, -1), (-1, 1), (1, 1)];
    for (d, (dx, dy)) in ALL.iter().zip(expected.iter()) {
        assert_eq!(d.dx(), *dx);
        assert_eq!(d.dy(), *dy);
    }
    assert_eq!(Direction::iter(), ALL.to_vec());
}

#[test]
fn new_board_is_empty_with_rogue_in_centre() {
    let gc = GreedyContext::new(80, 24);
    assert_eq!(gc.rogue_x, 40);
    assert_eq!(gc.rogue_y, 12);
    assert_eq!(gc.cleared, 0);
    assert_eq!(gc.tiles.len(), 80 * 24);
    for x in 0..80 {
        for y in 0..24 {
            let expected = if (x, y) == (40, 12) { Tile::Rogue } else { Tile::Empty };
            assert_eq!(gc.tile(x, y), expected);
        }
    }
}

#[test]
fn off_board_reads_empty() {
    let gc = full_board(3, 3, 1, 1, 5);
    for &(x, y) in &[(-1, 0), (3, 0), (0, -1), (0, 3), (-1, -1), (3, 3), (i32::MIN, 0), (0, i32::MAX)] {
        assert!(!gc.in_bounds(x, y));
        assert_eq!(gc.tile(x, y), Tile::Empty);
    }
    assert_eq!(gc.tile(0, 0), Tile::Gold(5));
    assert_eq!(gc.tile(1, 1), Tile::Rogue);
}

#[test]
fn set_tile_writes_one_cell() {
    let mut gc = GreedyContext::new(4, 3);
    gc.set_tile(3, 2, Tile::Gold(7));
    assert_eq!(gc.tile(3, 2), Tile::Gold(7));
    assert_eq!(gc.tiles[2 * 4 + 3], Tile::Gold(7));
    assert_eq!(gc.tile(2, 3), Tile::Empty);
}

#[test]
fn all_directions_listed_in_canonical_order() {
    let gc = full_board(3, 3, 1, 1, 1);
    assert_eq!(valid_moves(&gc), ALL.to_vec());
    assert!(!game_over(&gc));
}

#[test]
fn moves_never_start_off_board_or_on_empty() {
    // Rogue in a corner: five directions step off the board at once.
    let gc = full_board(3, 3, 0, 0, 1);
    assert_eq!(valid_moves(&gc), vec![Direction::South, Direction::East, Direction::Southeast]);
    // An empty neighbour is no move either.
    let gc = board(3, 3, 1, 1, &[(1, 0, 1), (2, 1, 1)]);
    assert_eq!(valid_moves(&gc), vec![Direction::North, Direction::East]);
    assert!(!is_legal(&gc, Direction::South));
}

#[test]
fn move_north_onto_single_pile() {
    let mut gc = board(3, 3, 1, 1, &[(1, 0, 1), (0, 0, 4), (2, 2, 9)]);
    assert!(valid_moves(&gc).contains(&Direction::North));
    move_rogue(&mut gc, Direction::North);
    assert_eq!((gc.rogue_x, gc.rogue_y), (1, 0));
    assert_eq!(gc.cleared, 1);
    assert_eq!(gc.tile(1, 0), Tile::Rogue);
    assert_eq!(gc.tile(1, 1), Tile::Empty);
    assert_eq!(gc.tile(0, 0), Tile::Gold(4));
    assert_eq!(gc.tile(2, 2), Tile::Gold(9));
}

#[test]
fn move_east_consumes_run_of_three() {
    let mut gc = board(5, 1, 0, 0, &[(1, 0, 3), (2, 0, 2), (3, 0, 5), (4, 0, 1)]);
    assert_eq!(valid_moves(&gc), vec![Direction::East]);
    move_rogue(&mut gc, Direction::East);
    assert_eq!(gc.tile(0, 0), Tile::Empty);
    assert_eq!(gc.tile(1, 0), Tile::Empty);
    assert_eq!(gc.tile(2, 0), Tile::Empty);
    assert_eq!(gc.tile(3, 0), Tile::Rogue);
    assert_eq!(gc.tile(4, 0), Tile::Gold(1));
    assert_eq!((gc.rogue_x, gc.rogue_y), (3, 0));
    assert_eq!(gc.cleared, 3);
}

#[test]
fn leap_consumes_exactly_the_run() {
    let mut gc = full_board(5, 5, 2, 2, 2);
    gc.cleared = 10;
    let before = gc.tiles.clone();
    move_rogue(&mut gc, Direction::Southeast);
    assert_eq!((gc.rogue_x, gc.rogue_y), (4, 4));
    assert_eq!(gc.cleared, 12);
    let mut emptied = 0;
    for x in 0..5 {
        for y in 0..5 {
            let old = before[(y * 5 + x) as usize];
            let new = gc.tile(x, y);
            if old != Tile::Empty && new == Tile::Empty {
                emptied += 1;
                assert!((x, y) == (2, 2) || (x, y) == (3, 3));
            } else if (x, y) == (4, 4) {
                assert_eq!(new, Tile::Rogue);
            } else {
                assert_eq!(new, old);
            }
        }
    }
    assert_eq!(emptied, 2);
}

#[test]
fn run_leaving_board_is_excluded() {
    let gc = board(3, 1, 0, 0, &[(1, 0, 3), (2, 0, 1)]);
    assert!(!is_legal(&gc, Direction::East));
    assert!(valid_moves(&gc).is_empty());
    assert!(game_over(&gc));
}

#[test]
fn run_with_gap_is_excluded() {
    let gc = board(5, 1, 0, 0, &[(1, 0, 3), (3, 0, 1)]);
    assert!(!is_legal(&gc, Direction::East));
    assert!(game_over(&gc));
}

#[test]
fn illegal_move_changes_nothing() {
    let mut gc = board(5, 1, 0, 0, &[(1, 0, 4), (2, 0, 2), (3, 0, 5)]);
    gc.cleared = 7;
    let tiles = gc.tiles.clone();
    for d in ALL.iter() {
        move_rogue(&mut gc, *d);
        assert_eq!(gc.tiles, tiles);
        assert_eq!((gc.rogue_x, gc.rogue_y, gc.cleared), (0, 0, 7));
    }
}

#[test]
fn terminal_board_stays_terminal() {
    let mut gc = board(3, 3, 1, 1, &[(0, 0, 2)]);
    assert!(game_over(&gc));
    let tiles = gc.tiles.clone();
    for d in ALL.iter() {
        move_rogue(&mut gc, *d);
        assert!(game_over(&gc));
        assert_eq!(gc.tiles, tiles);
        assert_eq!((gc.rogue_x, gc.rogue_y, gc.cleared), (1, 1, 0));
    }
}

#[test]
fn game_ends_after_last_leap() {
    let mut gc = board(3, 1, 0, 0, &[(1, 0, 1), (2, 0, 1)]);
    move_rogue(&mut gc, Direction::East);
    assert!(!game_over(&gc));
    move_rogue(&mut gc, Direction::East);
    assert_eq!(gc.cleared, 2);
    assert!(game_over(&gc));
}

#[test]
fn highlighted_cells_follow_legal_runs() {
    let gc = board(5, 1, 0, 0, &[(1, 0, 3), (2, 0, 2), (3, 0, 5), (4, 0, 1)]);
    assert_eq!(print_moves(&gc), vec![(1, 0), (2, 0), (3, 0)]);
    let gc = board(3, 3, 1, 1, &[(1, 0, 1), (2, 1, 1), (0, 1, 2)]);
    assert_eq!(print_moves(&gc), vec![(1, 0), (2, 1)]);
    let gc = board(3, 3, 1, 1, &[]);
    assert!(print_moves(&gc).is_empty());
}

#[test]
fn roll_stays_in_range() {
    for _ in 0..200 {
        let r = roll(1, 9);
        assert!((1..=9).contains(&r));
        let s = roll(3, 6);
        assert!((3..=18).contains(&s));
    }
    assert_eq!(roll(0, 6), 0);
    assert_eq!(roll(4, 1), 4);
}

#[test]
fn setup_deals_piles_everywhere_but_the_centre() {
    let mut gc = GreedyContext::new(80, 24);
    setup_game(&mut gc);
    assert_eq!(gc.cleared, 1);
    assert_eq!((gc.rogue_x, gc.rogue_y), (40, 12));
    let mut values = [false; 10];
    for x in 0..80 {
        for y in 0..24 {
            match gc.tile(x, y) {
                Tile::Rogue => assert_eq!((x, y), (40, 12)),
                Tile::Gold(n) => {
                    assert!((1..=9).contains(&n));
                    values[n as usize] = true;
                }
                Tile::Empty => panic!("empty cell after setup"),
            }
        }
    }
    // With 1919 throws every face shows up.
    assert!(values[1..].iter().all(|&v| v));
}

#[test]
fn deal_places_each_pile_on_its_cell() {
    let mut gc = GreedyContext::new(3, 2);
    gc.cleared = 40;
    let piles = vec![1, 2, 3, 4, 5, 6];
    deal(&mut gc, &piles);
    assert_eq!((gc.rogue_x, gc.rogue_y, gc.cleared), (1, 1, 1));
    for x in 0..3 {
        for y in 0..2 {
            let expected = if (x, y) == (1, 1) {
                Tile::Rogue
            } else {
                Tile::Gold(piles[(x * 2 + y) as usize])
            };
            assert_eq!(gc.tile(x, y), expected);
        }
    }
    assert_eq!(gc.tile(0, 1), Tile::Gold(2));
    assert_eq!(gc.tile(2, 0), Tile::Gold(5));
}

#[test]
fn same_piles_deal_same_board() {
    let piles: Vec<i32> = (0..20).map(|i| i % 9 + 1).collect();
    let mut a = GreedyContext::new(5, 4);
    let mut b = full_board(5, 4, 0, 0, 7);
    b.cleared = 99;
    deal(&mut a, &piles);
    deal(&mut b, &piles);
    assert_eq!(a.tiles, b.tiles);
    assert_eq!((a.rogue_x, a.rogue_y, a.cleared), (b.rogue_x, b.rogue_y, b.cleared));
}

#[test]
fn sum_draws_adds_every_draw() {
    assert_eq!(sum_draws(&vec![3, 1, 6], 6), 10);
    assert_eq!(sum_draws(&vec![9], 9), 9);
    assert_eq!(sum_draws(&vec![], 6), 0);
}

#[test]
fn score_reaches_the_counter_limit() {
    let mut gc = board(3, 1, 0, 0, &[(1, 0, 2), (2, 0, 1)]);
    gc.cleared = i32::MAX - 3;
    move_rogue(&mut gc, Direction::East);
    assert_eq!(gc.cleared, i32::MAX - 1);
    assert_eq!(gc.tile(2, 0), Tile::Rogue);
    assert!(game_over(&gc));
}
