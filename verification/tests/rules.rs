use num_huarongdao::error::ErrorKind;
use num_huarongdao::num_hrd::{Direction, Num, NumHrd};
use num_huarongdao::shuffle::{shuffle, RandomSource, DEFAULT_MOVE_COUNT};

/// The numbers of the grid, row by row.
fn values(board: &NumHrd) -> Vec<usize> {
    board.data().iter().map(|t| t.get_n()).collect()
}

/// Checks that the grid holds each of `0, ..., side * side - 1` once.
fn assert_intact(board: &NumHrd) {
    let side = *board.size() as usize;
    let mut sorted = values(board);
    assert_eq!(sorted.len(), side * side);
    sorted.sort();
    let expected: Vec<usize> = (0..side * side).collect();
    assert_eq!(sorted, expected);
    assert_eq!(values(board).iter().filter(|v| **v == 0).count(), 1);
}

/// A small generator with a fixed sequence for each seed.
struct Lcg {
    state: u64,
    drawn: Vec<u32>,
}

impl Lcg {
    fn new(seed: u64) -> Lcg {
        Lcg { state: seed, drawn: Vec::new() }
    }
}

impl RandomSource for Lcg {
    fn next_u32(&mut self) -> u32 {
        self.state = self.state.wrapping_mul(6364136223846793005).wrapping_add(1442695040888963407);
        let draw = (self.state >> 33) as u32;
        self.drawn.push(draw);
        draw
    }
}

/// Hands out the given draws in turn, then starts again.
struct Fixed {
    draws: Vec<u32>,
    next: usize,
}

impl RandomSource for Fixed {
    fn next_u32(&mut self) -> u32 {
        let draw = self.draws[self.next % self.draws.len()];
        self.next += 1;
        draw
    }
}

fn opposite(d: Direction) -> Direction {
    match d {
        Direction::Top => Direction::Bottom,
        Direction::Bottom => Direction::Top,
        Direction::Left => Direction::Right,
        Direction::Right => Direction::Left,
    }
}

#[test]
fn new_puzzle_is_solved_for_every_side() {
    for side in 2..=12u8 {
        let board = NumHrd::new(&side);
        assert!(board.is_win());
        assert_eq!(*board.size(), side);
        assert_eq!(board.len(), side as usize * side as usize);
        assert_intact(&board);
    }
    let big = NumHrd::new(&255);
    assert_eq!(big.len(), 65025);
    assert!(big.is_win());
}

#[test]
fn new_puzzle_holds_numbers_in_order_and_blank_last() {
    let board = NumHrd::new(&4);
    assert_eq!(values(&board), vec![1, 2, 3, 4, 5, 6, 7, 8, 9, 10, 11, 12, 13, 14, 15, 0]);
    let board = NumHrd::new(&2);
    assert_eq!(values(&board), vec![1, 2, 3, 0]);
}

#[test]
fn degenerate_sides_give_the_one_cell_puzzle() {
    for side in [0u8, 1u8] {
        let mut board = NumHrd::new(&side);
        assert_eq!(*board.size(), 1);
        assert_eq!(board.len(), 1);
        assert_eq!(values(&board), vec![0]);
        assert!(board.is_win());
        assert_eq!(board.zero_move(&Direction::Left), Ok(true));
        assert_eq!(board.zero_move(&Direction::Bottom), Ok(true));
        assert_eq!(board.exchange(&0, &0), Ok(()));
        assert_eq!(board.exchange(&0, &1), Err(ErrorKind::NotFound));
        assert!(board.move_num(0));
        assert!(!board.move_num(1));
        assert_eq!(values(&board), vec![0]);
        assert_eq!(board.as_2d_vec(), vec![vec![0]]);
    }
}

#[test]
fn moves_scenario_left_then_top() {
    let mut board = NumHrd::new(&3);
    assert_eq!(values(&board), vec![1, 2, 3, 4, 5, 6, 7, 8, 0]);
    assert_eq!(board.index_by_n(&0), Some(8));
    assert_eq!(board.zero_move(&Direction::Left), Ok(true));
    assert_eq!(board.index_by_n(&0), Some(7));
    assert_eq!(values(&board), vec![1, 2, 3, 4, 5, 6, 7, 0, 8]);
    assert_eq!(board.zero_move(&Direction::Top), Ok(true));
    assert_eq!(board.index_by_n(&0), Some(4));
    assert_eq!(values(&board), vec![1, 2, 3, 4, 0, 6, 7, 5, 8]);
    assert!(!board.is_win());
}

#[test]
fn exchange_scenario_on_solved_board() {
    let mut board = NumHrd::new(&3);
    assert_eq!(board.exchange(&0, &1), Err(ErrorKind::CannotExchangeNoneZero));
    assert_eq!(board.exchange(&0, &4), Err(ErrorKind::CannotExchangeNotNeighbouring));
    assert_eq!(values(&board), vec![1, 2, 3, 4, 5, 6, 7, 8, 0]);
}

#[test]
fn directional_index_at_the_edges() {
    let board = NumHrd::new(&3);
    assert_eq!(board.get_dirction_index(&0, &Direction::Top), None);
    assert_eq!(board.get_dirction_index(&0, &Direction::Left), None);
    assert_eq!(board.get_dirction_index(&8, &Direction::Right), None);
    assert_eq!(board.get_dirction_index(&8, &Direction::Bottom), None);
    assert_eq!(board.get_dirction_index(&2, &Direction::Right), None);
    assert_eq!(board.get_dirction_index(&3, &Direction::Left), None);
    assert_eq!(board.get_dirction_index(&6, &Direction::Bottom), None);
    assert_eq!(board.get_dirction_index(&5, &Direction::Left), Some(4));
    assert_eq!(board.get_dirction_index(&5, &Direction::Bottom), Some(8));
}

#[test]
fn directional_index_never_overflows() {
    let board = NumHrd::new(&3);
    // usize::MAX is 0 modulo 3, so the step to the right is asked for and is no usize.
    assert_eq!(usize::MAX % 3, 0);
    assert_eq!(board.get_dirction_index(&usize::MAX, &Direction::Right), None);
    assert_eq!(board.get_dirction_index(&usize::MAX, &Direction::Bottom), None);
    assert_eq!(board.get_dirction_index(&usize::MAX, &Direction::Top), Some(usize::MAX - 3));
    assert_eq!(board.get_dirction_index(&usize::MAX, &Direction::Left), None);
    assert_eq!(board.get_dirction_index(&(usize::MAX - 1), &Direction::Left), Some(usize::MAX - 2));
}

#[test]
fn exchange_with_itself_always_succeeds() {
    let mut board = NumHrd::new(&3);
    board.zero_move(&Direction::Top).unwrap();
    let before = values(&board);
    for i in 0..9usize {
        assert_eq!(board.exchange(&i, &i), Ok(()));
        assert_eq!(values(&board), before);
    }
    assert_eq!(board.exchange(&9, &9), Err(ErrorKind::NotFound));
}

#[test]
fn exchange_of_cells_that_do_not_touch_fails() {
    let mut board = NumHrd::new(&3);
    for i in 0..9usize {
        for j in 0..9usize {
            let (ri, ci, rj, cj) = (i / 3, i % 3, j / 3, j % 3);
            let touch = (ri == rj && ci.abs_diff(cj) == 1) || (ci == cj && ri.abs_diff(rj) == 1);
            assert_eq!(board.is_neighbouring(&i, &j), touch);
            if i != j && !touch {
                let before = values(&board);
                assert_eq!(board.exchange(&i, &j), Err(ErrorKind::CannotExchangeNotNeighbouring));
                assert_eq!(values(&board), before);
            }
        }
    }
}

#[test]
fn row_ends_do_not_touch() {
    let mut board = NumHrd::new(&3);
    board.zero_move(&Direction::Top).unwrap();
    assert_eq!(board.index_by_n(&0), Some(5));
    assert!(!board.is_neighbouring(&5, &6));
    assert!(!board.is_neighbouring(&2, &3));
    assert_eq!(board.exchange(&5, &6), Err(ErrorKind::CannotExchangeNotNeighbouring));
    assert!(!board.move_num(6));
    assert_eq!(board.zero_move(&Direction::Right), Ok(true));
    assert_eq!(board.index_by_n(&0), Some(5));
    assert_eq!(values(&board), vec![1, 2, 3, 4, 5, 0, 7, 8, 6]);
}

#[test]
fn exchange_of_two_numbered_tiles_fails() {
    let mut board = NumHrd::new(&4);
    for i in 0..16usize {
        for j in 0..16usize {
            if board.is_neighbouring(&i, &j) && i != 15 && j != 15 {
                assert_eq!(board.exchange(&i, &j), Err(ErrorKind::CannotExchangeNoneZero));
            }
        }
    }
    assert!(board.is_win());
}

#[test]
fn exchange_out_of_range_is_not_found() {
    let mut board = NumHrd::new(&3);
    assert_eq!(board.exchange(&9, &8), Err(ErrorKind::NotFound));
    assert_eq!(board.exchange(&8, &9), Err(ErrorKind::NotFound));
    assert_eq!(board.exchange(&0, &100), Err(ErrorKind::NotFound));
    assert_eq!(board.exchange(&usize::MAX, &usize::MAX), Err(ErrorKind::NotFound));
    assert!(board.is_win());
}

#[test]
fn exchange_swaps_blank_and_neighbour_either_way_round() {
    let mut board = NumHrd::new(&3);
    assert_eq!(board.exchange(&8, &5), Ok(()));
    assert_eq!(values(&board), vec![1, 2, 3, 4, 5, 0, 7, 8, 6]);
    assert_eq!(board.exchange(&4, &5), Ok(()));
    assert_eq!(values(&board), vec![1, 2, 3, 4, 0, 5, 7, 8, 6]);
    assert_intact(&board);
}

#[test]
fn addressing() {
    let board = NumHrd::new(&3);
    assert_eq!(board.index_by_point((1, 2)), 5);
    assert_eq!(board.index_by_point((2, 5)), 11);
    assert_eq!(board.index_by_point((255, 255)), 255 * 3 + 255);
    assert_eq!(board.num_by_index(&9), None);
    assert_eq!(board.num_by_index(&usize::MAX), None);
    assert_eq!(board.num_by_index(&8), Some(&Num::new(&0)));
    assert_eq!(board.num_by_point((3, 0)), None);
    assert_eq!(board.num_by_point((0, 5)), Some(&Num::new(&6)));
    assert_eq!(board.index_by_n(&6), Some(5));
    assert_eq!(board.index_by_n(&9), None);
    let wide = NumHrd::new(&255);
    assert_eq!(wide.index_by_point((255, 255)), 255 * 255 + 255);
    assert_eq!(wide.index_by_point((254, 254)), 65024);
    assert_eq!(wide.num_by_point((254, 254)), Some(&Num::new(&0)));
}

#[test]
fn snapshot_is_row_major() {
    let mut board = NumHrd::new(&3);
    assert_eq!(board.as_2d_vec(), vec![vec![1, 2, 3], vec![4, 5, 6], vec![7, 8, 0]]);
    board.zero_move(&Direction::Top).unwrap();
    assert_eq!(board.as_2d_vec(), vec![vec![1, 2, 3], vec![4, 5, 0], vec![7, 8, 6]]);
}

#[test]
fn move_num_slides_the_named_tile() {
    let mut board = NumHrd::new(&3);
    assert!(!board.move_num(0));
    assert!(!board.move_num(4));
    assert!(!board.move_num(9));
    assert!(board.move_num(8));
    assert!(board.is_win());
    assert!(board.move_num(5));
    assert_eq!(values(&board), vec![1, 2, 3, 4, 5, 0, 7, 8, 6]);
    assert!(board.move_num_by_point((1, 1)));
    assert_eq!(values(&board), vec![1, 2, 3, 4, 0, 5, 7, 8, 6]);
    assert!(!board.move_num_by_point((2, 2)));
    assert!(!board.move_num_by_point((9, 9)));
    assert_eq!(values(&board), vec![1, 2, 3, 4, 0, 5, 7, 8, 6]);
    assert_intact(&board);
}

#[test]
fn moves_at_the_edge_change_nothing() {
    let mut board = NumHrd::new(&3);
    assert_eq!(board.zero_move(&Direction::Right), Ok(true));
    assert_eq!(board.zero_move(&Direction::Bottom), Ok(true));
    assert!(board.is_win());
}

#[test]
fn numbers_survive_any_sequence_of_operations() {
    let mut board = NumHrd::new(&4);
    let mut rng = Lcg::new(7);
    for _ in 0..2000 {
        let draw = rng.next_u32();
        match draw % 3 {
            0 => {
                let i = (rng.next_u32() % 18) as usize;
                let j = (rng.next_u32() % 18) as usize;
                let _ = board.exchange(&i, &j);
            },
            1 => {
                let d = Direction::from_draw(rng.next_u32());
                assert_eq!(board.zero_move(&d), Ok(true));
            },
            _ => {
                let _ = board.move_num((rng.next_u32() % 18) as usize);
            },
        }
        assert_intact(&board);
    }
}

#[test]
fn draws_map_to_directions() {
    assert_eq!(Direction::from_draw(0), Direction::Top);
    assert_eq!(Direction::from_draw(1), Direction::Bottom);
    assert_eq!(Direction::from_draw(2), Direction::Left);
    assert_eq!(Direction::from_draw(3), Direction::Right);
    assert_eq!(Direction::from_draw(4), Direction::Top);
    assert_eq!(Direction::from_draw(7), Direction::Right);
    assert_eq!(Direction::from_draw(u32::MAX), Direction::Right);
}

#[test]
fn shuffle_keeps_the_puzzle_sound() {
    for seed in 0..40u64 {
        for count in [0usize, 1, 2, 7, DEFAULT_MOVE_COUNT, 333] {
            let mut board = NumHrd::new(&3);
            let mut rng = Lcg::new(seed);
            assert_eq!(shuffle(&mut board, count, &mut rng), Ok(()));
            assert_eq!(rng.drawn.len(), count);
            assert_intact(&board);
            for d in [Direction::Top, Direction::Bottom, Direction::Left, Direction::Right] {
                assert_eq!(board.zero_move(&d), Ok(true));
                assert_intact(&board);
            }
        }
    }
}

#[test]
fn shuffle_follows_the_draws() {
    let mut board = NumHrd::new(&3);
    let mut source = Fixed { draws: vec![2, 0, 6, 1], next: 0 };
    assert_eq!(shuffle(&mut board, 2, &mut source), Ok(()));
    assert_eq!(values(&board), vec![1, 2, 3, 4, 0, 6, 7, 5, 8]);
    assert_eq!(shuffle(&mut board, 0, &mut source), Ok(()));
    assert_eq!(values(&board), vec![1, 2, 3, 4, 0, 6, 7, 5, 8]);
    // Left, to index 3; then down, to index 6.
    assert_eq!(shuffle(&mut board, 2, &mut source), Ok(()));
    assert_eq!(values(&board), vec![1, 2, 3, 7, 4, 6, 0, 5, 8]);
}

#[test]
fn shuffle_repeats_itself_for_one_seed() {
    let mut a = NumHrd::new(&4);
    let mut b = NumHrd::new(&4);
    shuffle(&mut a, DEFAULT_MOVE_COUNT, &mut Lcg::new(99)).unwrap();
    shuffle(&mut b, DEFAULT_MOVE_COUNT, &mut Lcg::new(99)).unwrap();
    assert!(a == b);
    assert_eq!(values(&a), values(&b));
    assert!(!(a == NumHrd::new(&3)));
}

#[test]
fn shuffled_puzzle_can_be_solved_by_walking_back() {
    for seed in [1u64, 2, 3, 50, 1234] {
        let mut board = NumHrd::new(&4);
        let mut rng = Lcg::new(seed);
        shuffle(&mut board, 200, &mut rng).unwrap();
        // Find out which of the moves changed the grid.
        let mut replay = NumHrd::new(&4);
        let mut made: Vec<Direction> = Vec::new();
        for draw in rng.drawn.iter() {
            let d = Direction::from_draw(*draw);
            let before = values(&replay);
            replay.zero_move(&d).unwrap();
            if values(&replay) != before {
                made.push(d);
            }
        }
        assert!(replay == board);
        for d in made.iter().rev() {
            assert_eq!(board.zero_move(&opposite(*d)), Ok(true));
        }
        assert!(board.is_win());
    }
}

#[test]
fn default_move_count_is_fifty() {
    assert_eq!(DEFAULT_MOVE_COUNT, 50);
}

#[test]
fn tiles() {
    assert!(Num::new(&0).is_empty());
    assert!(!Num::new(&3).is_empty());
    assert!(Num::default().is_empty());
    assert_eq!(Num::default().get_n(), 0);
    assert_eq!(Num::new(&7), Num::new(&7));
    assert_ne!(Num::new(&7), Num::new(&8));
    assert_eq!(Num::new(&usize::MAX).get_n(), usize::MAX);
}

#[test]
fn puzzles_compare_by_side_and_numbers() {
    let mut a = NumHrd::new(&3);
    let b = NumHrd::new(&3);
    assert!(a == b);
    a.zero_move(&Direction::Left).unwrap();
    assert!(a != b);
    a.zero_move(&Direction::Right).unwrap();
    assert!(a == b);
    assert!(a.clone() == a);
    assert!(NumHrd::new(&2) != NumHrd::new(&3));
}
