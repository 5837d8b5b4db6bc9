use puzzle15::puzzle::Puzzle;

fn board(vals: [i8; 16]) -> Puzzle {
    Puzzle::from_values(&vals.to_vec()).expect("values form a board")
}

fn cells(p: &Puzzle) -> [i8; 16] {
    let mut out = [0i8; 16];
    for r in 0..4 {
        for c in 0..4 {
            out[4 * r + c] = p.get(r, c);
        }
    }
    out
}

const NEARLY_SOLVED: [i8; 16] = [1, 2, 3, 4, 5, 6, 7, 8, 9, 10, 11, 0, 13, 14, 15, 12];
const SOLVED: [i8; 16] = [1, 2, 3, 4, 5, 6, 7, 8, 9, 10, 11, 12, 13, 14, 15, 0];

#[test]
fn random_board_is_permutation() {
    for _ in 0..10 {
        let p = Puzzle::new_random_board();
        let mut counts = [0u32; 16];
        for r in 0..4 {
            for c in 0..4 {
                let v = p.get(r, c);
                assert!((0..16).contains(&v));
                counts[v as usize] += 1;
            }
        }
        for v in 0..16 {
            assert_eq!(counts[v], 1, "value {} must appear exactly once", v);
        }
    }
}

#[test]
fn random_board_empty_position_consistent() {
    for _ in 0..10 {
        let p = Puzzle::new_random_board();
        assert_eq!(p.get(p.empty_row(), p.empty_col()), 0);
    }
}

#[test]
fn empty_position_consistent_after_moves() {
    let mut p = board(NEARLY_SOLVED);
    let moves: [fn(&mut Puzzle); 8] = [
        Puzzle::move_up,
        Puzzle::move_left,
        Puzzle::move_down,
        Puzzle::move_right,
        Puzzle::move_right,
        Puzzle::move_down,
        Puzzle::move_left,
        Puzzle::move_up,
    ];
    for mv in moves {
        mv(&mut p);
        let grid = cells(&p);
        assert_eq!(p.get(p.empty_row(), p.empty_col()), 0);
        let zeros = grid.iter().filter(|&&v| v == 0).count();
        assert_eq!(zeros, 1);
    }
}

#[test]
fn has_won_on_solved_board() {
    let p = board(SOLVED);
    assert!(p.has_won());
}

#[test]
fn has_won_false_on_nearly_solved_board() {
    let p = board(NEARLY_SOLVED);
    assert!(!p.has_won());
}

#[test]
fn has_won_false_on_every_transposition_of_solved() {
    for i in 0..16 {
        for j in (i + 1)..16 {
            let mut vals = SOLVED;
            vals.swap(i, j);
            let p = board(vals);
            assert!(!p.has_won(), "swap of cells {} and {} is not solved", i, j);
        }
    }
}

#[test]
fn cascade_right_scenario() {
    let mut p = board(NEARLY_SOLVED);
    assert_eq!((p.empty_row(), p.empty_col()), (2, 3));
    p.move_right();
    let expected = [1, 2, 3, 4, 5, 6, 7, 8, 0, 9, 10, 11, 13, 14, 15, 12];
    assert_eq!(cells(&p), expected);
    assert_eq!((p.empty_row(), p.empty_col()), (2, 0));
}

#[test]
fn cascade_up_scenario() {
    let mut p = board(NEARLY_SOLVED);
    p.move_up();
    assert_eq!(cells(&p), SOLVED);
    assert_eq!((p.empty_row(), p.empty_col()), (3, 3));
    assert!(p.has_won());
}

#[test]
fn cascade_down_scenario() {
    let mut p = board(NEARLY_SOLVED);
    p.move_down();
    let expected = [1, 2, 3, 0, 5, 6, 7, 4, 9, 10, 11, 8, 13, 14, 15, 12];
    assert_eq!(cells(&p), expected);
    assert_eq!((p.empty_row(), p.empty_col()), (0, 3));
}

#[test]
fn cascade_left_scenario() {
    let vals = [1, 2, 3, 4, 0, 6, 7, 8, 9, 10, 11, 5, 13, 14, 15, 12];
    let mut p = board(vals);
    assert_eq!((p.empty_row(), p.empty_col()), (1, 0));
    p.move_left();
    let expected = [1, 2, 3, 4, 6, 7, 8, 0, 9, 10, 11, 5, 13, 14, 15, 12];
    assert_eq!(cells(&p), expected);
    assert_eq!((p.empty_row(), p.empty_col()), (1, 3));
}

#[test]
fn boundary_moves_are_noops() {
    // Empty cell at (3,3): leftward and upward moves have no room.
    let mut p = board(SOLVED);
    p.move_left();
    assert_eq!(cells(&p), SOLVED);
    assert_eq!((p.empty_row(), p.empty_col()), (3, 3));
    p.move_up();
    assert_eq!(cells(&p), SOLVED);
    assert_eq!((p.empty_row(), p.empty_col()), (3, 3));

    // Empty cell at (0,0): rightward and downward moves have no room.
    let corner = [0, 1, 2, 3, 4, 5, 6, 7, 8, 9, 10, 11, 12, 13, 14, 15];
    let mut q = board(corner);
    q.move_right();
    assert_eq!(cells(&q), corner);
    assert_eq!((q.empty_row(), q.empty_col()), (0, 0));
    q.move_down();
    assert_eq!(cells(&q), corner);
    assert_eq!((q.empty_row(), q.empty_col()), (0, 0));
}

#[test]
fn boundary_noop_is_idempotent() {
    let mut once = board(SOLVED);
    once.move_up();
    let after_once = cells(&once);
    let mut many = board(SOLVED);
    for _ in 0..5 {
        many.move_up();
    }
    assert_eq!(cells(&many), after_once);
    assert_eq!((many.empty_row(), many.empty_col()), (once.empty_row(), once.empty_col()));
}

#[test]
fn render_format() {
    let p = board(SOLVED);
    let expected = "  1   2   3   4 \n  5   6   7   8 \n  9  10  11  12 \n 13  14  15     \n";
    assert_eq!(p.render(), expected);
}

#[test]
fn render_single_digit_and_empty_cells() {
    let vals = [0, 7, 13, 1, 2, 3, 4, 5, 6, 8, 9, 10, 11, 12, 14, 15];
    let p = board(vals);
    let expected = "      7  13   1 \n  2   3   4   5 \n  6   8   9  10 \n 11  12  14  15 \n";
    assert_eq!(p.render(), expected);
}

#[test]
fn from_values_accepts_permutation() {
    let p = Puzzle::from_values(&NEARLY_SOLVED.to_vec());
    let p = p.expect("a permutation of 0..=15 is accepted");
    assert_eq!(cells(&p), NEARLY_SOLVED);
    assert_eq!((p.empty_row(), p.empty_col()), (2, 3));
}

#[test]
fn from_values_rejects_wrong_length() {
    let vals: Vec<i8> = (0..15).collect();
    assert!(Puzzle::from_values(&vals).is_none());
}

#[test]
fn from_values_rejects_out_of_range() {
    let mut vals = SOLVED.to_vec();
    vals[5] = 16;
    assert!(Puzzle::from_values(&vals).is_none());
    let mut vals2 = SOLVED.to_vec();
    vals2[5] = -1;
    assert!(Puzzle::from_values(&vals2).is_none());
}

#[test]
fn from_values_rejects_duplicates() {
    let mut vals = SOLVED.to_vec();
    vals[0] = 2;
    assert!(Puzzle::from_values(&vals).is_none());
}
