use nazopuyo::field::{chain, has_chain, Field};
use nazopuyo::field1d::Field1D;
use nazopuyo::field_naive_bit::FieldNaiveBit;
use nazopuyo::memo::{snapshot, Memo};
use nazopuyo::naive_field::NaiveField;
use nazopuyo::naive_next_puyo::NaiveNextPuyo;
use nazopuyo::nazopuyo_info::NazopuyoInfo;
use nazopuyo::nazopuyo_solver::{anchor_column, drop_cell, parallel_dfs, place_piece, Solver};

fn puzzle_board<F: Field>() -> F {
    let mut field = F::new();
    field.set(12, 1, 1);
    field.set(12, 2, 2);
    field.set(12, 3, 2);
    field.set(12, 4, 2);
    field.set(12, 5, 4);
    field.set(11, 1, 1);
    field.set(11, 2, 1);
    field.set(11, 3, 1);
    field.set(11, 4, 4);
    field.set(11, 5, 4);
    field.set(10, 3, 3);
    field.set(10, 4, 3);
    field
}

fn puzzle_info() -> NazopuyoInfo {
    let mut next = NaiveNextPuyo::new();
    next.len = 2;
    next.value[0][0] = 3;
    next.value[0][1] = 4;
    next.value[1][0] = 3;
    next.value[1][1] = 2;
    NazopuyoInfo { chain: 3, next }
}

fn count_cells<F: Field>(field: &F) -> usize {
    let mut n = 0;
    for y in 0..13 {
        for x in 0..6 {
            if field.get(y, x) != 0 {
                n += 1;
            }
        }
    }
    n
}

#[test]
fn it_works() {
    let mut field = NaiveField::new();
    field.set(12, 1, 1);
    field.set(12, 2, 2);
    field.set(12, 3, 2);
    field.set(12, 4, 2);
    field.set(12, 5, 4);
    field.set(11, 1, 1);
    field.set(11, 2, 1);
    field.set(11, 3, 1);
    field.set(11, 4, 4);
    field.set(11, 5, 4);
    field.set(10, 3, 3);
    field.set(10, 4, 3);
    println!("{:?}", field);
    let mut next = NaiveNextPuyo::new();
    next.len = 2;
    next.value[0][0] = 3;
    next.value[0][1] = 4;
    next.value[1][0] = 3;
    next.value[1][1] = 2;
    let info = NazopuyoInfo { chain: 3, next };
    let mut solver = Solver::new(field, info);
    let res = solver.solve();
    assert!(res.is_some());
}

#[test]
fn solution_measures_the_target_chain() {
    let field: NaiveField = puzzle_board();
    let mut solver = Solver::new(field, puzzle_info());
    let mut found = solver.solve().unwrap();
    // the board returned is the placement, before anything resolves
    assert_eq!(count_cells(&found), count_cells(&field) + 4);
    assert!(has_chain(&found));
    assert_eq!(chain(&mut found), 3);
}

#[test]
fn solve_starts_afresh_every_time() {
    let field: NaiveField = puzzle_board();
    let mut solver = Solver::new(field, puzzle_info());
    let first = solver.solve();
    let second = solver.solve();
    assert!(first.is_some());
    assert_eq!(first, second);
}

#[test]
fn every_backend_finds_the_same_board() {
    let naive = Solver::new(puzzle_board::<NaiveField>(), puzzle_info()).solve().unwrap();
    let flat = Solver::new(puzzle_board::<Field1D>(), puzzle_info()).solve().unwrap();
    let packed = Solver::new(puzzle_board::<FieldNaiveBit>(), puzzle_info()).solve().unwrap();
    assert_eq!(snapshot(&naive), snapshot(&flat));
    assert_eq!(snapshot(&naive), snapshot(&packed));
}

#[test]
fn first_candidate_wins_when_nothing_has_to_chain() {
    let mut next = NaiveNextPuyo::new();
    next.len = 1;
    next.value[0] = [2, 3];
    let info = NazopuyoInfo { chain: 0, next };
    let mut solver = Solver::new(NaiveField::new(), info);
    let found = solver.solve().unwrap();
    // column 2 first, the piece as given, upright
    let mut want = NaiveField::new();
    want.set(12, 2, 2);
    want.set(11, 2, 3);
    assert_eq!(found, want);
}

#[test]
fn no_solution_is_reported_as_none() {
    let mut next = NaiveNextPuyo::new();
    next.len = 1;
    next.value[0] = [2, 3];
    let info = NazopuyoInfo { chain: 1, next };
    let mut solver = Solver::new(NaiveField::new(), info);
    assert_eq!(solver.solve(), None);
}

#[test]
fn no_pieces_measures_the_board_itself() {
    let full = [[2u8; 13]; 6];
    let next = NaiveNextPuyo::new();
    let mut hit = Solver::new(NaiveField::from_u8(full), NazopuyoInfo { chain: 2, next });
    assert_eq!(hit.solve(), Some(NaiveField::from_u8(full)));
    let mut miss = Solver::new(NaiveField::from_u8(full), NazopuyoInfo { chain: 1, next });
    assert_eq!(miss.solve(), None);
}

#[test]
fn a_match_before_the_last_piece_is_not_searched() {
    // three cells of one color: one more of it completes a group
    let mut field = NaiveField::new();
    field.set(12, 0, 2);
    field.set(12, 1, 2);
    field.set(11, 0, 2);
    let mut next = NaiveNextPuyo::new();
    next.len = 1;
    next.value[0] = [2, 2];
    let mut one = Solver::new(field, NazopuyoInfo { chain: 1, next });
    let mut found = one.solve().unwrap();
    assert_eq!(chain(&mut found), 1);

    // as the last of two pieces it still may
    next.len = 2;
    next.value[0] = [3, 3];
    next.value[1] = [2, 2];
    let mut last = Solver::new(field, NazopuyoInfo { chain: 1, next });
    let mut found = last.solve().unwrap();
    assert_eq!(chain(&mut found), 1);

    // as the first of two it may not, and the other piece brings no chain
    next.value[0] = [2, 2];
    next.value[1] = [3, 3];
    let mut early = Solver::new(field, NazopuyoInfo { chain: 1, next });
    assert_eq!(early.solve(), None);
}

#[test]
fn dead_boards_are_not_searched() {
    // column 2 is filled up to row 2: one more cell there takes the spawn cell
    let mut field = NaiveField::new();
    let colors = [2u8, 3, 2, 3, 2, 3, 2, 3, 2, 3, 2];
    for (i, c) in colors.iter().enumerate() {
        field.set(12 - i, 2, *c);
    }
    let mut next = NaiveNextPuyo::new();
    next.len = 2;
    next.value[0] = [4, 5];
    next.value[1] = [6, 1];
    let mut solver = Solver::new(field, NazopuyoInfo { chain: 0, next });
    let found = solver.solve().unwrap();
    // the first piece may not take the spawn cell: it goes to column 4
    let mut want = field;
    want.set(12, 4, 4);
    want.set(11, 4, 5);
    // the last piece may, nothing is searched after it
    want.set(1, 2, 6);
    want.set(0, 2, 1);
    assert_eq!(found, want);
    assert!(!found.is_alive());
}

#[test]
fn fan_out_lists_each_board_once_in_order() {
    let mut next = NaiveNextPuyo::new();
    next.len = 2;
    next.value[0] = [2, 2];
    next.value[1] = [3, 3];
    let mut solver = Solver::new(NaiveField::new(), NazopuyoInfo { chain: 0, next });
    let boards = solver.fan_out();
    // six upright placements and five flat ones; flipping changes nothing
    assert_eq!(boards.len(), 11);
    let mut first = NaiveField::new();
    first.set(12, 2, 2);
    first.set(11, 2, 2);
    assert_eq!(boards[0], first);
    let mut second = NaiveField::new();
    second.set(12, 2, 2);
    second.set(12, 3, 2);
    assert_eq!(boards[1], second);
    let memo = solver.memo();
    for b in boards.iter() {
        assert!(memo.contains(b));
    }
    assert!(!memo.contains(&NaiveField::new()));
    assert_eq!(solver.info().chain, 0);
}

#[test]
fn searches_from_the_fan_out_find_what_solve_finds() {
    let field: FieldNaiveBit = puzzle_board();
    let info = puzzle_info();
    let mut solver = Solver::new(field, info);
    let boards = solver.fan_out();
    assert!(!boards.is_empty());
    let mut hits = 0;
    for b in boards.iter() {
        let mut board = *b;
        let mut memo = solver.memo();
        match parallel_dfs(&mut board, info, 1, &mut memo) {
            Some(found) => {
                hits += 1;
                let mut probe = found;
                assert_eq!(chain(&mut probe), 3);
            }
            None => assert_eq!(board, *b),
        }
    }
    assert!(hits >= 1);
}

#[test]
fn candidates_come_in_the_fixed_column_order() {
    let order: Vec<usize> = (0..24).map(anchor_column).collect();
    assert_eq!(
        order,
        vec![2, 2, 2, 2, 4, 4, 4, 4, 3, 3, 3, 3, 5, 5, 5, 5, 1, 1, 1, 1, 0, 0, 0, 0]
    );
}

#[test]
fn a_cell_drops_onto_the_column() {
    let mut field = NaiveField::new();
    assert_eq!(drop_cell(&mut field, 3, 5), Some(12));
    assert_eq!(drop_cell(&mut field, 3, 6), Some(11));
    assert_eq!(field.get(12, 3), 5);
    assert_eq!(field.get(11, 3), 6);
    for y in 0..11 {
        field.set(y, 3, 2);
    }
    let before = field;
    assert_eq!(drop_cell(&mut field, 3, 4), None);
    assert_eq!(field, before);
}

#[test]
fn a_piece_is_placed_as_its_candidate_says() {
    // candidate 3: column 2, flipped, flat
    let mut field = NaiveField::new();
    field.set(12, 3, 1);
    assert_eq!(place_piece(&mut field, [2, 3], 3), Some((12, 11)));
    assert_eq!(field.get(12, 2), 3);
    assert_eq!(field.get(11, 3), 2);

    // candidate 13: column 5, flat: no column to the right
    let mut edge = NaiveField::new();
    assert_eq!(place_piece(&mut edge, [2, 3], 13), None);
    assert_eq!(edge, NaiveField::new());

    // candidate 0 on a column with one free cell: the second finds no room
    let mut tight = NaiveField::new();
    for y in 1..13 {
        tight.set(y, 2, 1);
    }
    let before = tight;
    assert_eq!(place_piece(&mut tight, [2, 3], 0), None);
    assert_eq!(tight, before);
}

#[test]
fn memo_keeps_boards_by_their_cells() {
    let mut memo = Memo::new();
    let mut a = NaiveField::new();
    a.set(12, 0, 2);
    let mut b = FieldNaiveBit::new();
    b.set(12, 0, 2);
    assert!(!memo.contains(&a));
    memo.insert(&a);
    assert!(memo.contains(&a));
    // the same cells in another layout are the same board
    assert!(memo.contains(&b));
    b.set(11, 0, 3);
    assert!(!memo.contains(&b));
    let copy = memo.duplicate();
    memo.insert(&b);
    assert!(memo.contains(&b));
    assert!(copy.contains(&a));
    assert!(!copy.contains(&b));
}

#[test]
fn ten_pieces_from_a_vec() {
    let v: Vec<[u8; 2]> = (0..10).map(|i| [(i % 5 + 2) as u8, 2]).collect();
    let next = NaiveNextPuyo::from_vec(v.clone());
    assert_eq!(next.len, 10);
    assert_eq!(next.value.to_vec(), v);
    let none = NaiveNextPuyo::new();
    assert_eq!(none.len, 0);
    assert_eq!(none.value, [[0u8; 2]; 10]);
}
