use nazopuyo::field::{
    chain as resolve_chain, color_of_char, decode_chars, get_top, has_chain, Field,
};
use nazopuyo::field1d::Field1D;
use nazopuyo::field_naive_bit::FieldNaiveBit;
use nazopuyo::memo::{fingerprint, same_cells, snapshot};
use nazopuyo::naive_field::{static_dispatch_chain, NaiveField};
use nazopuyo::replay::{replay, BoardOp};
use nazopuyo::sweep::{
    beside_flagged, clear_groups, collect_group, find_groups, flag_cells, neighbor,
};

const KENNY: [[u8; 13]; 6] = [
    [0u8, 5, 6, 5, 6, 3, 6, 6, 6, 5, 6, 6, 6],
    [0u8, 4, 4, 4, 3, 4, 3, 3, 5, 3, 5, 5, 5],
    [5u8, 4, 5, 5, 4, 5, 4, 4, 5, 4, 3, 3, 3],
    [6u8, 5, 6, 6, 5, 6, 5, 5, 4, 6, 4, 4, 4],
    [3u8, 6, 3, 3, 6, 3, 6, 6, 5, 4, 6, 6, 6],
    [3u8, 4, 3, 4, 4, 4, 3, 3, 4, 4, 5, 5, 5],
];

const SCATTERED: [[u8; 13]; 6] = [
    [1u8, 0, 2, 0, 0, 3, 0, 4, 0, 0, 5, 0, 6],
    [0u8, 0, 0, 0, 0, 0, 0, 0, 0, 0, 0, 0, 0],
    [7u8, 7, 7, 7, 7, 7, 7, 7, 7, 7, 7, 7, 7],
    [0u8, 0, 0, 0, 0, 0, 0, 0, 0, 0, 0, 0, 2],
    [2u8, 0, 0, 0, 0, 0, 0, 0, 0, 0, 0, 0, 0],
    [0u8, 3, 0, 3, 0, 3, 0, 3, 0, 3, 0, 3, 0],
];

fn column<F: Field>(field: &F, x: usize) -> Vec<u8> {
    (0..13).map(|y| field.get(y, x)).collect()
}

fn count_cells<F: Field>(field: &F) -> usize {
    (0..6).map(|x| column(field, x).iter().filter(|v| **v != 0).count()).sum()
}

fn check_gravity<F: Field + PartialEq + Copy + std::fmt::Debug>() {
    let start = F::from_u8(SCATTERED);
    let mut once = start;
    once.fall();
    let mut twice = once;
    twice.fall();
    assert_eq!(once, twice);
    for x in 0..6 {
        let before: Vec<u8> = column(&start, x).into_iter().filter(|v| *v != 0).collect();
        let after = column(&once, x);
        let blanks = 13 - before.len();
        assert!(after[..blanks].iter().all(|v| *v == 0));
        assert_eq!(&after[blanks..], &before[..]);
    }
    assert_eq!(column(&once, 0), vec![0, 0, 0, 0, 0, 0, 0, 1, 2, 3, 4, 5, 6]);
    assert_eq!(column(&once, 5), vec![0, 0, 0, 0, 0, 0, 0, 3, 3, 3, 3, 3, 3]);
}

#[test]
fn gravity_is_idempotent_and_keeps_each_column() {
    check_gravity::<NaiveField>();
    check_gravity::<Field1D>();
    check_gravity::<FieldNaiveBit>();
}

#[test]
fn a_settled_board_is_left_alone() {
    let mut field = NaiveField::new();
    field.set(12, 0, 2);
    field.set(12, 1, 2);
    field.set(11, 0, 2);
    field.set(12, 3, 1);
    field.set(5, 5, 4);
    let before = field;
    assert!(!has_chain(&field));
    assert_eq!(resolve_chain(&mut field), 0);
    assert_eq!(field, before);
}

#[test]
fn a_chain_never_adds_cells() {
    for grid in [KENNY, [[2u8; 13]; 6], SCATTERED] {
        let mut field = NaiveField::from_u8(grid);
        let before = count_cells(&field);
        let rounds = resolve_chain(&mut field);
        assert!(count_cells(&field) <= before);
        assert!(count_cells(&field) + 4 * rounds as usize <= before);
        assert!(!has_chain(&field));
        let rest = field;
        assert_eq!(resolve_chain(&mut field), 0);
        assert_eq!(field, rest);
    }
}

#[test]
fn a_pending_match_means_a_chain_of_at_least_one() {
    let mut three = NaiveField::new();
    three.set(12, 0, 2);
    three.set(12, 1, 2);
    three.set(11, 0, 2);
    let mut four = three;
    four.set(11, 1, 2);
    let mut hidden = three;
    // the fourth cell lies in the hidden row, which joins no group
    for y in 1..11 {
        hidden.set(y, 0, if y % 2 == 0 { 3 } else { 4 });
    }
    hidden.set(0, 0, 4);
    let mut obstacles = NaiveField::new();
    for x in 0..4 {
        obstacles.set(12, x, 1);
    }
    for mut field in [three, four, hidden, obstacles, NaiveField::from_u8(KENNY), NaiveField::new()] {
        let pending = has_chain(&field);
        assert_eq!(pending, resolve_chain(&mut field) >= 1);
    }
    assert!(has_chain(&four));
    assert!(!has_chain(&three));
    assert!(!has_chain(&obstacles));
}

#[test]
fn the_hidden_row_joins_no_group() {
    let mut field = NaiveField::new();
    field.set(0, 0, 2);
    field.set(1, 0, 2);
    field.set(2, 0, 2);
    field.set(3, 0, 2);
    assert!(!has_chain(&field));
    let before = field;
    assert_eq!(resolve_chain(&mut field), 0);
    assert_eq!(field, before);
    field.set(4, 0, 2);
    assert!(has_chain(&field));
    assert_eq!(resolve_chain(&mut field), 1);
    // the hidden row was not cleared: its cell fell to the floor
    let mut want = NaiveField::new();
    want.set(12, 0, 2);
    assert_eq!(field, want);
}

#[test]
fn obstacles_beside_a_cleared_cell_go_with_it() {
    let mut field = NaiveField::new();
    // a group of four in column 1, obstacles left, right, above, and one apart
    for y in 9..13 {
        field.set(y, 1, 3);
    }
    field.set(12, 0, 1);
    field.set(12, 2, 1);
    field.set(8, 1, 1);
    field.set(12, 3, 1);
    field.set(7, 1, 1);
    assert_eq!(resolve_chain(&mut field), 1);
    let mut want = NaiveField::new();
    want.set(12, 3, 1);
    want.set(12, 1, 1);
    assert_eq!(field, want);
}

#[test]
fn cascades_are_counted_round_by_round() {
    // clearing the column of fours lets the cell above it meet its like
    let mut field = NaiveField::new();
    for y in 9..13 {
        field.set(y, 0, 2);
    }
    field.set(8, 0, 3);
    for y in 10..13 {
        field.set(y, 1, 3);
    }
    let mut one = field;
    one.set(8, 0, 4);
    assert_eq!(resolve_chain(&mut field), 2);
    assert!(field.is_empty());
    assert_eq!(resolve_chain(&mut one), 1);
    assert_eq!(one.get(12, 0), 4);
    assert!(!one.is_empty());
}

#[test]
fn all_backends_agree_on_every_operation() {
    let mut ops = Vec::new();
    for x in 0..6 {
        for y in 0..13 {
            ops.push(BoardOp::Write { y, x, v: KENNY[x][y] });
        }
    }
    ops.push(BoardOp::Write { y: 0, x: 0, v: 7 });
    ops.push(BoardOp::Write { y: 5, x: 3, v: 0 });
    ops.push(BoardOp::Write { y: 6, x: 3, v: 0 });
    ops.push(BoardOp::Read { y: 5, x: 3 });
    ops.push(BoardOp::Read { y: 12, x: 5 });
    ops.push(BoardOp::Fall);
    for x in 0..6 {
        for y in 0..13 {
            ops.push(BoardOp::Read { y, x });
        }
    }
    let mut naive = NaiveField::new();
    let mut flat = Field1D::new();
    let mut packed = FieldNaiveBit::new();
    let a = replay(&mut naive, &ops);
    let b = replay(&mut flat, &ops);
    let c = replay(&mut packed, &ops);
    assert_eq!(a.len(), 80);
    assert_eq!(a[0], 0);
    assert_eq!(a[1], 5);
    // column 3 lost two cells: its hidden row is empty after the fall
    assert_eq!(a[2 + 3 * 13], 0);
    assert_eq!(a[2 + 3 * 13 + 1], 0);
    assert_eq!(a[2 + 3 * 13 + 2], 6);
    assert_eq!(a, b);
    assert_eq!(a, c);
    assert_eq!(snapshot(&naive), snapshot(&flat));
    assert_eq!(snapshot(&naive), snapshot(&packed));
    assert_eq!(naive.is_alive(), packed.is_alive());
    assert_eq!(naive.is_empty(), flat.is_empty());
    let n = resolve_chain(&mut naive);
    assert_eq!(n, resolve_chain(&mut flat));
    assert_eq!(n, resolve_chain(&mut packed));
    assert_eq!(snapshot(&naive), snapshot(&flat));
    assert_eq!(snapshot(&naive), snapshot(&packed));
}

#[test]
fn the_worked_example_has_nineteen_rounds_in_every_layout() {
    assert_eq!(resolve_chain(&mut Field1D::from_u8(KENNY)), 19);
    assert_eq!(resolve_chain(&mut FieldNaiveBit::from_u8(KENNY)), 19);
    assert_eq!(static_dispatch_chain(&mut NaiveField::from_u8(KENNY)), 19);
    assert_eq!(resolve_chain(&mut FieldNaiveBit::from_u8([[2u8; 13]; 6])), 2);
}

#[test]
fn empty_board_has_no_top_in_any_column() {
    let mut field = NaiveField::new();
    for x in 0..6 {
        assert_eq!(get_top(&field, x), None);
    }
    field.set(12, 0, 2);
    assert_eq!(get_top(&field, 0), Some(12));
    for x in 1..6 {
        assert_eq!(get_top(&field, x), None);
    }
}

#[test]
fn the_top_is_the_first_occupied_row_from_above() {
    for top in 0..13 {
        let mut field = FieldNaiveBit::new();
        for y in top..13 {
            field.set(y, 4, 3);
        }
        assert_eq!(get_top(&field, 4), Some(top));
    }
    // a cell that hangs in the air is still the top of its column
    let mut field = Field1D::new();
    field.set(5, 1, 2);
    assert_eq!(get_top(&field, 1), Some(5));
}

#[test]
fn characters_stand_for_colors() {
    assert_eq!(color_of_char('@'), 1);
    assert_eq!(color_of_char('r'), 2);
    assert_eq!(color_of_char('b'), 3);
    assert_eq!(color_of_char('g'), 4);
    assert_eq!(color_of_char('y'), 5);
    assert_eq!(color_of_char('p'), 6);
    assert_eq!(color_of_char(' '), 0);
    assert_eq!(color_of_char('x'), 0);
    let mut drawn = [[' '; 13]; 6];
    drawn[1][12] = 'r';
    drawn[1][11] = '@';
    drawn[4][0] = 'p';
    drawn[5][6] = '?';
    let mut want = [[0u8; 13]; 6];
    want[1][12] = 2;
    want[1][11] = 1;
    want[4][0] = 6;
    assert_eq!(decode_chars(&drawn), want);
    assert_eq!(NaiveField::from_char(drawn), NaiveField::from_u8(want));
    assert_eq!(snapshot(&Field1D::from_char(drawn)), want);
    assert_eq!(snapshot(&FieldNaiveBit::from_char(drawn)), want);
}

#[test]
fn boards_are_built_cell_by_cell() {
    assert_eq!(snapshot(&NaiveField::from_u8(KENNY)), KENNY);
    assert_eq!(snapshot(&Field1D::from_u8(KENNY)), KENNY);
    assert_eq!(snapshot(&FieldNaiveBit::from_u8(KENNY)), KENNY);
    assert_eq!(snapshot(&FieldNaiveBit::from_u8(SCATTERED)), SCATTERED);
    let packed = FieldNaiveBit::from_u8(SCATTERED).packed();
    assert_eq!(packed[1], 0);
    assert_eq!(packed[2], 0x7f_ffff_ffff);
    assert_eq!(packed[3], 2 << 36);
    assert_eq!(packed[4], 2);
    // bits above the thirteen cells are dropped
    assert_eq!(FieldNaiveBit::from_packed([u64::MAX; 6]).packed(), [0x7f_ffff_ffff; 6]);
    assert_eq!(FieldNaiveBit::from_packed(packed), FieldNaiveBit::from_u8(SCATTERED));
}

#[test]
fn empty_and_alive() {
    let mut field = FieldNaiveBit::new();
    assert!(field.is_empty());
    assert!(field.is_alive());
    field.set(0, 5, 1);
    assert!(!field.is_empty());
    assert!(field.is_alive());
    field.set(1, 2, 4);
    assert!(!field.is_alive());
    field.set(1, 2, 0);
    field.set(0, 5, 0);
    assert!(field.is_empty());
    let mut flat = Field1D::new();
    assert!(flat.is_empty() && flat.is_alive());
    flat.set(1, 2, 6);
    assert!(!flat.is_empty() && !flat.is_alive());
    let mut naive = NaiveField::new();
    assert!(naive.is_empty() && naive.is_alive());
    naive.set(12, 5, 1);
    assert!(!naive.is_empty() && naive.is_alive());
    naive.set(1, 2, 1);
    assert!(!naive.is_alive());
}

#[test]
fn neighbors_stay_in_play() {
    assert_eq!(neighbor(5, 2, 0), Some((5, 3)));
    assert_eq!(neighbor(5, 2, 1), Some((6, 2)));
    assert_eq!(neighbor(5, 2, 2), Some((5, 1)));
    assert_eq!(neighbor(5, 2, 3), Some((4, 2)));
    assert_eq!(neighbor(1, 0, 3), None);
    assert_eq!(neighbor(1, 0, 2), None);
    assert_eq!(neighbor(12, 5, 0), None);
    assert_eq!(neighbor(12, 5, 1), None);
    assert_eq!(neighbor(0, 2, 1), Some((1, 2)));
    assert_eq!(neighbor(0, 2, 0), None);
}

#[test]
fn a_group_is_collected_whole() {
    let mut field = NaiveField::new();
    for (y, x) in [(12, 0), (12, 1), (11, 1), (11, 2), (10, 2)] {
        field.set(y, x, 5);
    }
    field.set(12, 2, 4);
    field.set(9, 2, 4);
    let mut vis = [[false; 6]; 13];
    vis[11][1] = true;
    let mut cells = collect_group(&field, &mut vis, 11, 1, 5);
    cells.sort();
    assert_eq!(cells, vec![(10, 2), (11, 1), (11, 2), (12, 0), (12, 1)]);
    for y in 0..13 {
        for x in 0..6 {
            assert_eq!(vis[y][x], cells.contains(&(y, x)));
        }
    }
    let mut flags = [[false; 6]; 13];
    flags[3][3] = true;
    flag_cells(&mut flags, &cells);
    for y in 0..13 {
        for x in 0..6 {
            assert_eq!(flags[y][x], cells.contains(&(y, x)) || (y, x) == (3, 3));
        }
    }
    assert!(beside_flagged(&flags, 12, 2));
    assert!(beside_flagged(&flags, 9, 2));
    assert!(!beside_flagged(&flags, 8, 2));
    assert!(beside_flagged(&flags, 3, 2));
}

#[test]
fn groups_are_found_and_cleared() {
    let mut field = NaiveField::new();
    for x in 0..4 {
        field.set(12, x, 2);
    }
    field.set(12, 4, 1);
    field.set(11, 0, 3);
    field.set(11, 1, 3);
    field.set(11, 2, 3);
    let (found, flags) = find_groups(&field, false);
    assert!(found);
    for y in 0..13 {
        for x in 0..6 {
            assert_eq!(flags[y][x], y == 12 && x < 4);
        }
    }
    assert!(find_groups(&field, true).0);
    clear_groups(&mut field, &flags);
    let mut want = NaiveField::new();
    want.set(11, 0, 3);
    want.set(11, 1, 3);
    want.set(11, 2, 3);
    assert_eq!(field, want);
    let (found, flags) = find_groups(&field, false);
    assert!(!found);
    assert_eq!(flags, [[false; 6]; 13]);
}

#[test]
fn fingerprints_follow_the_cells() {
    let zero = [[0u8; 13]; 6];
    assert_eq!(fingerprint(&zero), 0);
    let mut last = zero;
    last[5][12] = 3;
    assert_eq!(fingerprint(&last), 3);
    let mut two = last;
    two[5][11] = 1;
    assert_eq!(fingerprint(&two), 10);
    assert!(same_cells(&two, &two));
    assert!(!same_cells(&two, &last));
    let mut first = zero;
    first[0][0] = 1;
    // 7^77 modulo 2^61 - 1
    let mut want: u128 = 1;
    for _ in 0..77 {
        want = want * 7 % 0x1fff_ffff_ffff_ffff;
    }
    assert_eq!(fingerprint(&first) as u128, want);
}
