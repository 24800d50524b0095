use nazopuyo::field::Field;
use nazopuyo::field_naive_bit::FieldNaiveBit;

#[test]
fn get_test() {
    let field = FieldNaiveBit::from_packed([
        0b_100_011_010_001_000_111_110_101_100_011_010_001_000,
        0,
        0,
        0,
        0,
        0,
    ]);
    println!("{}", field.packed()[0]);
    assert_eq!(field.get(0, 0), 0);
    assert_eq!(field.get(1, 0), 1);
    assert_eq!(field.get(2, 0), 2);
    assert_eq!(field.get(3, 0), 3);
    assert_eq!(field.get(4, 0), 4);
    assert_eq!(field.get(5, 0), 5);
    assert_eq!(field.get(6, 0), 6);
    assert_eq!(field.get(7, 0), 7);
    assert_eq!(field.get(8, 0), 0);
    assert_eq!(field.get(9, 0), 1);
    assert_eq!(field.get(10, 0), 2);
    assert_eq!(field.get(11, 0), 3);
    assert_eq!(field.get(12, 0), 4);
}

#[test]
fn set_test() {
    let mut field = FieldNaiveBit::new();
    for i in 0..13 {
        field.set(i, 0, (i % 8) as u8);
    }
    println!("{}", field.packed()[0]);
    assert_eq!(field.get(0, 0), 0);
    assert_eq!(field.get(1, 0), 1);
    assert_eq!(field.get(2, 0), 2);
    assert_eq!(field.get(3, 0), 3);
    assert_eq!(field.get(4, 0), 4);
    assert_eq!(field.get(5, 0), 5);
    assert_eq!(field.get(6, 0), 6);
    assert_eq!(field.get(7, 0), 7);
    assert_eq!(field.get(8, 0), 0);
    assert_eq!(field.get(9, 0), 1);
    assert_eq!(field.get(10, 0), 2);
    assert_eq!(field.get(11, 0), 3);
    assert_eq!(field.get(12, 0), 4);
}

#[test]
fn fall_test() {
    let mut field = FieldNaiveBit::from_packed([
        0b_100_011_010_001_000_111_110_101_100_011_010_001_000,
        0,
        0,
        0,
        0,
        0,
    ]);
    let expected = 0b_100_011_010_001_111_110_101_100_011_010_001_000_000_u64;
    field.fall();
    println!("{:b}", field.packed()[0]);
    println!("{:b}", expected);
    assert_eq!(field.packed()[0], expected);

    let mut field = FieldNaiveBit::from_packed([
        0b_000_011_010_001_000_111_110_101_100_011_010_001_000,
        0,
        0,
        0,
        0,
        0,
    ]);
    let expected = 0b_011_010_001_111_110_101_100_011_010_001_000_000_000_u64;
    field.fall();
    println!("{:b}", field.packed()[0]);
    println!("{:b}", expected);
    assert_eq!(field.packed()[0], expected);
}
