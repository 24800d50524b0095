use nazopuyo::field::{self, get_top, Field};
use nazopuyo::naive_field::NaiveField;

#[test]
fn fall() {
    let mut field = NaiveField::new();
    field.set(0, 0, 1);
    field.set(3, 0, 2);
    field.set(4, 0, 3);
    field.fall();
    let mut req_field = NaiveField::new();
    req_field.set(10, 0, 1);
    req_field.set(11, 0, 2);
    req_field.set(12, 0, 3);

    assert_eq!(field, req_field);
}

#[test]
fn chain() {
    let kenny = [
        [0u8, 5, 6, 5, 6, 3, 6, 6, 6, 5, 6, 6, 6],
        [0u8, 4, 4, 4, 3, 4, 3, 3, 5, 3, 5, 5, 5],
        [5u8, 4, 5, 5, 4, 5, 4, 4, 5, 4, 3, 3, 3],
        [6u8, 5, 6, 6, 5, 6, 5, 5, 4, 6, 4, 4, 4],
        [3u8, 6, 3, 3, 6, 3, 6, 6, 5, 4, 6, 6, 6],
        [3u8, 4, 3, 4, 4, 4, 3, 3, 4, 4, 5, 5, 5],
    ];
    let mut field = NaiveField::from_u8(kenny);
    assert_eq!(field::chain(&mut field), 19);
}

#[test]
fn chain_with_gohst() {
    let full = [
        [2u8, 2, 2, 2, 2, 2, 2, 2, 2, 2, 2, 2, 2],
        [2u8, 2, 2, 2, 2, 2, 2, 2, 2, 2, 2, 2, 2],
        [2u8, 2, 2, 2, 2, 2, 2, 2, 2, 2, 2, 2, 2],
        [2u8, 2, 2, 2, 2, 2, 2, 2, 2, 2, 2, 2, 2],
        [2u8, 2, 2, 2, 2, 2, 2, 2, 2, 2, 2, 2, 2],
        [2u8, 2, 2, 2, 2, 2, 2, 2, 2, 2, 2, 2, 2],
    ];
    let mut field = NaiveField::from_u8(full);
    assert_eq!(field::chain(&mut field), 2);
}

#[test]
fn get_top_test() {
    let mut field = NaiveField::new();
    assert_eq!(get_top(&field, 0), None);
    field.set(12, 0, 1);
    assert_eq!(get_top(&field, 0).unwrap(), 12);
    field.set(11, 0, 1);
    field.set(10, 0, 1);
    assert_eq!(get_top(&field, 0).unwrap(), 10);
}

#[test]
fn chain_with_ojama() {
    let mut field = NaiveField::new();
    field.set(12, 0, 1);
    field.set(12, 1, 2);
    field.set(12, 2, 2);
    field.set(11, 0, 1);
    field.set(11, 1, 2);
    field.set(11, 2, 2);
    field::chain(&mut field);
    assert_eq!(field, NaiveField::new());
}
