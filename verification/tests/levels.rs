use hrm::level::{
    append_numbers, append_string, append_zero_terminated_string, from_numbers, from_string,
    level_1, level_2, level_3, level_35, level_36, level_37, level_38, level_4, parse_mixed,
};
use hrm::machine::Tile;

fn letters(s: &str) -> Vec<Tile> {
    s.chars().map(Tile::Letter).collect()
}

fn numbers(ns: &[i16]) -> Vec<Tile> {
    ns.iter().map(|&n| Tile::num(n)).collect()
}

#[test]
fn builders_append_in_order() {
    let mut input = Vec::new();
    append_numbers(&mut input, &[4, -2]);
    append_string(&mut input, "ab");
    append_zero_terminated_string(&mut input, "c");
    assert_eq!(
        input,
        vec![
            Tile::num(4),
            Tile::num(-2),
            Tile::Letter('a'),
            Tile::Letter('b'),
            Tile::Letter('c'),
            Tile::num(0),
        ]
    );
}

#[test]
fn from_builders_match_append_builders() {
    assert_eq!(from_numbers(&[1, 2]), numbers(&[1, 2]));
    assert_eq!(from_string("hi"), letters("hi"));
}

#[test]
fn parse_mixed_reads_numbers_and_letters() {
    assert_eq!(
        parse_mixed("6,4,-1,7,ih"),
        vec![
            Tile::num(6),
            Tile::num(4),
            Tile::num(-1),
            Tile::num(7),
            Tile::Letter('i'),
            Tile::Letter('h'),
        ]
    );
}

#[test]
fn parse_mixed_accepts_a_plus_sign() {
    assert_eq!(parse_mixed("+5"), vec![Tile::num(5)]);
}

#[test]
fn parse_mixed_treats_an_overflowing_numeral_as_letters() {
    assert_eq!(parse_mixed("99999"), letters("99999"));
}

#[test]
fn parse_mixed_of_empty_parts_is_empty() {
    assert_eq!(parse_mixed(""), vec![]);
    assert_eq!(parse_mixed("5,,"), vec![Tile::num(5)]);
}

#[test]
fn level_1_fixture() {
    let (input, registers, output) = level_1();
    assert_eq!(input, numbers(&[1, 2, 3]));
    assert_eq!(registers.get(0), None);
    assert_eq!(output, input);
}

#[test]
fn level_2_fixture() {
    let (input, _, output) = level_2();
    assert_eq!(input, letters("initialize"));
    assert_eq!(output, input);
}

#[test]
fn level_3_fixture() {
    let (input, registers, output) = level_3();
    assert_eq!(input, numbers(&[-99, -99, -99, -99]));
    for (i, c) in "ujxgbe".chars().enumerate() {
        assert_eq!(registers.get(i as u8), Some(Tile::Letter(c)));
    }
    assert_eq!(registers.get(6), None);
    assert_eq!(output, letters("bug"));
}

#[test]
fn level_4_fixture() {
    let (input, _, output) = level_4();
    assert_eq!(input, parse_mixed("6,4,-1,7,ih"));
    assert_eq!(output, parse_mixed("4,6,7,-1,hi"));
}

#[test]
fn level_35_fixture() {
    let (input, registers, output) = level_35();
    assert_eq!(input, letters("eabedebaeb"));
    assert_eq!(registers.get(14), Some(Tile::num(0)));
    assert_eq!(output, letters("eabd"));
}

#[test]
fn level_36_fixture() {
    let (input, registers, output) = level_36();
    let mut expected = letters("aab");
    expected.push(Tile::num(0));
    expected.extend(letters("aaa"));
    expected.push(Tile::num(0));
    assert_eq!(input, expected);
    assert_eq!(registers.get(23), Some(Tile::num(0)));
    assert_eq!(registers.get(24), Some(Tile::num(10)));
    assert_eq!(output, letters("aaa"));
}

#[test]
fn level_37_fixture() {
    let (input, registers, output) = level_37();
    assert_eq!(input, numbers(&[0, 23]));
    for &(idx, c, v) in &[
        (0u8, 'e', 13i16),
        (3, 'c', 23),
        (10, 'p', 20),
        (13, 's', 3),
        (20, 'e', -1),
        (23, 'a', 10),
    ] {
        assert_eq!(registers.get(idx), Some(Tile::Letter(c)));
        assert_eq!(registers.get(idx + 1), Some(Tile::num(v)));
    }
    assert_eq!(output, letters("escapeape"));
}

#[test]
fn level_38_fixture() {
    let (input, registers, output) = level_38();
    assert_eq!(input, numbers(&[33, 505, 7, 979]));
    assert_eq!(registers.get(9), Some(Tile::num(0)));
    assert_eq!(registers.get(10), Some(Tile::num(10)));
    assert_eq!(registers.get(11), Some(Tile::num(100)));
    assert_eq!(output, numbers(&[3, 3, 5, 0, 5, 7, 9, 7, 9]));
}
