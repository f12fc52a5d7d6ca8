// Basic surface tests: the crate links, errors describe themselves, and the
// input mapper flattens as documented.

use zkenc::errors::Error;
use zkenc::field::{fe_eq, fe_from_u64};
use zkenc::inputs::{parse_circuit_inputs, parse_u64_dec, InputValue};

#[test]
fn smoke_build_only() {
    // The crate can be linked and basic symbols are available.
    assert!(true);
}

#[test]
fn test_basic() {
    assert!(true);
}

#[test]
fn test_error_display() {
    let err = Error::InvalidWitness;
    assert!(err.describe().contains("Invalid witness"));
}

#[test]
fn test_parse_simple_inputs() {
    // { "a": 5, "b": [1, 2, 3], "c": "42" } flattens, in name order, to
    // 5, 1, 2, 3, 42.
    let entries = vec![
        (b"b".to_vec(), InputValue::List(vec![
            InputValue::Uint(1),
            InputValue::Uint(2),
            InputValue::Uint(3),
        ])),
        (b"c".to_vec(), InputValue::Text(b"42".to_vec())),
        (b"a".to_vec(), InputValue::Uint(5)),
    ];
    let inputs = parse_circuit_inputs(entries).unwrap();
    assert_eq!(inputs.len(), 5);
    assert!(fe_eq(&inputs[0], &fe_from_u64(5)));
    assert!(fe_eq(&inputs[1], &fe_from_u64(1)));
    assert!(fe_eq(&inputs[2], &fe_from_u64(2)));
    assert!(fe_eq(&inputs[3], &fe_from_u64(3)));
    assert!(fe_eq(&inputs[4], &fe_from_u64(42)));
}

#[test]
fn negative_input_is_unsupported() {
    let entries = vec![(b"x".to_vec(), InputValue::Negative)];
    assert_eq!(parse_circuit_inputs(entries).err(), Some(Error::UnsupportedValue));
}

#[test]
fn bool_null_and_object_shapes() {
    let entries = vec![
        (b"a".to_vec(), InputValue::Flag(true)),
        (b"b".to_vec(), InputValue::Flag(false)),
        (b"c".to_vec(), InputValue::Null),
        (b"d".to_vec(), InputValue::Nested),
    ];
    let inputs = parse_circuit_inputs(entries).unwrap();
    assert_eq!(inputs.len(), 3);
    assert!(fe_eq(&inputs[0], &fe_from_u64(1)));
    assert!(fe_eq(&inputs[1], &fe_from_u64(0)));
    assert!(fe_eq(&inputs[2], &fe_from_u64(0)));
}

#[test]
fn decimal_string_parsing() {
    assert_eq!(parse_u64_dec(&b"0".to_vec()), Some(0));
    assert_eq!(parse_u64_dec(&b"18446744073709551615".to_vec()), Some(u64::MAX));
    assert_eq!(parse_u64_dec(&b"18446744073709551616".to_vec()), None);
    assert_eq!(parse_u64_dec(&b"".to_vec()), None);
    assert_eq!(parse_u64_dec(&b"12x".to_vec()), None);
}

#[test]
fn sym_table_lookup_and_inputs() {
    let content = b"1,1,172,main.root\n2,2,172,main.message\n3,-1,172,main.hidden\nbad line\n".to_vec();
    let table = zkenc::sym::parse_sym_file(&content).unwrap();
    assert_eq!(table.lookup(&b"main.root".to_vec()), Some(1));
    assert_eq!(table.lookup(&b"main.message".to_vec()), Some(2));
    assert_eq!(table.lookup(&b"main.hidden".to_vec()), None);
    let ins = zkenc::sym::get_input_signals(&table, None);
    assert_eq!(ins.lookup(&b"root".to_vec()), Some(1));
    assert_eq!(ins.lookup(&b"message".to_vec()), Some(2));
    let bounded = zkenc::sym::get_input_signals(&table, Some(1));
    assert_eq!(bounded.lookup(&b"message".to_vec()), None);
}

#[test]
fn sym_bad_wire_field_is_refused() {
    // A four-field line whose wire field is not an integer fails the
    // parse; lines with more or fewer fields are merely skipped.
    let bad = b"1,x,0,main.a\n".to_vec();
    assert_eq!(
        zkenc::sym::parse_sym_file(&bad).err(),
        Some(zkenc::errors::Error::UnsupportedValue)
    );
    let odd = b"only,three,fields\na,b,c,d,e\n".to_vec();
    let t = zkenc::sym::parse_sym_file(&odd).unwrap();
    assert_eq!(t.entries.len(), 0);
    // Whitespace around fields is trimmed; negative wires are internal.
    let ws = b"1, 7 ,0, main.x \n2,-1,0,main.y\n".to_vec();
    let t = zkenc::sym::parse_sym_file(&ws).unwrap();
    assert_eq!(t.lookup(&b"main.x".to_vec()), Some(7));
    assert_eq!(t.lookup(&b"main.y".to_vec()), None);
}

#[test]
fn sym_ordering_of_inputs() {
    let content = b"1,2,0,main.second\n2,1,0,main.first\n".to_vec();
    let table = zkenc::sym::parse_sym_file(&content).unwrap();
    let entries = vec![
        (b"main.second".to_vec(), InputValue::Uint(20)),
        (b"main.first".to_vec(), InputValue::Uint(10)),
    ];
    let vals = zkenc::inputs::map_inputs_with_sym(&entries, &table).unwrap();
    assert_eq!(vals.len(), 2);
    assert!(fe_eq(&vals[0], &fe_from_u64(10)));
    assert!(fe_eq(&vals[1], &fe_from_u64(20)));
}
