//! The documented scenarios: variant encodings, numeric narrowing, map
//! filtering and globals.

use lua::data::Data;
use lua::state::State;
use lua::error::ErrorKind;
use lua::globals::Globals;
use lua::value::{LUA_TNUMBER, LUA_TSTRING, LUA_TTABLE};

#[test]
fn narrowing_failure_not_wrapping() {
    // deserializing the machine integer 300 into a u8 target must fail
    // with a numeric error rather than wrap to 44
    let mut state = State::new();
    state.serialize_i64(300).unwrap();
    let r = state.parse_u8();
    assert!(r.is_err());
    assert_eq!(r.unwrap_err().kind(), ErrorKind::InvalidData);
    assert_eq!(state.parse_i64(), Some(300));
    state.pop(1);
}

#[test]
fn narrowing_in_range() {
    let mut state = State::new();
    state.serialize_i64(200).unwrap();
    assert_eq!(state.parse_u8().unwrap(), 200);
    assert_eq!(state.parse_u16().unwrap(), 200);
    assert_eq!(state.parse_i8().is_err(), true);
    state.pop(1);
}

#[test]
fn map_filtering_skips_function_entries() {
    // a machine table holding one function-typed value alongside two
    // string-keyed numbers reads back as a map of only the two numbers
    let mut state = State::new();
    state.new_table();
    state.push_string(b"width");
    state.push_integer(200);
    state.set_table(-3).unwrap();
    state.push_string(b"height");
    state.push_integer(300);
    state.set_table(-3).unwrap();
    state.push_string(b"callback");
    state.push_function(7);
    state.set_table(-3).unwrap();

    let back = state.pull_data(4).unwrap();
    state.pop(1);
    assert_eq!(
        back,
        Data::Dict(vec![
            (Data::Str(b"width".to_vec()), Data::Int(200)),
            (Data::Str(b"height".to_vec()), Data::Int(300)),
        ])
    );
}

#[test]
fn sequence_skips_non_transcodable_elements() {
    let mut state = State::new();
    state.new_table();
    state.push_integer(10);
    state.seti(-2, 1).unwrap();
    state.push_function(3);
    state.seti(-2, 2).unwrap();
    state.push_integer(30);
    state.seti(-2, 3).unwrap();

    let back = state.pull_data(4).unwrap();
    state.pop(1);
    assert_eq!(back, Data::List(vec![Data::Int(10), Data::Int(30)]));
}

#[test]
fn tuple_variant_circle() {
    // Shape::Circle(3) serializes to { Circle = { 1 = 3 } } and reads
    // back as the same variant
    let mut state = State::new();
    let mut tvs = state.serialize_tuple_variant(b"Circle", 1).unwrap();
    tvs.serialize_field(&mut state, &Data::Int(3)).unwrap();
    tvs.end(&mut state).unwrap();

    // the machine value has the exact documented shape
    assert_eq!(state.value_type(-1), LUA_TTABLE);
    state.get_field(-1, b"Circle").unwrap();
    assert_eq!(state.value_type(-1), LUA_TTABLE);
    state.geti(-1, 1).unwrap();
    assert_eq!(state.value_type(-1), LUA_TNUMBER);
    assert_eq!(state.to_integer(-1), Some(3));
    state.pop(2);

    // reading it back as a variant reproduces Circle(3)
    let (name, payload) = state.pull_variant(4).unwrap();
    assert_eq!(name, b"Circle".to_vec());
    assert_eq!(payload, Some(Data::List(vec![Data::Int(3)])));
    state.pop(1);
    assert_eq!(state.top(), 0);
}

#[test]
fn unit_variant_is_its_name() {
    let mut state = State::new();
    state.serialize_unit_variant(b"Idle").unwrap();
    assert_eq!(state.value_type(-1), LUA_TSTRING);
    let (name, payload) = state.pull_variant(4).unwrap();
    assert_eq!(name, b"Idle".to_vec());
    assert_eq!(payload, None);
    state.pop(1);
}

#[test]
fn newtype_variant_wraps_inner_value() {
    let mut state = State::new();
    state.serialize_newtype_variant(b"Meters", &Data::Int(1500)).unwrap();
    let (name, payload) = state.pull_variant(4).unwrap();
    assert_eq!(name, b"Meters".to_vec());
    assert_eq!(payload, Some(Data::Int(1500)));
    state.pop(1);
}

#[test]
fn struct_variant_named_fields() {
    let mut state = State::new();
    let mut tvs = state.serialize_struct_variant(b"Rect", 2).unwrap();
    tvs.serialize_member(&mut state, b"w", &Data::Int(4)).unwrap();
    tvs.serialize_member(&mut state, b"h", &Data::Int(5)).unwrap();
    tvs.end(&mut state).unwrap();

    let (name, payload) = state.pull_variant(4).unwrap();
    assert_eq!(name, b"Rect".to_vec());
    assert_eq!(
        payload,
        Some(Data::Dict(vec![
            (Data::Str(b"w".to_vec()), Data::Int(4)),
            (Data::Str(b"h".to_vec()), Data::Int(5)),
        ]))
    );
    state.pop(1);
}

#[test]
fn globals_width_field_reads_back() {
    // serialize { width = 200 } into a fresh map, assign it to a
    // global, and index the width field: 200 comes back
    let mut state = State::new();
    state
        .push_data(&Data::Dict(vec![(Data::Str(b"width".to_vec()), Data::Int(200))]))
        .unwrap();
    state.set_global(b"size").unwrap();

    state.get_global(b"size").unwrap();
    assert_eq!(state.value_type(-1), LUA_TTABLE);
    state.get_field(-1, b"width").unwrap();
    assert_eq!(state.to_integer(-1), Some(200));
    state.pop(2);
    assert_eq!(state.top(), 0);
}

#[test]
fn globals_typed_set_and_get() {
    let mut globals = Globals::new(State::new());
    globals
        .set(
            b"size",
            &Data::Dict(vec![
                (Data::Str(b"width".to_vec()), Data::Int(200)),
                (Data::Str(b"height".to_vec()), Data::Int(300)),
            ]),
        )
        .unwrap();
    let back = globals.get(b"size", 4).unwrap();
    assert_eq!(
        back,
        Data::Dict(vec![
            (Data::Str(b"width".to_vec()), Data::Int(200)),
            (Data::Str(b"height".to_vec()), Data::Int(300)),
        ])
    );
    let missing = globals.get(b"nothing", 4).unwrap();
    assert_eq!(missing, Data::Nil);
}

#[test]
fn global_name_with_embedded_nul_is_invalid_input() {
    let mut globals = Globals::new(State::new());
    let r = globals.set(b"bad\0name", &Data::Int(1));
    assert_eq!(r.unwrap_err().kind(), ErrorKind::InvalidInput);
    let r = globals.get(b"bad\0name", 4);
    assert_eq!(r.unwrap_err().kind(), ErrorKind::InvalidInput);
}

#[test]
fn u64_out_of_range_is_custom_error() {
    let mut state = State::new();
    let r = state.serialize_u64(u64::MAX);
    assert_eq!(r.unwrap_err().kind(), ErrorKind::Custom);
    assert_eq!(state.top(), 0);
    state.serialize_u64(42).unwrap();
    assert_eq!(state.to_integer(-1), Some(42));
    state.pop(1);
}

#[test]
fn depth_limit_is_an_error_not_a_wrong_answer() {
    let mut state = State::new();
    state.push_data(&Data::List(vec![Data::List(vec![Data::Int(1)])])).unwrap();
    // not enough lookahead for the nested table
    let r = state.pull_data(1);
    assert_eq!(r.unwrap_err().kind(), ErrorKind::Custom);
    // enough lookahead succeeds
    let back = state.pull_data(2).unwrap();
    assert_eq!(back, Data::List(vec![Data::List(vec![Data::Int(1)])]));
    state.pop(1);
}

#[test]
fn non_transcodable_top_value_is_an_error() {
    let mut state = State::new();
    state.push_function(1);
    let r = state.pull_data(4);
    assert_eq!(r.unwrap_err().kind(), ErrorKind::Custom);
    state.pop(1);
}

#[test]
fn variant_table_with_two_entries_is_rejected() {
    let mut state = State::new();
    state.push_data(&Data::Dict(vec![
        (Data::Str(b"A".to_vec()), Data::Int(1)),
        (Data::Str(b"B".to_vec()), Data::Int(2)),
    ]))
    .unwrap();
    let r = state.pull_variant(4);
    assert_eq!(r.unwrap_err().kind(), ErrorKind::InvalidData);
    state.pop(1);
}

#[test]
fn declared_map_expectation_resolves_ambiguous_tables() {
    // a table whose keys are exactly 1..=n — or an empty table — is
    // shape-ambiguous; a caller that declares a map expectation reads
    // it as the integer-keyed map it is
    let mut state = State::new();
    state.new_table();
    let empty = state.pull_map_data(4).unwrap();
    assert_eq!(empty, Data::Dict(vec![]));
    state.push_integer(10);
    state.seti(-2, 1).unwrap();
    let one = state.pull_map_data(4).unwrap();
    assert_eq!(one, Data::Dict(vec![(Data::Int(1), Data::Int(10))]));
    // the undeclared reading of the same table is a sequence
    let any = state.pull_data(4).unwrap();
    assert_eq!(any, Data::List(vec![Data::Int(10)]));
    state.pop(1);
}

#[test]
fn declared_seq_expectation_reads_the_border_run() {
    // a sequence expectation on a mixed table reads positions 1.. up to
    // the border and ignores the other entries
    let mut state = State::new();
    state.new_table();
    state.push_integer(10);
    state.seti(-2, 1).unwrap();
    state.push_integer(20);
    state.seti(-2, 2).unwrap();
    state.push_string(b"name");
    state.push_string(b"grid");
    state.set_table(-3).unwrap();
    let run = state.pull_seq_data(4).unwrap();
    assert_eq!(run, Data::List(vec![Data::Int(10), Data::Int(20)]));
    let any = state.pull_data(4).unwrap();
    assert_eq!(
        any,
        Data::Dict(vec![
            (Data::Int(1), Data::Int(10)),
            (Data::Int(2), Data::Int(20)),
            (Data::Str(b"name".to_vec()), Data::Str(b"grid".to_vec())),
        ])
    );
    state.pop(1);
}

#[test]
fn declared_expectation_on_a_non_table_is_invalid_data() {
    let mut state = State::new();
    state.push_integer(5);
    assert_eq!(state.pull_map_data(4).unwrap_err().kind(), ErrorKind::InvalidData);
    assert_eq!(state.pull_seq_data(4).unwrap_err().kind(), ErrorKind::InvalidData);
    state.pop(1);
}
