//! Round-trip behaviour of the serialization bridge.

use lua::data::Data;
use lua::state::State;

fn rt(state: &mut State, d: Data) {
    let back = state.round_trip(&d).expect("round trip failed");
    assert_eq!(back, d);
}

#[test]
fn round_trip_scalars() {
    let mut state = State::new();
    rt(&mut state, Data::Nil);
    rt(&mut state, Data::Bool(true));
    rt(&mut state, Data::Bool(false));
    rt(&mut state, Data::Int(0));
    rt(&mut state, Data::Int(-1));
    rt(&mut state, Data::Int(i64::MAX));
    rt(&mut state, Data::Int(i64::MIN));
    rt(&mut state, Data::Float(2.5_f64.to_bits()));
    rt(&mut state, Data::Float(f64::NAN.to_bits()));
    rt(&mut state, Data::Str(b"hello".to_vec()));
    rt(&mut state, Data::Str(b"".to_vec()));
}

#[test]
fn round_trip_string_with_embedded_zeros() {
    let mut state = State::new();
    rt(&mut state, Data::Str(vec![0u8, 1, 0, 2, 0]));
}

#[test]
fn round_trip_sequences() {
    let mut state = State::new();
    rt(&mut state, Data::List(vec![]));
    rt(
        &mut state,
        Data::List(vec![Data::Int(6), Data::Int(28), Data::Int(496), Data::Int(8128)]),
    );
    rt(
        &mut state,
        Data::List(vec![
            Data::Bool(true),
            Data::Str(b"mixed".to_vec()),
            Data::Float(1.25_f64.to_bits()),
        ]),
    );
}

#[test]
fn round_trip_maps() {
    let mut state = State::new();
    rt(
        &mut state,
        Data::Dict(vec![
            (Data::Str(b"width".to_vec()), Data::Int(200)),
            (Data::Str(b"height".to_vec()), Data::Int(300)),
        ]),
    );
    // number keys are fine as long as they do not form the run 1..=n
    rt(&mut state, Data::Dict(vec![(Data::Int(2), Data::Str(b"two".to_vec()))]));
}

#[test]
fn round_trip_nested() {
    let mut state = State::new();
    rt(
        &mut state,
        Data::Dict(vec![
            (
                Data::Str(b"rows".to_vec()),
                Data::List(vec![
                    Data::List(vec![Data::Int(1), Data::Int(2)]),
                    Data::List(vec![Data::Int(3), Data::Int(4)]),
                ]),
            ),
            (
                Data::Str(b"meta".to_vec()),
                Data::Dict(vec![(Data::Str(b"name".to_vec()), Data::Str(b"grid".to_vec()))]),
            ),
        ]),
    );
}

#[test]
fn round_trip_map_with_table_key() {
    let mut state = State::new();
    rt(
        &mut state,
        Data::Dict(vec![(
            Data::List(vec![Data::Int(1)]),
            Data::Str(b"keyed by a table".to_vec()),
        )]),
    );
}

#[test]
fn map_that_looks_like_a_sequence_reads_back_as_one() {
    // a map whose keys are exactly 1..=n is indistinguishable from a
    // sequence inside the machine; it deliberately reads back as one
    let mut state = State::new();
    let d = Data::Dict(vec![(Data::Int(1), Data::Str(b"a".to_vec()))]);
    let back = state.round_trip(&d).expect("round trip failed");
    assert_eq!(back, Data::List(vec![Data::Str(b"a".to_vec())]));
}

#[test]
fn stack_is_left_as_found() {
    let mut state = State::new();
    assert_eq!(state.top(), 0);
    rt(&mut state, Data::List(vec![Data::Int(7)]));
    assert_eq!(state.top(), 0);
    state.push_integer(99);
    rt(&mut state, Data::Str(b"x".to_vec()));
    assert_eq!(state.top(), 1);
    assert_eq!(state.to_integer(-1), Some(99));
}
