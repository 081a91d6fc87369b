//! The raw operation set: stack discipline, tables, the registry and
//! the reference arena.

use lua::data::Data;
use lua::error::ErrorKind;
use lua::guard::StackGuard;
use lua::lref::LRef;
use lua::memory::MemoryInfo;
use lua::stack::{Mode, Stack};
use lua::state::{State, LUA_NOREF, LUA_REFNIL};
use lua::value::{LUA_TNIL, LUA_TNONE, LUA_TNUMBER, LUA_TSTRING};

#[test]
fn stack_basics() {
    let mut stack = Stack::new();
    assert!(stack.is_empty());
    stack.push(&1989_i32).unwrap();
    assert_eq!(1, stack.len());
    let v: i32 = stack.get().unwrap();
    assert_eq!(v, 1989);
    assert_eq!(1, stack.len());
}

#[test]
fn push_slice_and_pull() {
    let mut stack = Stack::new();
    assert!(stack.is_empty());
    let numbers: [i32; 4] = [6, 28, 496, 8128];
    stack.push_slice(&numbers).unwrap();
    assert_eq!(4, stack.len());
    let v: i32 = stack.pull(-2).unwrap();
    assert_eq!(496, v);
    assert_eq!(4, stack.len());
    let v: i32 = stack.pull(1).unwrap();
    assert_eq!(6, v);
}

#[test]
fn resize_and_truncate() {
    let mut stack = Stack::new();
    stack.resize(10);
    assert_eq!(10, stack.len());
    assert_eq!(stack.value_type(5), LUA_TNIL);
    stack.truncate(2);
    assert_eq!(2, stack.len());
    stack.truncate(5);
    assert_eq!(2, stack.len());
    stack.pop_unchecked(2);
    assert!(stack.is_empty());
}

#[test]
fn stack_positions_and_copies() {
    let mut state = State::new();
    state.push_integer(1);
    state.push_integer(2);
    state.push_integer(3);
    state.push_value(1);
    assert_eq!(state.to_integer(-1), Some(1));
    state.replace(2);
    assert_eq!(state.to_integer(2), Some(1));
    state.remove(2);
    assert_eq!(state.top(), 2);
    state.copy(1, 2);
    assert_eq!(state.to_integer(2), Some(1));
    state.insert(1);
    assert_eq!(state.to_integer(1), Some(1));
    state.pop(2);
}

#[test]
fn value_queries() {
    let mut state = State::new();
    assert_eq!(state.value_type(1), LUA_TNONE);
    state.push_string(b"abc");
    assert_eq!(state.value_type(-1), LUA_TSTRING);
    assert_eq!(state.as_bytes(-1).unwrap(), b"abc".to_vec());
    assert_eq!(state.raw_len(-1), 3);
    assert!(state.to_boolean(-1));
    state.push_nil();
    assert!(!state.to_boolean(-1));
    state.push_boolean(false);
    assert!(!state.to_boolean(-1));
    state.push_number_bits(1.5_f64.to_bits());
    assert_eq!(state.value_type(-1), LUA_TNUMBER);
    assert_eq!(state.to_number_bits(-1), Some(1.5_f64.to_bits()));
    assert_eq!(state.to_integer(-1), None);
    state.pop(4);
}

#[test]
fn tables_and_borders() {
    let mut state = State::new();
    state.create_table(3, 0);
    state.push_integer(10);
    state.seti(-2, 1).unwrap();
    state.push_integer(20);
    state.seti(-2, 2).unwrap();
    assert_eq!(state.raw_len(-1), 2);
    state.push_integer(40);
    state.seti(-2, 4).unwrap();
    // the border stops at the first missing position
    assert_eq!(state.raw_len(-1), 2);
    state.geti(-1, 2).unwrap();
    assert_eq!(state.to_integer(-1), Some(20));
    state.pop(1);
    // writing nil removes an entry
    state.push_nil();
    state.seti(-2, 2).unwrap();
    assert_eq!(state.raw_len(-1), 1);
    state.geti(-1, 2).unwrap();
    assert_eq!(state.value_type(-1), LUA_TNIL);
    state.pop(2);
}

#[test]
fn table_errors() {
    let mut state = State::new();
    state.push_integer(5);
    let r = state.geti(-1, 1);
    assert_eq!(r.unwrap_err().kind(), ErrorKind::InvalidData);
    state.new_table();
    let r = state.get_field(-1, b"with\0nul");
    assert_eq!(r.unwrap_err().kind(), ErrorKind::InvalidInput);
    // a nil key cannot be written
    state.push_nil();
    state.push_integer(1);
    let r = state.set_table(-3);
    assert_eq!(r.unwrap_err().kind(), ErrorKind::InvalidData);
    state.pop(4);
}

#[test]
fn next_walks_entries_in_storage_order() {
    let mut state = State::new();
    state.new_table();
    state.push_string(b"a");
    state.push_integer(1);
    state.set_table(-3).unwrap();
    state.push_string(b"b");
    state.push_integer(2);
    state.set_table(-3).unwrap();

    state.push_nil();
    assert!(state.next(-2).unwrap());
    assert_eq!(state.as_bytes(-2).unwrap(), b"a".to_vec());
    assert_eq!(state.to_integer(-1), Some(1));
    state.pop(1);
    assert!(state.next(-2).unwrap());
    assert_eq!(state.as_bytes(-2).unwrap(), b"b".to_vec());
    state.pop(1);
    assert!(!state.next(-2).unwrap());
    state.pop(1);
}

#[test]
fn arena_register_get_take() {
    let mut state = State::new();
    state.push_string(b"pinned");
    let mut lref = LRef::register(&mut state).unwrap();
    assert_eq!(state.top(), 0);
    // intervening traffic does not disturb the reference
    state.push_integer(1);
    state.push_integer(2);
    lref.get(&mut state);
    assert_eq!(state.as_bytes(-1).unwrap(), b"pinned".to_vec());
    state.pop(3);
    let old = lref.take(&mut state);
    assert!(old >= 1);
    assert_eq!(state.as_bytes(-1).unwrap(), b"pinned".to_vec());
    state.pop(1);
    // the reference is now empty: reading it again is a programming
    // error that the contracts rule out
    assert_eq!(lref.slot(), LUA_NOREF);
}

#[test]
fn arena_replace_swaps_the_slot() {
    let mut state = State::new();
    state.push_integer(1);
    let mut lref = LRef::register(&mut state).unwrap();
    state.push_integer(2);
    let old = lref.replace(&mut state).unwrap();
    assert!(old >= 1);
    lref.get(&mut state);
    assert_eq!(state.to_integer(-1), Some(2));
    state.pop(1);
    lref.release(&mut state);
}

#[test]
fn arena_registering_nil_takes_no_slot() {
    let mut state = State::new();
    state.push_nil();
    let lref = LRef::register(&mut state).unwrap();
    assert_eq!(lref.slot(), LUA_REFNIL);
    // a reference to a registered nil is not empty: it reads back as nil
    lref.get(&mut state);
    assert_eq!(state.value_type(-1), LUA_TNIL);
    state.pop(1);
}

#[test]
fn arena_slots_are_reused_after_release() {
    // registering N values and releasing all N leaves the registry
    // where it started: the same slots come back
    let mut state = State::new();
    let mut first: Vec<i32> = Vec::new();
    let mut refs: Vec<LRef> = Vec::new();
    for i in 0..3_i64 {
        state.push_integer(i);
        let r = LRef::register(&mut state).unwrap();
        first.push(r.slot());
        refs.push(r);
    }
    for mut r in refs {
        r.release(&mut state);
    }
    let mut second: Vec<i32> = Vec::new();
    let mut refs2: Vec<LRef> = Vec::new();
    for i in 0..3_i64 {
        state.push_integer(i + 100);
        let r = LRef::register(&mut state).unwrap();
        second.push(r.slot());
        refs2.push(r);
    }
    let mut sorted_first = first.clone();
    sorted_first.sort();
    let mut sorted_second = second.clone();
    sorted_second.sort();
    assert_eq!(sorted_first, sorted_second);
    for mut r in refs2 {
        r.release(&mut state);
    }
}

#[test]
fn guard_restores_the_watermark() {
    let mut state = State::new();
    state.push_integer(1);
    let guard = StackGuard::new(&state);
    assert_eq!(guard.mark(), 1);
    state.push_integer(2);
    state.push_integer(3);
    guard.close(&mut state);
    assert_eq!(state.top(), 1);
    state.pop(1);
}

#[test]
fn memory_accounting_decisions() {
    let mut info = MemoryInfo::new(100);
    assert!(info.on_alloc(0, 60));
    assert_eq!(info.used, 60);
    // growing past the limit is refused and changes nothing
    assert!(!info.on_alloc(0, 50));
    assert_eq!(info.used, 60);
    // shrinking is always allowed
    assert!(info.on_alloc(60, 10));
    assert_eq!(info.used, 10);
    info.on_free(10);
    assert_eq!(info.used, 0);
    // no limit means any size goes
    let mut unlimited = MemoryInfo::new(0);
    assert!(unlimited.on_alloc(0, 1_000_000));
}

#[test]
fn chunk_modes() {
    assert_eq!(Mode::Text.as_str(), "t");
    assert_eq!(Mode::Binary.as_str(), "b");
    assert_eq!(Mode::Undefined.as_str(), "bt");
    assert_eq!(Mode::default(), Mode::Undefined);
}

#[test]
fn error_kind_names() {
    assert_eq!(ErrorKind::InvalidInput.as_str(), "invalid input");
    assert_eq!(ErrorKind::InvalidData.as_str(), "invalid data");
    assert_eq!(ErrorKind::Custom.as_str(), "custom error");
    assert_eq!(ErrorKind::StackOverflow.as_str(), "stack overflow");
}

#[test]
fn typed_pop() {
    let mut stack = Stack::new();
    stack.push(&true).unwrap();
    stack.push(&7_i64).unwrap();
    let n: i64 = stack.pop().unwrap();
    assert_eq!(n, 7);
    let b: bool = stack.pop().unwrap();
    assert!(b);
    assert!(stack.is_empty());
}

#[test]
fn dump_reports_every_element() {
    let mut state = State::new();
    state.push_integer(1);
    state.push_string(b"two");
    state.push_nil();
    let dump = state.dump();
    assert_eq!(dump.len(), 3);
    assert_eq!(dump[0].index(), 1);
    assert_eq!(dump[0].type_code(), LUA_TNUMBER);
    assert_eq!(dump[0].kind_name(), "number");
    assert_eq!(dump[1].kind_name(), "string");
    assert_eq!(dump[2].type_code(), LUA_TNIL);
    state.pop(3);
}

#[test]
fn cursor_builds_a_sequence_by_hand() {
    let mut state = State::new();
    let mut ts = state.serialize_seq(Some(2)).unwrap();
    ts.serialize_element(&mut state, &Data::Int(6)).unwrap();
    ts.serialize_element(&mut state, &Data::Int(28)).unwrap();
    let used = ts.end(&mut state).unwrap();
    assert_eq!(used, 1);
    assert_eq!(state.raw_len(-1), 2);
    let back = state.pull_data(2).unwrap();
    assert_eq!(back, Data::List(vec![Data::Int(6), Data::Int(28)]));
    state.pop(1);
}

#[test]
fn cursor_builds_a_map_by_hand() {
    let mut state = State::new();
    let mut ts = state.serialize_map(Some(1)).unwrap();
    ts.serialize_key(&mut state, &Data::Str(b"k".to_vec())).unwrap();
    ts.serialize_value(&mut state, &Data::Int(9)).unwrap();
    ts.end(&mut state).unwrap();
    state.get_field(-1, b"k").unwrap();
    assert_eq!(state.to_integer(-1), Some(9));
    state.pop(2);
}

#[test]
fn map_value_without_a_key_is_an_error() {
    let mut state = State::new();
    let mut ts = state.serialize_map(Some(1)).unwrap();
    let r = ts.serialize_value(&mut state, &Data::Int(9));
    assert_eq!(r.unwrap_err().kind(), ErrorKind::Custom);
    let r2 = ts.end(&mut state);
    assert!(r2.is_ok());
    state.pop(1);
}
