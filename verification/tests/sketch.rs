use arrow_array::{ArrayRef, Int32Array, Int64Array};
use csv_records::hll::{Column, HyperLogLog, HLL_HASH_SEED};
use std::sync::Arc;
use twox_hash::XxHash64;

fn empty() -> HyperLogLog {
    HyperLogLog { registers: [0; 256] }
}

fn column(values: Vec<Option<i64>>) -> Column {
    let array: ArrayRef = Arc::new(Int64Array::from(values));
    Column { array }
}

fn sketch(values: Vec<Option<i64>>) -> HyperLogLog {
    let mut sketch = empty();
    sketch.insert_array(column(values)).unwrap();
    sketch
}

#[test]
fn values_go_to_the_registers_of_their_hashes() {
    assert_eq!(XxHash64::oneshot(HLL_HASH_SEED, &1i64.to_le_bytes()), 0x9f29_cb17_a2a4_9995);
    assert_eq!(XxHash64::oneshot(HLL_HASH_SEED, &42i64.to_le_bytes()), 0xb556_806f_b6d1_4353);
    let mut expected = [0; 256];
    expected[0x9f] = 2;
    expected[0xb5] = 1;
    expected[8] = 1;
    let sketch = sketch(vec![Some(0), Some(1), None, Some(-1), Some(42), Some(7)]);
    assert_eq!(sketch.registers, expected);
}

#[test]
fn hashes_are_ranked_by_their_leading_zeros() {
    let mut sketch = empty();
    sketch.insert_hash(0x05ff_ffff_ffff_ffff);
    assert_eq!(sketch.registers[5], 0);
    sketch.insert_hash(0x0500_1000_0000_0000);
    assert_eq!(sketch.registers[5], 11);
    sketch.insert_hash(0x0580_0000_0000_0000);
    assert_eq!(sketch.registers[5], 11);
    sketch.insert_hash(0xff00_0000_0000_0000);
    assert_eq!(sketch.registers[255], 64);
    sketch.insert_hash(0xff00_0000_0000_0001);
    assert_eq!(sketch.registers[255], 64);
}

#[test]
fn order_and_repetition_are_irrelevant() {
    let values: Vec<Option<i64>> = (0..2000).map(Some).collect();
    let mut other: Vec<Option<i64>> = values.iter().rev().copied().collect();
    other.extend_from_slice(&values[..500]);
    other.push(None);
    assert_eq!(sketch(values).registers, sketch(other).registers);
}

#[test]
fn registers_hold_the_greatest_rank() {
    assert_eq!(sketch(vec![Some(0)]).registers[52], 0);
    assert_eq!(sketch(vec![Some(0), Some(339)]).registers[52], 1);
    assert_eq!(sketch(vec![Some(148), Some(0), Some(339)]).registers[52], 2);
}

#[test]
fn columns_may_be_inserted_in_parts() {
    let mut parts = empty();
    parts.insert_array(column((0..100).map(Some).collect())).unwrap();
    parts.insert_values(&(100..200).map(Some).collect());
    assert_eq!(parts.registers, sketch((0..200).map(Some).collect()).registers);
}

#[test]
fn other_columns_are_left_alone() {
    let mut sketch = empty();
    let array: ArrayRef = Arc::new(Int32Array::from(vec![1, 2, 3]));
    assert!(!sketch.try_insert_array(Column { array }));
    assert_eq!(sketch.registers, [0; 256]);
    assert!(sketch.try_insert_array(column(vec![Some(1)])));
    assert_eq!(sketch.registers[0x9f], 2);
    assert!(sketch.try_insert_array(column(vec![])));
}
