use std::collections::HashSet;
use std::hash::Hasher;

use nanomesh::mesh::decimate::{Edge, EdgeHasher};
use nanomesh::utils::SimpleHasher;

#[test]
fn edges_are_equal_in_both_directions() {
    assert_eq!(Edge::new(1, 2), Edge::new(2, 1));
    assert_eq!(Edge::new(1, 2), Edge::new(1, 2));
    assert_ne!(Edge::new(1, 2), Edge::new(1, 3));
}

#[test]
fn edge_keys_put_the_smaller_position_first() {
    assert_eq!(Edge::new(1, 2).key(), (1u64 << 32) + 2);
    assert_eq!(Edge::new(2, 1).key(), (1u64 << 32) + 2);
    assert_eq!(Edge::new(u32::MAX, 0).key(), u32::MAX as u64);
    let edge = Edge::from_key((7u64 << 32) + 9);
    assert_eq!(edge.pos_a, 7);
    assert_eq!(edge.pos_b, 9);
}

#[test]
fn edge_hash_is_sum_and_distance() {
    assert_eq!(Edge::new(3, 10).hash_code(), (13u64 << 32) + 7);
    assert_eq!(Edge::new(10, 3).hash_code(), (13u64 << 32) + 7);
    // the sum wraps
    assert_eq!(Edge::new(u32::MAX, 2).hash_code(), (1u64 << 32) + (u32::MAX as u64 - 2));
}

#[test]
fn edges_can_be_kept_in_a_hash_set() {
    let mut set = HashSet::new();
    assert!(set.insert(Edge::new(4, 9)));
    assert!(!set.insert(Edge::new(9, 4)));
    assert!(set.contains(&Edge::new(9, 4)));
    assert!(!set.contains(&Edge::new(9, 5)));
}

#[test]
fn simple_hasher_mixes_signed_numbers() {
    let mut hasher = SimpleHasher::default();
    assert_eq!(hasher.finish(), 0);
    hasher.write_i32(1);
    assert_eq!(hasher.finish(), 12994781566227106604);
    hasher.write_i32(42);
    assert_eq!(hasher.finish(), 9297814886316923340);
    hasher.write_i32(-1);
    assert_eq!(hasher.finish(), 7256831767414464289);
}

#[test]
fn simple_hasher_reads_bytes_little_endian() {
    let mut hasher = SimpleHasher::default();
    hasher.write(&[1, 2]);
    assert_eq!(hasher.finish(), 0x0201);
    hasher.write(&[0xff; 8]);
    assert_eq!(hasher.finish(), u64::MAX);
    hasher.write(&[1, 0, 0, 0, 0, 0, 0, 0, 9, 9]);
    assert_eq!(hasher.finish(), 1);
    hasher.write_u64(0x0102_0304_0506_0708);
    assert_eq!(hasher.finish(), 0x0102_0304_0506_0708u64.to_le());
    hasher.write(&[]);
    assert_eq!(hasher.finish(), 0);
}

#[test]
fn edge_hasher_keeps_the_number_written() {
    let mut hasher = EdgeHasher::default();
    assert_eq!(hasher.finish(), 0);
    hasher.write_u64(77);
    assert_eq!(hasher.finish(), 77);
    hasher.write(&[2, 1]);
    assert_eq!(hasher.finish(), 0x0102);
}
