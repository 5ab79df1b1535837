use otspec::offsets::{lay_out, placement_order, resolve, OffsetMarker, TableNode};
use otspec::utils::{int_list_to_num, is_all_the_same};
use otspec::SerializationError;

fn node(body: Vec<u8>, markers: Vec<OffsetMarker>) -> TableNode {
    TableNode { body, markers }
}

fn m16(at: usize, target: usize) -> OffsetMarker {
    OffsetMarker { at, wide: false, target }
}

#[test]
fn resolves_nested_offsets_relative_to_parent() {
    // root: [count, off->A]; A: [off->B, 0xAA]; B: [0xBB]
    let nodes = vec![
        node(vec![0, 1, 0, 0], vec![m16(2, 1)]),
        node(vec![0, 0, 0xAA], vec![m16(0, 2)]),
        node(vec![0xBB], vec![]),
    ];
    let out = resolve(&nodes, 0).unwrap();
    assert_eq!(out, vec![0, 1, 0, 4, 0, 3, 0xAA, 0xBB]);
}

#[test]
fn wide_offsets_are_four_bytes() {
    let nodes = vec![
        node(vec![0; 4], vec![OffsetMarker { at: 0, wide: true, target: 1 }]),
        node(vec![7], vec![]),
    ];
    assert_eq!(resolve(&nodes, 0).unwrap(), vec![0, 0, 0, 4, 7]);
}

#[test]
fn cycle_is_reported() {
    let nodes = vec![
        node(vec![0, 0], vec![m16(0, 1)]),
        node(vec![0, 0], vec![m16(0, 0)]),
    ];
    assert_eq!(resolve(&nodes, 0), Err(SerializationError::CyclicGraph));
    let self_loop = vec![node(vec![0, 0], vec![m16(0, 0)])];
    assert_eq!(placement_order(&self_loop, 0), Err(SerializationError::CyclicGraph));
}

#[test]
fn sixteen_bit_overflow_is_reported_not_truncated() {
    let big = node(vec![0; 70000], vec![]);
    let nodes = vec![
        node(vec![0, 0, 0, 0], vec![m16(0, 1), m16(2, 2)]),
        big,
        node(vec![1], vec![]),
    ];
    assert_eq!(resolve(&nodes, 0), Err(SerializationError::WidthOverflow));
    let nodes = vec![
        node(vec![0, 0, 0, 0, 0, 0], vec![m16(0, 1), OffsetMarker { at: 2, wide: true, target: 2 }]),
        node(vec![0; 70000], vec![]),
        node(vec![1], vec![]),
    ];
    let out = resolve(&nodes, 0).unwrap();
    assert_eq!(&out[0..6], &[0, 6, 0, 1, 0x11, 0x76]);
}

#[test]
fn shared_subtable_is_placed_once() {
    let nodes = vec![
        node(vec![0, 0, 0, 0], vec![m16(0, 1), m16(2, 2)]),
        node(vec![0, 0], vec![m16(0, 2)]),
        node(vec![9], vec![]),
    ];
    let order = placement_order(&nodes, 0).unwrap();
    assert_eq!(order, vec![0, 1, 2]);
    assert_eq!(lay_out(&nodes, &order).unwrap(), vec![0, 4, 0, 6, 0, 2, 9]);
}

#[test]
fn backward_reference_is_width_overflow() {
    let nodes = vec![node(vec![0, 0], vec![m16(0, 1)]), node(vec![0, 0], vec![])];
    assert_eq!(lay_out(&nodes, &vec![1, 0]), Err(SerializationError::WidthOverflow));
}

#[test]
fn int_list_to_num_sets_bits() {
    assert_eq!(int_list_to_num(&[0, 1, 2, 3]), 0xF);
    assert_eq!(int_list_to_num(&[]), 0);
    assert_eq!(int_list_to_num(&[31, 31]), 0x8000_0000);
}

#[test]
fn is_all_the_same_checks_every_item() {
    assert!(is_all_the_same(&[]));
    assert!(is_all_the_same(&[5, 5, 5]));
    assert!(!is_all_the_same(&[5, 5, 6]));
}
