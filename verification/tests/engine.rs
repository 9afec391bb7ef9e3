use pwasm_abstractions::collections::Array;
use pwasm_abstractions::storage::Storage;
use pwasm_abstractions::uint256::U256;
use pwasm_abstractions::utils::SubAddress;

#[test]
fn should_push_and_get_items_from_array() {
    let mut storage = Storage::new();
    let array_address = SubAddress::new([0u8; 32], 0);
    let mut array: Array<u32> = Array::new(array_address);
    array.push(&mut storage, 123);
    array.push(&mut storage, 456);

    let len = array.len(&storage);
    let first_item = array.get_item(&storage, 0);
    let second_item = array.get_item(&storage, 1);

    assert_eq!(2, len);
    assert_eq!(Some(123), first_item);
    assert_eq!(Some(456), second_item);
}

#[test]
fn should_push_and_get_items_from_array_256() {
    let mut storage = Storage::new();
    let array_address = SubAddress::new([0u8; 32], 0);
    let mut array: Array<U256> = Array::new(array_address);
    array.push(&mut storage, U256::from_u32(123));
    array.push(&mut storage, U256::from_u32(456));

    let len = array.len(&storage);
    let first_item = array.get_item(&storage, 0);
    let second_item = array.get_item(&storage, 1);

    assert_eq!(2, len);
    assert_eq!(Some(U256::from_u32(123)), first_item);
    assert_eq!(Some(U256::from_u32(456)), second_item);
}

#[test]
fn should_create_sub_address() {
    let address = SubAddress::new([0u8; 32], 0);
    let sub_address = address.get_sub_address(1 + 256);
    let sub_sub_address =
        sub_address.get_sub_address(1 + 2 * 256 + 3 * 256 * 256 + 4 * 256 * 256 * 256);

    assert_eq!(4, sub_address.offset());
    assert_eq!(8, sub_sub_address.offset());
    assert_eq!(
        [
            2, 1, 0, 0, 0, 0, 0, 0, 0, 0, 0, 0, 0, 0, 0, 0, 0, 0, 0, 0, 0, 0, 0, 0, 0, 0, 0, 0, 0,
            0, 0, 0
        ],
        sub_address.address()
    );
    assert_eq!(
        [
            2, 1, 0, 0, 2, 2, 3, 4, 0, 0, 0, 0, 0, 0, 0, 0, 0, 0, 0, 0, 0, 0, 0, 0, 0, 0, 0, 0, 0,
            0, 0, 0
        ],
        sub_sub_address.address()
    );
}

#[test]
fn should_push_to_nested_array() {
    let mut storage = Storage::new();
    let root_address = SubAddress::new([0u8; 32], 0);
    let array_address = root_address.get_sub_address(0);
    let subarray_address = array_address.get_sub_address(0);

    let mut array: Array<Array<u32>> = Array::new(array_address);
    let mut sub_array: Array<u32> = Array::new(subarray_address);

    sub_array.push(&mut storage, 123);
    sub_array.push(&mut storage, 456);
    array.push(&mut storage, sub_array);

    let mut sub_array: Array<u32> = Array::new(array.address.get_sub_address(1));
    sub_array.push(&mut storage, 789);
    array.push(&mut storage, sub_array);

    let len = array.len(&storage);
    let mut items: Vec<u32> = Vec::new();
    let mut outer_iter = array.into_iter();
    while let Some(inner) = outer_iter.next(&storage) {
        let mut inner_iter = inner.into_iter();
        while let Some(value) = inner_iter.next(&storage) {
            items.push(value);
        }
    }

    assert_eq!(2, len);
    assert_eq!(3, items.len());
    assert_eq!(123, items[0]);
    assert_eq!(456, items[1]);
    assert_eq!(789, items[2]);
}

#[test]
fn should_push_to_nested_array_256() {
    let mut storage = Storage::new();
    let root_address = SubAddress::new([0u8; 32], 0);
    let array_address = root_address.get_sub_address(0);
    let subarray_address = array_address.get_sub_address(0);

    let mut array: Array<Array<U256>> = Array::new(array_address);
    let mut sub_array: Array<U256> = Array::new(subarray_address);

    sub_array.push(&mut storage, U256::from_u32(123));
    sub_array.push(&mut storage, U256::from_u32(456));
    array.push(&mut storage, sub_array);

    let mut sub_array: Array<U256> = Array::new(array.address.get_sub_address(1));
    sub_array.push(&mut storage, U256::from_u32(789));
    array.push(&mut storage, sub_array);

    let len = array.len(&storage);
    let mut items: Vec<U256> = Vec::new();
    let mut outer_iter = array.into_iter();
    while let Some(inner) = outer_iter.next(&storage) {
        let mut inner_iter = inner.into_iter();
        while let Some(value) = inner_iter.next(&storage) {
            items.push(value);
        }
    }

    assert_eq!(2, len);
    assert_eq!(3, items.len());
    assert_eq!(123, items[0].as_u32());
    assert_eq!(456, items[1].as_u32());
    assert_eq!(789, items[2].as_u32());
}

#[test]
fn fresh_region_reads_as_empty_sequence() {
    let storage = Storage::new();
    let array: Array<u32> = Array::new(SubAddress::new([9u8; 32], 0));
    assert_eq!(0, array.len(&storage));
    assert_eq!(None, array.get_item(&storage, 0));
}

#[test]
fn length_grows_by_one_per_push() {
    let mut storage = Storage::new();
    let mut array: Array<u32> = Array::new(SubAddress::new([0u8; 32], 0));
    for n in 0..5u32 {
        assert_eq!(n, array.len(&storage));
        array.push(&mut storage, n * 11);
    }
    assert_eq!(5, array.len(&storage));
    for n in 0..5u32 {
        assert_eq!(Some(n * 11), array.get_item(&storage, n));
    }
    assert_eq!(None, array.get_item(&storage, 5));
    assert_eq!(None, array.get_item(&storage, 1000));
}

#[test]
fn sibling_indices_get_distinct_keys() {
    let parent = SubAddress::new([0u8; 32], 0);
    assert_ne!(
        parent.get_sub_address(0).address(),
        parent.get_sub_address(1).address()
    );
    assert_ne!(
        parent.get_sub_address(0).address(),
        parent.get_sub_address(0).get_sub_address(0).address()
    );
}

#[test]
fn derivation_stops_at_the_key_budget() {
    let mut address = SubAddress::new([0u8; 32], 0);
    for depth in 0..8u32 {
        assert_eq!(4 * depth as usize, address.offset());
        address = address
            .try_get_sub_address(depth)
            .expect("room for another component");
    }
    assert_eq!(32, address.offset());
    assert!(address.try_get_sub_address(0).is_none());

    let odd = SubAddress::new([0u8; 32], 31);
    assert!(odd.try_get_sub_address(0).is_none());
}

#[test]
fn inner_mutation_leaves_outer_sequence_alone() {
    let mut storage = Storage::new();
    let outer_base = SubAddress::new([0u8; 32], 0).get_sub_address(0);
    let mut outer: Array<Array<u32>> = Array::new(outer_base);

    let mut inner_a: Array<u32> = Array::new(outer_base.get_sub_address(0));
    inner_a.push(&mut storage, 123);
    outer.push(&mut storage, inner_a);

    let mut inner_b: Array<u32> = Array::new(outer_base.get_sub_address(1));
    outer.push(&mut storage, inner_b);

    assert_eq!(2, outer.len(&storage));
    inner_b.push(&mut storage, 777);
    inner_b.push(&mut storage, 888);
    inner_a.push(&mut storage, 456);

    assert_eq!(2, outer.len(&storage));
    let got_a = outer.get_item(&storage, 0).unwrap();
    assert_eq!(Some(123), got_a.get_item(&storage, 0));
    assert_eq!(Some(456), got_a.get_item(&storage, 1));
    let got_b = outer.get_item(&storage, 1).unwrap();
    assert_eq!(Some(777), got_b.get_item(&storage, 0));
    assert_eq!(Some(888), got_b.get_item(&storage, 1));
}
