#![allow(non_snake_case)]

use pwasm_abstractions::contract::{SampleContract, SampleContractInterface};

#[test]
fn should_work() {
    let mut contract = SampleContract::new();
    contract.constructor();

    contract.createRequest(*b"123456789012345678901234567890", 10, 50);
    contract.createRequest(*b"523456789012345678901234567890", 20, 60);

    let len = contract.getRequestsCount();

    assert_eq!(2, len);
    assert_eq!(
        (*b"123456789012345678901234567890", 10, 50),
        contract.getRequestByIndex(0)
    );
    assert_eq!(
        (*b"523456789012345678901234567890", 20, 60),
        contract.getRequestByIndex(1)
    );
}

#[test]
fn out_of_range_request_reads_as_zeroes() {
    let mut contract = SampleContract::new();
    contract.constructor();
    assert_eq!(0, contract.getRequestsCount());
    assert_eq!(([0u8; 30], 0u64, 0u32), contract.getRequestByIndex(0));

    contract.createRequest(*b"000000000000000000000000000001", 1, 2);
    assert_eq!(([0u8; 30], 0u64, 0u32), contract.getRequestByIndex(1));
    assert_eq!(([0u8; 30], 0u64, 0u32), contract.getRequestByIndex(u32::MAX));
}
