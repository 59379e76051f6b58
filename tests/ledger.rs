use engine_wasm_core::align::{is_aligned, is_power_of_two};
use engine_wasm_core::ledger::{ContractError, Ledger};

#[test]
fn powers_of_two() {
    for a in [1usize, 2, 4, 8, 16, 4096, 1 << 40] {
        assert!(is_power_of_two(a));
    }
    for a in [0usize, 3, 6, 12, 100, usize::MAX] {
        assert!(!is_power_of_two(a));
    }
}

#[test]
fn alignment_of_addresses() {
    assert!(is_aligned(64, 8));
    assert!(is_aligned(0, 16));
    assert!(!is_aligned(12, 8));
}

#[test]
fn allocate_release_allocate_again() {
    let mut ledger = Ledger::new();
    let p: usize = 0x1000;
    assert!(is_aligned(p, 8));
    assert_eq!(ledger.record(p, 64, 8), Ok(()));
    assert_eq!(ledger.len(), 1);
    assert_eq!(ledger.release(p, 64, 8), Ok(()));
    assert_eq!(ledger.len(), 0);
    assert_eq!(ledger.record(p, 64, 8), Ok(()));
    assert_eq!(ledger.len(), 1);
}

#[test]
fn repeated_cycles_leave_nothing_behind() {
    let mut ledger = Ledger::new();
    assert_eq!(ledger.record(0x10, 16, 16), Ok(()));
    for _ in 0..500 {
        assert_eq!(ledger.record(0x100, 32, 8), Ok(()));
        assert_eq!(ledger.release(0x100, 32, 8), Ok(()));
    }
    assert_eq!(ledger.len(), 1);
}

#[test]
fn record_errors_in_order() {
    let mut ledger = Ledger::new();
    assert_eq!(ledger.record(0x100, 64, 3), Err(ContractError::BadAlign));
    assert_eq!(ledger.record(0x100, 64, 0), Err(ContractError::BadAlign));
    assert_eq!(ledger.record(0x104, 64, 8), Err(ContractError::Misaligned));
    assert_eq!(ledger.record(usize::MAX - 7, 16, 8), Err(ContractError::Wraps));
    assert_eq!(ledger.record(0x100, 64, 8), Ok(()));
    assert_eq!(ledger.record(0x138, 8, 8), Err(ContractError::Overlaps));
    assert_eq!(ledger.record(0xf8, 16, 8), Err(ContractError::Overlaps));
    assert_eq!(ledger.record(0x100, 0, 8), Err(ContractError::Overlaps));
    assert_eq!(ledger.record(0x140, 8, 8), Ok(()));
    assert_eq!(ledger.record(0xf8, 8, 8), Ok(()));
    assert_eq!(ledger.len(), 3);
}

#[test]
fn end_of_address_space_is_reachable() {
    let mut ledger = Ledger::new();
    assert_eq!(ledger.record(usize::MAX - 15, 16, 16), Ok(()));
    assert_eq!(ledger.record(usize::MAX, 0, 1), Err(ContractError::Overlaps));
}

#[test]
fn zero_sized_blocks_claim_their_address() {
    let mut ledger = Ledger::new();
    assert_eq!(ledger.record(0x200, 0, 8), Ok(()));
    assert_eq!(ledger.record(0x200, 0, 8), Err(ContractError::Overlaps));
    assert_eq!(ledger.record(0x208, 0, 8), Ok(()));
    assert_eq!(ledger.release(0x200, 0, 8), Ok(()));
    assert_eq!(ledger.len(), 1);
}

#[test]
fn release_errors() {
    let mut ledger = Ledger::new();
    assert_eq!(ledger.record(0x100, 64, 8), Ok(()));
    assert_eq!(ledger.release(0x108, 64, 8), Err(ContractError::Unknown));
    assert_eq!(ledger.release(0x100, 32, 8), Err(ContractError::Mismatch));
    assert_eq!(ledger.release(0x100, 64, 16), Err(ContractError::Mismatch));
    assert_eq!(ledger.check_release(0x100, 64, 8), Ok(()));
    assert_eq!(ledger.len(), 1);
    assert_eq!(ledger.release(0x100, 64, 8), Ok(()));
    assert_eq!(ledger.release(0x100, 64, 8), Err(ContractError::Unknown));
}

#[test]
fn resize_moves_or_keeps() {
    let mut ledger = Ledger::new();
    assert_eq!(ledger.record(0x100, 64, 8), Ok(()));
    assert_eq!(ledger.record(0x200, 64, 8), Ok(()));
    // grows in place
    assert_eq!(ledger.resize(0x100, 64, 8, 0x100, 128), Ok(()));
    assert_eq!(ledger.check_release(0x100, 128, 8), Ok(()));
    // a move onto another live block is refused and nothing changes
    assert_eq!(ledger.resize(0x100, 128, 8, 0x1f8, 32), Err(ContractError::Overlaps));
    assert_eq!(ledger.check_release(0x100, 128, 8), Ok(()));
    // a move elsewhere
    assert_eq!(ledger.resize(0x100, 128, 8, 0x400, 16), Ok(()));
    assert_eq!(ledger.check_release(0x100, 128, 8), Err(ContractError::Unknown));
    assert_eq!(ledger.check_release(0x400, 16, 8), Ok(()));
    assert_eq!(ledger.resize(0x400, 8, 8, 0x500, 8), Err(ContractError::Mismatch));
    assert_eq!(ledger.len(), 2);
}

#[test]
fn engine_answers() {
    let mut ledger = Ledger::new();
    assert_eq!(ledger.after_allocate(64, 8, 0), Ok(()));
    assert_eq!(ledger.len(), 0);
    assert_eq!(ledger.after_allocate(64, 8, 0x100), Ok(()));
    assert_eq!(ledger.after_allocate(64, 8, 0x120), Err(ContractError::Overlaps));
    assert_eq!(ledger.after_resize(0x100, 64, 8, 0, 256), Ok(()));
    assert_eq!(ledger.check_release(0x100, 64, 8), Ok(()));
    assert_eq!(ledger.after_resize(0x100, 32, 8, 0, 256), Err(ContractError::Mismatch));
    assert_eq!(ledger.after_resize(0x100, 64, 8, 0x800, 256), Ok(()));
    assert_eq!(ledger.check_release(0x800, 256, 8), Ok(()));
    assert_eq!(ledger.len(), 1);
}
