use std::cell::RefCell;
use std::rc::Rc;

use relay_controller::relays::{apply_relay, OutputFault, RelayBank, RelayController, RelayError, RelayOutput};

#[derive(Default)]
struct Wiring {
    writes: Vec<(usize, bool)>,
    broken: Vec<usize>,
}

struct TestPin {
    id: usize,
    wiring: Rc<RefCell<Wiring>>,
}

impl RelayOutput for TestPin {
    fn set_state(&mut self, energized: bool) -> Result<(), OutputFault> {
        let mut w = self.wiring.borrow_mut();
        if w.broken.contains(&self.id) {
            return Err(OutputFault);
        }
        w.writes.push((self.id, energized));
        Ok(())
    }
}

fn pins(n: usize, wiring: &Rc<RefCell<Wiring>>) -> Vec<TestPin> {
    (0..n).map(|id| TestPin { id, wiring: wiring.clone() }).collect()
}

fn controller() -> (RelayController<TestPin>, Rc<RefCell<Wiring>>) {
    let wiring = Rc::new(RefCell::new(Wiring::default()));
    (RelayController::new(pins(32, &wiring)), wiring)
}

#[test]
fn bank_starts_all_off() {
    let wiring = Rc::new(RefCell::new(Wiring::default()));
    let bank = RelayBank::new(pins(8, &wiring));
    assert_eq!(bank.get_states(), 0);
    for r in 0..8 {
        assert_eq!(bank.get_relay(r), Some(false));
    }
    assert_eq!(bank.get_relay(8), None);
}

#[test]
fn bank_set_relay_writes_output_then_state() {
    let wiring = Rc::new(RefCell::new(Wiring::default()));
    let mut bank = RelayBank::new(pins(8, &wiring));
    assert_eq!(bank.set_relay(3, true), Ok(()));
    assert_eq!(bank.get_states(), 0b0000_1000);
    assert_eq!(bank.get_relay(3), Some(true));
    assert_eq!(wiring.borrow().writes, vec![(3, true)]);
    assert_eq!(bank.set_relay(3, false), Ok(()));
    assert_eq!(bank.get_states(), 0);
}

#[test]
fn bank_set_relay_out_of_range() {
    let wiring = Rc::new(RefCell::new(Wiring::default()));
    let mut bank = RelayBank::new(pins(8, &wiring));
    assert_eq!(bank.set_relay(8, true), Err(RelayError::IndexOutOfRange));
    assert_eq!(bank.get_states(), 0);
    assert!(wiring.borrow().writes.is_empty());
}

#[test]
fn bank_set_relay_output_failure_keeps_state() {
    let wiring = Rc::new(RefCell::new(Wiring::default()));
    let mut bank = RelayBank::new(pins(8, &wiring));
    wiring.borrow_mut().broken.push(5);
    assert_eq!(bank.set_relay(5, true), Err(RelayError::OutputFailure));
    assert_eq!(bank.get_states(), 0);
}

#[test]
fn bank_set_bank_writes_every_output_in_order() {
    let wiring = Rc::new(RefCell::new(Wiring::default()));
    let mut bank = RelayBank::new(pins(8, &wiring));
    assert_eq!(bank.set_bank(0b1010_0101), Ok(()));
    assert_eq!(bank.get_states(), 0b1010_0101);
    let expected: Vec<(usize, bool)> = (0..8).map(|i| (i, (0b1010_0101u8 >> i) & 1 == 1)).collect();
    assert_eq!(wiring.borrow().writes, expected);
}

#[test]
fn bank_set_bank_stops_at_first_failure() {
    let wiring = Rc::new(RefCell::new(Wiring::default()));
    let mut bank = RelayBank::new(pins(8, &wiring));
    wiring.borrow_mut().broken.push(4);
    assert_eq!(bank.set_bank(0xFF), Err(RelayError::OutputFailure));
    assert_eq!(bank.get_states(), 0);
    assert_eq!(wiring.borrow().writes, vec![(0, true), (1, true), (2, true), (3, true)]);
}

#[test]
fn apply_relay_sets_and_clears_one_bit() {
    assert_eq!(apply_relay(0b0000_0000, 7, true), 0b1000_0000);
    assert_eq!(apply_relay(0b1111_1111, 0, false), 0b1111_1110);
    assert_eq!(apply_relay(0b0101_0101, 2, true), 0b0101_0101);
}

#[test]
fn controller_starts_all_off() {
    let (c, _) = controller();
    for b in 0..4 {
        assert_eq!(c.get_bank_states(b), Some(0));
    }
    assert_eq!(c.get_all_states(), 0);
}

#[test]
fn set_bank_then_get_bank_state_every_mask() {
    let (mut c, _) = controller();
    for bank in 0..4u8 {
        for mask in 0..=255u8 {
            assert_eq!(c.set_bank(bank, mask), Ok(()));
            assert_eq!(c.get_bank_states(bank), Some(mask));
        }
    }
}

#[test]
fn set_relay_by_flat_address_agrees_with_bank_state() {
    let (mut c, _) = controller();
    for addr in 0..32u8 {
        let (bank, relay) = (addr / 8, addr % 8);
        assert_eq!(c.set_relay(bank, relay, true), Ok(()));
        assert_eq!(c.get_relay_state(bank, relay), Some(true));
        let s = c.get_bank_states(bank).unwrap();
        assert_eq!(s & (1 << relay) != 0, true);
        assert_eq!(c.set_relay(bank, relay, false), Ok(()));
        assert_eq!(c.get_relay_state(bank, relay), Some(false));
        assert_eq!(c.get_bank_states(bank).unwrap() & (1 << relay), 0);
    }
}

#[test]
fn set_bank_twice_is_idempotent() {
    let (mut c, _) = controller();
    assert_eq!(c.set_bank(2, 0x5A), Ok(()));
    let first = c.get_bank_states(2);
    assert_eq!(c.set_bank(2, 0x5A), Ok(()));
    assert_eq!(c.get_bank_states(2), first);
    assert_eq!(first, Some(0x5A));
}

#[test]
fn back_to_back_writes_to_one_bank_both_stick() {
    let (mut c, _) = controller();
    assert_eq!(c.set_relay(1, 2, true), Ok(()));
    assert_eq!(c.set_relay(1, 6, true), Ok(()));
    assert_eq!(c.get_relay_state(1, 2), Some(true));
    assert_eq!(c.get_relay_state(1, 6), Some(true));
    assert_eq!(c.get_bank_states(1), Some(0b0100_0100));
}

#[test]
fn controller_errors() {
    let (mut c, wiring) = controller();
    assert_eq!(c.set_relay(4, 0, true), Err(RelayError::BankOutOfRange));
    assert_eq!(c.set_relay(0, 8, true), Err(RelayError::IndexOutOfRange));
    assert_eq!(c.set_bank(4, 0xFF), Err(RelayError::BankOutOfRange));
    assert!(wiring.borrow().writes.is_empty());
    wiring.borrow_mut().broken.push(9);
    assert_eq!(c.set_relay(1, 1, true), Err(RelayError::OutputFailure));
    assert_eq!(c.set_bank(1, 0xFF), Err(RelayError::OutputFailure));
    assert_eq!(c.get_bank_states(1), Some(0));
    assert_eq!(c.get_bank_states(4), None);
    assert_eq!(c.get_relay_state(4, 0), None);
    assert_eq!(c.get_relay_state(0, 8), None);
}

#[test]
fn outputs_map_to_coil_order() {
    let (mut c, wiring) = controller();
    assert_eq!(c.set_relay(3, 7, true), Ok(()));
    assert_eq!(c.set_relay(2, 0, true), Ok(()));
    assert_eq!(wiring.borrow().writes, vec![(31, true), (16, true)]);
}

#[test]
fn all_states_packs_bank_zero_low() {
    let (mut c, _) = controller();
    assert_eq!(c.set_bank(0, 0x11), Ok(()));
    assert_eq!(c.set_bank(1, 0x22), Ok(()));
    assert_eq!(c.set_bank(2, 0x33), Ok(()));
    assert_eq!(c.set_bank(3, 0x84), Ok(()));
    assert_eq!(c.get_all_states(), 0x8433_2211);
}

#[test]
fn flat_address_write_then_read() {
    let (mut c, wiring) = controller();
    for addr in 0..32u8 {
        assert_eq!(c.set_coil(addr, true), Ok(()));
        assert_eq!(c.get_coil(addr), Some(true));
        assert_eq!(c.get_relay_state(addr / 8, addr % 8), Some(true));
        assert_eq!(c.get_bank_states(addr / 8).unwrap() & (1 << (addr % 8)), 1 << (addr % 8));
    }
    assert_eq!(c.get_all_states(), 0xFFFF_FFFF);
    assert_eq!(c.set_coil(32, true), Err(RelayError::IndexOutOfRange));
    assert_eq!(c.get_coil(32), None);
    wiring.borrow_mut().broken.push(20);
    assert_eq!(c.set_coil(20, false), Err(RelayError::OutputFailure));
    assert_eq!(c.get_coil(20), Some(true));
}
