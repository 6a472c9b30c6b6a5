use std::cell::RefCell;
use std::rc::Rc;

use relay_controller::modbus::{
    decode_request, encode_response, is_coil_on, pack_coil_bits, unpack_coil_bits, CoilRequest,
    CoilResponse, ExceptionCode, ModbusHandler,
};
use relay_controller::relays::{OutputFault, RelayController, RelayOutput};

struct TestPin {
    id: usize,
    broken: Rc<RefCell<Vec<usize>>>,
    writes: Rc<RefCell<Vec<usize>>>,
}

impl RelayOutput for TestPin {
    fn set_state(&mut self, _energized: bool) -> Result<(), OutputFault> {
        self.writes.borrow_mut().push(self.id);
        if self.broken.borrow().contains(&self.id) {
            Err(OutputFault)
        } else {
            Ok(())
        }
    }
}

fn pins(broken: &Rc<RefCell<Vec<usize>>>, writes: &Rc<RefCell<Vec<usize>>>) -> Vec<TestPin> {
    (0..32)
        .map(|id| TestPin { id, broken: broken.clone(), writes: writes.clone() })
        .collect()
}

fn handler() -> (ModbusHandler<TestPin>, Rc<RefCell<Vec<usize>>>) {
    let broken = Rc::new(RefCell::new(Vec::new()));
    let writes = Rc::new(RefCell::new(Vec::new()));
    (ModbusHandler::new(RelayController::new(pins(&broken, &writes))), broken)
}

fn banks(h: &ModbusHandler<TestPin>) -> Vec<u8> {
    (0..4).map(|b| h.relay_controller().get_bank_states(b).unwrap()).collect()
}

#[test]
fn read_all_coils_after_all_banks_on() {
    let (mut h, _) = handler();
    for b in 0..4 {
        let r = h.handle_frame(0x0F, &vec![0x00, (b * 8) as u8, 0x00, 0x08, 0x01, 0xFF]);
        assert_eq!(r, CoilResponse::MultipleEcho { start: b * 8, quantity: 8 });
    }
    assert_eq!(h.handle_read_coils(0, 32), CoilResponse::Coils(vec![true; 32]));
}

#[test]
fn read_all_coils_after_set_bank() {
    let broken = Rc::new(RefCell::new(Vec::new()));
    let writes = Rc::new(RefCell::new(Vec::new()));
    let mut c = RelayController::new(pins(&broken, &writes));
    for i in 0..4 {
        assert_eq!(c.set_bank(i, 0xFF), Ok(()));
    }
    let h = ModbusHandler::new(c);
    assert_eq!(h.handle_read_coils(0, 32), CoilResponse::Coils(vec![true; 32]));
}

#[test]
fn read_window_past_end_is_illegal_address() {
    let (mut h, _) = handler();
    assert_eq!(h.handle_write_single_coil(30, 0xFF00), CoilResponse::SingleEcho { address: 30, value: 0xFF00 });
    let before = banks(&h);
    assert_eq!(
        h.handle_read_coils(30, 3),
        CoilResponse::Exception(ExceptionCode::IllegalDataAddress)
    );
    assert_eq!(
        h.handle_frame(0x01, &vec![0x00, 30, 0x00, 3]),
        CoilResponse::Exception(ExceptionCode::IllegalDataAddress)
    );
    assert_eq!(banks(&h), before);
}

#[test]
fn read_coils_in_address_order() {
    let (mut h, _) = handler();
    h.handle_write_single_coil(9, 0xFF00);
    h.handle_write_single_coil(11, 0xFF00);
    assert_eq!(
        h.handle_read_coils(8, 5),
        CoilResponse::Coils(vec![false, true, false, true, false])
    );
    assert_eq!(h.handle_read_coils(32, 0), CoilResponse::Coils(vec![]));
    assert_eq!(
        h.handle_read_coils(0xFFFF, 2),
        CoilResponse::Exception(ExceptionCode::IllegalDataAddress)
    );
}

#[test]
fn write_single_last_coil_and_past_end() {
    let (mut h, _) = handler();
    assert_eq!(
        h.handle_write_single_coil(31, 0xFF00),
        CoilResponse::SingleEcho { address: 31, value: 0xFF00 }
    );
    assert_eq!(h.relay_controller().get_relay_state(3, 7), Some(true));
    assert_eq!(
        h.handle_write_single_coil(32, 0xFF00),
        CoilResponse::Exception(ExceptionCode::IllegalDataAddress)
    );
    assert_eq!(banks(&h), vec![0, 0, 0, 0x80]);
}

#[test]
fn write_single_value_high_byte_decides() {
    let (mut h, _) = handler();
    assert_eq!(h.handle_write_single_coil(4, 0xFF12), CoilResponse::SingleEcho { address: 4, value: 0xFF12 });
    assert_eq!(h.relay_controller().get_relay_state(0, 4), Some(true));
    assert_eq!(h.handle_write_single_coil(4, 0x00FF), CoilResponse::SingleEcho { address: 4, value: 0x00FF });
    assert_eq!(h.relay_controller().get_relay_state(0, 4), Some(false));
    assert!(is_coil_on(0xFF00));
    assert!(!is_coil_on(0x0000));
    assert!(!is_coil_on(0xFE00));
}

#[test]
fn write_single_output_failure() {
    let (mut h, broken) = handler();
    broken.borrow_mut().push(12);
    assert_eq!(
        h.handle_write_single_coil(12, 0xFF00),
        CoilResponse::Exception(ExceptionCode::SlaveDeviceFailure)
    );
    assert_eq!(banks(&h), vec![0, 0, 0, 0]);
}

#[test]
fn write_multiple_across_banks() {
    let (mut h, _) = handler();
    let r = h.handle_write_multiple_coils(6, 10, 2, &vec![0b1010_0111, 0b0000_0010]);
    assert_eq!(r, CoilResponse::MultipleEcho { start: 6, quantity: 10 });
    // coils 6..16 get 1,1,1,0,0,1,0,1, 0,1
    assert_eq!(banks(&h), vec![0b1100_0000, 0b1010_1001, 0b0000_0000, 0]);
    assert_eq!(
        h.handle_read_coils(6, 10),
        CoilResponse::Coils(vec![true, true, true, false, false, true, false, true, false, true])
    );
}

#[test]
fn write_multiple_rejects_bad_window_and_byte_count() {
    let (mut h, _) = handler();
    assert_eq!(
        h.handle_write_multiple_coils(30, 3, 1, &vec![0xFF]),
        CoilResponse::Exception(ExceptionCode::IllegalDataAddress)
    );
    assert_eq!(
        h.handle_write_multiple_coils(0, 9, 1, &vec![0xFF]),
        CoilResponse::Exception(ExceptionCode::IllegalDataAddress)
    );
    assert_eq!(
        h.handle_write_multiple_coils(0, 8, 1, &vec![0xFF, 0xFF]),
        CoilResponse::Exception(ExceptionCode::IllegalDataAddress)
    );
    assert_eq!(banks(&h), vec![0, 0, 0, 0]);
}

#[test]
fn write_multiple_stops_at_failed_output() {
    let (mut h, broken) = handler();
    broken.borrow_mut().push(3);
    assert_eq!(
        h.handle_write_multiple_coils(0, 8, 1, &vec![0xFF]),
        CoilResponse::Exception(ExceptionCode::SlaveDeviceFailure)
    );
    assert_eq!(banks(&h), vec![0b0000_0111, 0, 0, 0]);
}

#[test]
fn unknown_function_is_illegal_function() {
    let (mut h, _) = handler();
    for data in [vec![], vec![0x00, 0x01, 0x00, 0x01], vec![0xFF; 40]] {
        assert_eq!(
            h.handle_frame(0x99, &data),
            CoilResponse::Exception(ExceptionCode::IllegalFunction)
        );
    }
    assert_eq!(
        h.handle_request(&CoilRequest::Unknown { function_code: 0x99 }),
        CoilResponse::Exception(ExceptionCode::IllegalFunction)
    );
    assert_eq!(banks(&h), vec![0, 0, 0, 0]);
}

#[test]
fn short_frame_is_illegal_address() {
    let (mut h, _) = handler();
    assert_eq!(
        h.handle_frame(0x05, &vec![0x00, 0x1F, 0xFF]),
        CoilResponse::Exception(ExceptionCode::IllegalDataAddress)
    );
    assert_eq!(
        h.handle_frame(0x0F, &vec![0x00, 0x00, 0x00, 0x08]),
        CoilResponse::Exception(ExceptionCode::IllegalDataAddress)
    );
}

#[test]
fn frame_write_single_is_big_endian() {
    let (mut h, _) = handler();
    assert_eq!(
        h.handle_frame(0x05, &vec![0x00, 0x1F, 0xFF, 0x00]),
        CoilResponse::SingleEcho { address: 31, value: 0xFF00 }
    );
    assert_eq!(h.relay_controller().get_relay_state(3, 7), Some(true));
}

#[test]
fn decode_request_fields() {
    assert_eq!(
        decode_request(0x01, &vec![0x01, 0x02, 0x03, 0x04]),
        Some(CoilRequest::ReadCoils { start: 0x0102, quantity: 0x0304 })
    );
    assert_eq!(
        decode_request(0x0F, &vec![0x00, 0x02, 0x00, 0x0A, 0x02, 0xAB, 0xCD]),
        Some(CoilRequest::WriteMultipleCoils {
            start: 2,
            quantity: 10,
            byte_count: 2,
            payload: vec![0xAB, 0xCD]
        })
    );
    assert_eq!(decode_request(0x01, &vec![0x00]), None);
    assert_eq!(
        decode_request(0x03, &vec![]),
        Some(CoilRequest::Unknown { function_code: 0x03 })
    );
}

#[test]
fn pack_and_unpack_bits() {
    let bits = vec![true, false, true, true, false, false, false, false, true, true];
    let packed = pack_coil_bits(&bits);
    assert_eq!(packed, vec![0b0000_1101, 0b0000_0011]);
    assert_eq!(unpack_coil_bits(&packed, 10), bits);
    assert_eq!(pack_coil_bits(&vec![]), Vec::<u8>::new());
}

#[test]
fn encode_each_response() {
    assert_eq!(
        encode_response(0x01, &CoilResponse::Coils(vec![true, false, true])),
        vec![0x01, 0x01, 0b101]
    );
    assert_eq!(
        encode_response(0x05, &CoilResponse::SingleEcho { address: 0x001F, value: 0xFF00 }),
        vec![0x05, 0x00, 0x1F, 0xFF, 0x00]
    );
    assert_eq!(
        encode_response(0x0F, &CoilResponse::MultipleEcho { start: 0x0102, quantity: 0x0010 }),
        vec![0x0F, 0x01, 0x02, 0x00, 0x10]
    );
    assert_eq!(
        encode_response(0x99, &CoilResponse::Exception(ExceptionCode::IllegalFunction)),
        vec![0x99 | 0x80, 0x01]
    );
    assert_eq!(ExceptionCode::IllegalDataAddress.code(), 0x02);
    assert_eq!(ExceptionCode::SlaveDeviceFailure.code(), 0x04);
}

#[test]
fn refused_requests_command_no_output() {
    let broken = Rc::new(RefCell::new(Vec::new()));
    let writes = Rc::new(RefCell::new(Vec::new()));
    let mut h = ModbusHandler::new(RelayController::new(pins(&broken, &writes)));
    h.handle_frame(0x99, &vec![0x00, 0x00, 0xFF, 0x00]);
    h.handle_frame(0x05, &vec![0x00, 0x20, 0xFF, 0x00]);
    h.handle_frame(0x05, &vec![0x00]);
    h.handle_frame(0x0F, &vec![0x00, 0x1E, 0x00, 0x03, 0x01, 0xFF]);
    h.handle_frame(0x0F, &vec![0x00, 0x00, 0x00, 0x08, 0x02, 0xFF, 0xFF]);
    h.handle_frame(0x01, &vec![0x00, 0x00, 0x00, 0x20]);
    assert!(writes.borrow().is_empty());
    h.handle_frame(0x0F, &vec![0x00, 0x03, 0x00, 0x02, 0x01, 0x01]);
    assert_eq!(*writes.borrow(), vec![3, 4]);
}

#[test]
fn write_multiple_ten_coils_from_two_bytes() {
    let (mut h, _) = handler();
    assert_eq!(
        h.handle_frame(0x0F, &vec![0x00, 0x00, 0x00, 0x0A, 0x02, 0x05, 0x02]),
        CoilResponse::MultipleEcho { start: 0, quantity: 10 }
    );
    assert_eq!(banks(&h), vec![0b0000_0101, 0b0000_0010, 0, 0]);
    for a in 0..32u8 {
        let on = a == 0 || a == 2 || a == 9;
        assert_eq!(h.relay_controller().get_coil(a), Some(on));
    }
}
