use vstd::prelude::*;
use crate::control::ControlCommand;
use crate::relays::{
    after_set_relay, all_accepted, bank_write_outcome, coil, lemma_run_empty, lemma_run_extend,
    lemma_with_bit, relay_bit, stopped_at_fault, with_bit, wrote_run, RelayController, RelayError,
    RelayOutput,
};

verus! {

/// Function code of a coil read.
pub const READ_COILS: u8 = 0x01;

/// Function code of a single-coil write.
pub const WRITE_SINGLE_COIL: u8 = 0x05;

/// Function code of a multiple-coil write.
pub const WRITE_MULTIPLE_COILS: u8 = 0x0F;

/// Size of the coil address space.
pub const COIL_COUNT: u16 = 32;

/// The protocol exceptions a request can be answered with.
#[derive(Clone, Copy, Debug, PartialEq, Eq, Structural)]
pub enum ExceptionCode {
    /// The function code is not one of the three coil functions.
    IllegalFunction,
    /// The addressed window leaves `[0, 32)`, or the frame is malformed.
    IllegalDataAddress,
    /// A relay output failed to apply a command.
    SlaveDeviceFailure,
}

/// The wire byte of an exception.
pub open spec fn exception_byte(e: ExceptionCode) -> u8 {
    match e {
        ExceptionCode::IllegalFunction => 0x01u8,
        ExceptionCode::IllegalDataAddress => 0x02u8,
        ExceptionCode::SlaveDeviceFailure => 0x04u8,
    }
}

impl ExceptionCode {
    /// The exception code carried on the wire.
    pub fn code(&self) -> (r: u8)
        ensures
            r == exception_byte(*self),
    {
        match self {
            ExceptionCode::IllegalFunction => 0x01,
            ExceptionCode::IllegalDataAddress => 0x02,
            ExceptionCode::SlaveDeviceFailure => 0x04,
        }
    }
}

/// A decoded coil request.
#[derive(Debug, PartialEq, Eq)]
pub enum CoilRequest {
    /// Read coils `[start, start + quantity)`.
    ReadCoils { start: u16, quantity: u16 },
    /// Write one coil; `value` is on when its high byte is 0xFF.
    WriteSingleCoil { address: u16, value: u16 },
    /// Write coils `[start, start + quantity)` from `payload`, packed least
    /// significant bit first; `byte_count` is the declared payload length.
    WriteMultipleCoils { start: u16, quantity: u16, byte_count: u8, payload: Vec<u8> },
    /// Any other function code.
    Unknown { function_code: u8 },
}

/// The answer to a coil request.
#[derive(Debug, PartialEq, Eq)]
pub enum CoilResponse {
    /// The coils read, in ascending address order.
    Coils(Vec<bool>),
    /// A single write applied: the request's address and value, unchanged.
    SingleEcho { address: u16, value: u16 },
    /// A multiple write applied: the request's start and quantity.
    MultipleEcho { start: u16, quantity: u16 },
    /// The request was refused or failed.
    Exception(ExceptionCode),
}

/// Whether the window `[start, start + quantity)` lies inside `[0, 32)`.
pub open spec fn window_ok(start: u16, quantity: u16) -> bool {
    start + quantity <= 32
}

/// The coils `[start, start + quantity)`, in ascending address order.
pub open spec fn read_bits(states: Seq<u8>, start: u16, quantity: u16) -> Seq<bool> {
    Seq::new(quantity as nat, |k: int| coil(states, start + k))
}

/// Whether a single-write value switches the coil on: its high byte is 0xFF.
pub open spec fn coil_on(value: u16) -> bool {
    value / 0x100 == 0xFF
}

/// The byte count that `quantity` packed coils take.
pub open spec fn packed_len(quantity: int) -> int {
    (quantity + 7) / 8
}

/// The first `quantity` bits of `payload`, least significant bit of each
/// byte first.
pub open spec fn payload_bits(payload: Seq<u8>, quantity: int) -> Seq<bool> {
    Seq::new(quantity as nat, |k: int| relay_bit(payload[k / 8], (k % 8) as u8))
}

/// The snapshots after coils `start .. start + n` were written, one at a
/// time in ascending order, with `bits[0 .. n]`.
pub open spec fn after_write_coils(states: Seq<u8>, start: int, bits: Seq<bool>, n: nat) -> Seq<
    u8,
>
    decreases n,
{
    if n == 0 {
        states
    } else {
        let a = start + n - 1;
        after_set_relay(
            after_write_coils(states, start, bits, (n - 1) as nat),
            (a / 8) as u8,
            (a % 8) as u8,
            bits[n - 1],
        )
    }
}

/// Writing coils `start .. start + n` sets exactly those coils to the given
/// bits and leaves every other coil as it was.
pub proof fn lemma_after_write_coils(states: Seq<u8>, start: int, bits: Seq<bool>, n: nat)
    requires
        states.len() == 4,
        0 <= start,
        start + n <= 32,
        n <= bits.len(),
    ensures
        after_write_coils(states, start, bits, n).len() == 4,
        forall|a: int|
            0 <= a < 32 ==> #[trigger] coil(after_write_coils(states, start, bits, n), a) == (
            if start <= a < start + n {
                bits[a - start]
            } else {
                coil(states, a)
            }),
    decreases n,
{
    if n > 0 {
        let prev = after_write_coils(states, start, bits, (n - 1) as nat);
        lemma_after_write_coils(states, start, bits, (n - 1) as nat);
        let w = start + n - 1;
        let b = (w / 8) as u8;
        let r = (w % 8) as u8;
        lemma_with_bit(prev[b as int], r, bits[n - 1]);
        let after = after_write_coils(states, start, bits, n);
        assert(after == prev.update(b as int, with_bit(prev[b as int], r, bits[n - 1])));
        assert forall|a: int| 0 <= a < 32 implies #[trigger] coil(after, a) == (if start <= a
            < start + n {
            bits[a - start]
        } else {
            coil(states, a)
        }) by {
            let ar = (a % 8) as u8;
            assert(coil(prev, a) == (if start <= a < start + n - 1 {
                bits[a - start]
            } else {
                coil(states, a)
            }));
            if a / 8 == b as int {
                assert(after[a / 8] == with_bit(prev[b as int], r, bits[n - 1]));
                assert(relay_bit(with_bit(prev[b as int], r, bits[n - 1]), ar) == (if ar == r {
                    bits[n - 1]
                } else {
                    relay_bit(prev[b as int], ar)
                }));
                assert(ar == r <==> a == w);
            } else {
                assert(after[a / 8] == prev[a / 8]);
                assert(a != w);
            }
        }
    }
}

/// What a coil read answers, given the bank snapshots.
pub open spec fn read_outcome(states: Seq<u8>, start: u16, quantity: u16, r: CoilResponse) -> bool {
    if window_ok(start, quantity) {
        match r {
            CoilResponse::Coils(bits) => bits@ == read_bits(states, start, quantity),
            _ => false,
        }
    } else {
        r == CoilResponse::Exception(ExceptionCode::IllegalDataAddress)
    }
}

/// What a single-coil write answers and does to the snapshots and output
/// records: an address outside `[0, 32)` touches nothing; otherwise the
/// coil's output is commanded exactly once, to on when the value's high
/// byte is 0xFF. If the output accepted, the answer is the echo and the
/// snapshot is updated; if it reported a fault, the answer is a device
/// failure and the snapshot is unchanged.
pub open spec fn single_outcome(
    before: Seq<u8>,
    after: Seq<u8>,
    before_outputs: Seq<Seq<(bool, bool)>>,
    after_outputs: Seq<Seq<(bool, bool)>>,
    address: u16,
    value: u16,
    r: CoilResponse,
) -> bool {
    if address >= 32 {
        r == CoilResponse::Exception(ExceptionCode::IllegalDataAddress) && after == before
            && after_outputs == before_outputs
    } else {
        let accepted = r == (CoilResponse::SingleEcho { address, value });
        &&& wrote_run(
            before_outputs,
            after_outputs,
            address as int,
            seq![(coil_on(value), accepted)],
        )
        &&& if accepted {
            after == after_set_relay(before, (address / 8) as u8, (address % 8) as u8, coil_on(value))
        } else {
            r == CoilResponse::Exception(ExceptionCode::SlaveDeviceFailure) && after == before
        }
    }
}

/// Whether a multiple-coil write's declared byte count and payload fit its
/// quantity.
pub open spec fn payload_ok(quantity: u16, byte_count: u8, payload: Seq<u8>) -> bool {
    byte_count == packed_len(quantity as int) && payload.len() == byte_count
}

/// What a multiple-coil write answers and does to the snapshots and output
/// records: a window or payload fault touches nothing. Otherwise the coils'
/// outputs are commanded in ascending address order, one command each. The
/// echo comes exactly when all `quantity` outputs accepted, with the
/// snapshots updated; a device failure comes when the output of coil
/// `start + n` reported a fault after the `n` before it accepted: no coil
/// after it was commanded, and the `n` coils before it are recorded.
pub open spec fn multiple_outcome(
    before: Seq<u8>,
    after: Seq<u8>,
    before_outputs: Seq<Seq<(bool, bool)>>,
    after_outputs: Seq<Seq<(bool, bool)>>,
    start: u16,
    quantity: u16,
    byte_count: u8,
    payload: Seq<u8>,
    r: CoilResponse,
) -> bool {
    if !window_ok(start, quantity) || !payload_ok(quantity, byte_count, payload) {
        r == CoilResponse::Exception(ExceptionCode::IllegalDataAddress) && after == before
            && after_outputs == before_outputs
    } else {
        let bits = payload_bits(payload, quantity as int);
        ||| r == (CoilResponse::MultipleEcho { start, quantity }) && after == after_write_coils(
            before,
            start as int,
            bits,
            quantity as nat,
        ) && wrote_run(before_outputs, after_outputs, start as int, all_accepted(bits))
        ||| r == CoilResponse::Exception(ExceptionCode::SlaveDeviceFailure) && exists|n: nat|
            n < quantity && after == #[trigger] after_write_coils(before, start as int, bits, n)
                && wrote_run(
                before_outputs,
                after_outputs,
                start as int,
                stopped_at_fault(bits, n + 1 as int),
            )
    }
}

/// What a decoded request answers and does to the snapshots and outputs; a
/// read or an unknown function touches nothing.
pub open spec fn request_outcome(
    before: Seq<u8>,
    after: Seq<u8>,
    before_outputs: Seq<Seq<(bool, bool)>>,
    after_outputs: Seq<Seq<(bool, bool)>>,
    request: CoilRequest,
    r: CoilResponse,
) -> bool {
    match request {
        CoilRequest::ReadCoils { start, quantity } => read_outcome(before, start, quantity, r)
            && after == before && after_outputs == before_outputs,
        CoilRequest::WriteSingleCoil { address, value } => single_outcome(
            before,
            after,
            before_outputs,
            after_outputs,
            address,
            value,
            r,
        ),
        CoilRequest::WriteMultipleCoils { start, quantity, byte_count, payload } =>
            multiple_outcome(
            before,
            after,
            before_outputs,
            after_outputs,
            start,
            quantity,
            byte_count,
            payload@,
            r,
        ),
        CoilRequest::Unknown { .. } => r == CoilResponse::Exception(
            ExceptionCode::IllegalFunction,
        ) && after == before && after_outputs == before_outputs,
    }
}

/// Whether a single-write value switches the coil on (high byte 0xFF); any
/// other value switches it off.
pub fn is_coil_on(value: u16) -> (r: bool)
    ensures
        r == coil_on(value),
{
    let high: u16 = value >> 8u16;
    assert(high == value / 0x100) by (bit_vector)
        requires
            high == value >> 8u16,
    ;
    high == 0xFF
}

/// The first `quantity` bits of `payload`, least significant bit of each
/// byte first.
pub fn unpack_coil_bits(payload: &Vec<u8>, quantity: u16) -> (r: Vec<bool>)
    requires
        quantity <= payload@.len() * 8,
    ensures
        r@ == payload_bits(payload@, quantity as int),
{
    let mut bits: Vec<bool> = Vec::new();
    let mut k: u16 = 0;
    while k < quantity
        invariant
            k <= quantity,
            quantity <= payload@.len() * 8,
            bits@ == payload_bits(payload@, k as int),
        decreases quantity - k,
    {
        let byte = payload[(k / 8) as usize];
        let bit = byte & (1u8 << ((k % 8) as u8)) != 0;
        bits.push(bit);
        assert(bits@ =~= payload_bits(payload@, k + 1));
        k = k + 1;
    }
    bits
}

/// Answers coil requests against the relay controller it owns.
pub struct ModbusHandler<P: RelayOutput> {
    relay_controller: RelayController<P>,
}

impl<P: RelayOutput> View for ModbusHandler<P> {
    type V = Seq<u8>;

    closed spec fn view(&self) -> Seq<u8> {
        self.relay_controller@
    }
}

impl<P: RelayOutput> ModbusHandler<P> {
    /// The controller is well formed.
    pub closed spec fn wf(&self) -> bool {
        self.relay_controller.wf()
    }

    /// The commands issued to each of the 32 outputs so far, as (level,
    /// accepted) pairs, in coil-address order.
    pub closed spec fn issued(&self) -> Seq<Seq<(bool, bool)>> {
        self.relay_controller.issued()
    }

    /// A well-formed handler holds four bank snapshots and 32 outputs.
    pub proof fn lemma_wf(&self)
        requires
            self.wf(),
        ensures
            self@.len() == 4,
            self.issued().len() == 32,
    {
        self.relay_controller.lemma_wf();
    }

    /// A handler over `relay_controller`.
    pub fn new(relay_controller: RelayController<P>) -> (r: Self)
        requires
            relay_controller.wf(),
        ensures
            r.wf(),
            r@ == relay_controller@,
            r.issued() == relay_controller.issued(),
    {
        ModbusHandler { relay_controller }
    }

    /// The controller this handler drives.
    pub fn relay_controller(&self) -> (r: &RelayController<P>)
        requires
            self.wf(),
        ensures
            r.wf(),
            r@ == self@,
    {
        &self.relay_controller
    }

    /// Reads coils `[start, start + quantity)` in ascending address order.
    pub fn handle_read_coils(&self, start: u16, quantity: u16) -> (r: CoilResponse)
        requires
            self.wf(),
        ensures
            read_outcome(self@, start, quantity, r),
    {
        if start as u32 + quantity as u32 > COIL_COUNT as u32 {
            return CoilResponse::Exception(ExceptionCode::IllegalDataAddress);
        }
        let end: u16 = start + quantity;
        let mut bits: Vec<bool> = Vec::new();
        let mut i: u16 = start;
        while i < end
            invariant
                self.wf(),
                start <= i <= end,
                end == start + quantity,
                end <= 32,
                bits@ == read_bits(self@, start, (i - start) as u16),
            decreases end - i,
        {
            let state = match self.relay_controller.get_relay_state((i / 8) as u8, (i % 8) as u8) {
                Some(s) => s,
                None => false,
            };
            bits.push(state);
            assert(bits@ =~= read_bits(self@, start, (i + 1 - start) as u16));
            i = i + 1;
        }
        CoilResponse::Coils(bits)
    }

    /// Writes one coil: on when the value's high byte is 0xFF, off otherwise.
    /// On success the address and value are echoed unchanged.
    pub fn handle_write_single_coil(&mut self, address: u16, value: u16) -> (r: CoilResponse)
        requires
            old(self).wf(),
        ensures
            final(self).wf(),
            single_outcome(
                old(self)@,
                final(self)@,
                old(self).issued(),
                final(self).issued(),
                address,
                value,
                r,
            ),
    {
        if address >= COIL_COUNT {
            return CoilResponse::Exception(ExceptionCode::IllegalDataAddress);
        }
        let on = is_coil_on(value);
        let r = self.relay_controller.set_relay((address / 8) as u8, (address % 8) as u8, on);
        assert(8 * ((address / 8) as u8) + (address % 8) as u8 == address);
        match r {
            Ok(()) => CoilResponse::SingleEcho { address, value },
            Err(_) => CoilResponse::Exception(ExceptionCode::SlaveDeviceFailure),
        }
    }

    /// Writes coils `[start, start + quantity)` from the packed payload, in
    /// ascending address order. The window and the byte count are checked
    /// before any write; the first failed output stops the rest, and the
    /// coils written before it stay written.
    pub fn handle_write_multiple_coils(
        &mut self,
        start: u16,
        quantity: u16,
        byte_count: u8,
        payload: &Vec<u8>,
    ) -> (r: CoilResponse)
        requires
            old(self).wf(),
        ensures
            final(self).wf(),
            multiple_outcome(
                old(self)@,
                final(self)@,
                old(self).issued(),
                final(self).issued(),
                start,
                quantity,
                byte_count,
                payload@,
                r,
            ),
    {
        if start as u32 + quantity as u32 > COIL_COUNT as u32 {
            return CoilResponse::Exception(ExceptionCode::IllegalDataAddress);
        }
        if byte_count as u32 != (quantity as u32 + 7) / 8 || payload.len() != byte_count as usize {
            return CoilResponse::Exception(ExceptionCode::IllegalDataAddress);
        }
        let bits = unpack_coil_bits(payload, quantity);
        let ghost before = self@;
        proof {
            self.lemma_wf();
            assert(all_accepted(bits@.take(0)) =~= Seq::<(bool, bool)>::empty());
            lemma_run_empty(self.issued(), start as int);
        }
        let mut i: u16 = 0;
        while i < quantity
            invariant
                self.wf(),
                i <= quantity,
                start + quantity <= 32,
                payload_ok(quantity, byte_count, payload@),
                bits@ == payload_bits(payload@, quantity as int),
                before == old(self)@,
                self@ == after_write_coils(before, start as int, bits@, i as nat),
                wrote_run(
                    old(self).issued(),
                    self.issued(),
                    start as int,
                    all_accepted(bits@.take(i as int)),
                ),
            decreases quantity - i,
        {
            let a: u16 = start + i;
            let ghost mid = self.issued();
            let level = bits[i as usize];
            let r = self.relay_controller.set_relay((a / 8) as u8, (a % 8) as u8, level);
            let ghost entry = (level, r is Ok);
            proof {
                assert(8 * ((a / 8) as u8) + (a % 8) as u8 == a);
                lemma_run_extend(
                    old(self).issued(),
                    mid,
                    self.issued(),
                    start as int,
                    all_accepted(bits@.take(i as int)),
                    entry,
                );
                if r is Ok {
                    assert(all_accepted(bits@.take(i + 1)) =~= all_accepted(
                        bits@.take(i as int),
                    ).push(entry));
                } else {
                    assert(stopped_at_fault(bits@, i + 1) =~= all_accepted(
                        bits@.take(i as int),
                    ).push(entry));
                }
            }
            match r {
                Ok(()) => {},
                Err(_) => {
                    assert(self@ == after_write_coils(before, start as int, bits@, i as nat));
                    return CoilResponse::Exception(ExceptionCode::SlaveDeviceFailure);
                },
            }
            i = i + 1;
        }
        assert(bits@.take(quantity as int) =~= bits@);
        assert(all_accepted(bits@.take(quantity as int)) == all_accepted(bits@));
        CoilResponse::MultipleEcho { start, quantity }
    }

    /// Answers a decoded request; an unknown function code is always an
    /// illegal-function exception, whatever else the request holds.
    pub fn handle_request(&mut self, request: &CoilRequest) -> (r: CoilResponse)
        requires
            old(self).wf(),
        ensures
            final(self).wf(),
            request_outcome(
                old(self)@,
                final(self)@,
                old(self).issued(),
                final(self).issued(),
                *request,
                r,
            ),
    {
        match request {
            CoilRequest::ReadCoils { start, quantity } => self.handle_read_coils(*start, *quantity),
            CoilRequest::WriteSingleCoil { address, value } => self.handle_write_single_coil(
                *address,
                *value,
            ),
            CoilRequest::WriteMultipleCoils { start, quantity, byte_count, payload } =>
                self.handle_write_multiple_coils(*start, *quantity, *byte_count, payload),
            CoilRequest::Unknown { .. } => CoilResponse::Exception(ExceptionCode::IllegalFunction),
        }
    }
}

/// The big-endian 16-bit value of the bytes `hi`, `lo`.
pub open spec fn be_value(hi: u8, lo: u8) -> u16 {
    (hi * 0x100 + lo) as u16
}

fn be_u16(hi: u8, lo: u8) -> (r: u16)
    ensures
        r == be_value(hi, lo),
{
    let r: u16 = ((hi as u16) << 8u16) | (lo as u16);
    assert(r == (hi as u16) * 0x100 + (lo as u16)) by (bit_vector)
        requires
            r == ((hi as u16) << 8u16) | (lo as u16),
    ;
    r
}

/// Decodes the data of a request frame with function code `function_code`.
///
/// Fields are big-endian: a read or single write carries two 16-bit fields
/// (start or address, then quantity or value); a multiple write carries
/// start, quantity, a byte count, then the packed payload. Bytes past the
/// fields of a read or single write are ignored. A frame too short for its
/// fields gives `None`; any other function code decodes to `Unknown`,
/// whatever the data.
pub fn decode_request(function_code: u8, data: &Vec<u8>) -> (r: Option<CoilRequest>)
    ensures
        function_code != READ_COILS && function_code != WRITE_SINGLE_COIL && function_code
            != WRITE_MULTIPLE_COILS ==> r == Some(CoilRequest::Unknown { function_code }),
        function_code == READ_COILS ==> r == (if data@.len() >= 4 {
            Some(
                CoilRequest::ReadCoils {
                    start: be_value(data@[0], data@[1]),
                    quantity: be_value(data@[2], data@[3]),
                },
            )
        } else {
            None
        }),
        function_code == WRITE_SINGLE_COIL ==> r == (if data@.len() >= 4 {
            Some(
                CoilRequest::WriteSingleCoil {
                    address: be_value(data@[0], data@[1]),
                    value: be_value(data@[2], data@[3]),
                },
            )
        } else {
            None
        }),
        function_code == WRITE_MULTIPLE_COILS ==> (if data@.len() >= 5 {
            r matches Some(CoilRequest::WriteMultipleCoils { start, quantity, byte_count, payload })
                && start == be_value(data@[0], data@[1]) && quantity == be_value(data@[2], data@[3])
                && byte_count == data@[4] && payload@ == data@.subrange(5, data@.len() as int)
        } else {
            r is None
        }),
{
    if function_code != READ_COILS && function_code != WRITE_SINGLE_COIL && function_code
        != WRITE_MULTIPLE_COILS {
        return Some(CoilRequest::Unknown { function_code });
    }
    if data.len() < 4 {
        return None;
    }
    let first = be_u16(data[0], data[1]);
    let second = be_u16(data[2], data[3]);
    if function_code == READ_COILS {
        Some(CoilRequest::ReadCoils { start: first, quantity: second })
    } else if function_code == WRITE_SINGLE_COIL {
        Some(CoilRequest::WriteSingleCoil { address: first, value: second })
    } else {
        if data.len() < 5 {
            return None;
        }
        let mut payload: Vec<u8> = Vec::new();
        let mut k: usize = 5;
        while k < data.len()
            invariant
                5 <= k <= data@.len(),
                payload@ == data@.subrange(5, k as int),
            decreases data@.len() - k,
        {
            payload.push(data[k]);
            assert(payload@ =~= data@.subrange(5, k + 1));
            k = k + 1;
        }
        Some(
            CoilRequest::WriteMultipleCoils {
                start: first,
                quantity: second,
                byte_count: data[4],
                payload,
            },
        )
    }
}

/// What a request frame answers and does to the snapshots and outputs: a
/// frame too short for its fields is an illegal-data-address exception and
/// touches nothing.
pub open spec fn frame_outcome(
    before: Seq<u8>,
    after: Seq<u8>,
    before_outputs: Seq<Seq<(bool, bool)>>,
    after_outputs: Seq<Seq<(bool, bool)>>,
    function_code: u8,
    data: Seq<u8>,
    r: CoilResponse,
) -> bool {
    let untouched = after == before && after_outputs == before_outputs;
    if function_code == READ_COILS {
        if data.len() >= 4 {
            read_outcome(before, be_value(data[0], data[1]), be_value(data[2], data[3]), r)
                && untouched
        } else {
            r == CoilResponse::Exception(ExceptionCode::IllegalDataAddress) && untouched
        }
    } else if function_code == WRITE_SINGLE_COIL {
        if data.len() >= 4 {
            single_outcome(
                before,
                after,
                before_outputs,
                after_outputs,
                be_value(data[0], data[1]),
                be_value(data[2], data[3]),
                r,
            )
        } else {
            r == CoilResponse::Exception(ExceptionCode::IllegalDataAddress) && untouched
        }
    } else if function_code == WRITE_MULTIPLE_COILS {
        if data.len() >= 5 {
            multiple_outcome(
                before,
                after,
                before_outputs,
                after_outputs,
                be_value(data[0], data[1]),
                be_value(data[2], data[3]),
                data[4],
                data.subrange(5, data.len() as int),
                r,
            )
        } else {
            r == CoilResponse::Exception(ExceptionCode::IllegalDataAddress) && untouched
        }
    } else {
        r == CoilResponse::Exception(ExceptionCode::IllegalFunction) && untouched
    }
}

impl<P: RelayOutput> ModbusHandler<P> {
    /// Decodes and answers one request frame.
    pub fn handle_frame(&mut self, function_code: u8, data: &Vec<u8>) -> (r: CoilResponse)
        requires
            old(self).wf(),
        ensures
            final(self).wf(),
            frame_outcome(
                old(self)@,
                final(self)@,
                old(self).issued(),
                final(self).issued(),
                function_code,
                data@,
                r,
            ),
    {
        match decode_request(function_code, data) {
            Some(request) => self.handle_request(&request),
            None => CoilResponse::Exception(ExceptionCode::IllegalDataAddress),
        }
    }
}

/// Whether `packed` holds `bits` least significant bit first, with the
/// unused high bits of the last byte clear.
pub open spec fn packs(packed: Seq<u8>, bits: Seq<bool>) -> bool {
    &&& packed.len() == packed_len(bits.len() as int)
    &&& forall|k: int|
        0 <= k < 8 * packed.len() ==> #[trigger] relay_bit(packed[k / 8], (k % 8) as u8) == (k
            < bits.len() && bits[k])
}

/// Packing then unpacking coil bits gives them back.
pub proof fn lemma_pack_round_trip(packed: Seq<u8>, bits: Seq<bool>)
    requires
        packs(packed, bits),
    ensures
        payload_bits(packed, bits.len() as int) == bits,
{
    assert forall|k: int| 0 <= k < bits.len() implies #[trigger] payload_bits(
        packed,
        bits.len() as int,
    )[k] == bits[k] by {
        assert(relay_bit(packed[k / 8], (k % 8) as u8) == (k < bits.len() && bits[k]));
    }
    assert(payload_bits(packed, bits.len() as int) =~= bits);
}

/// Packs coil bits into bytes, the first coil in the least significant bit
/// of the first byte.
pub fn pack_coil_bits(bits: &Vec<bool>) -> (r: Vec<u8>)
    ensures
        packs(r@, bits@),
{
    let n = bits.len();
    let byte_len: usize = n / 8 + if n % 8 != 0 {
        1
    } else {
        0
    };
    let mut out: Vec<u8> = Vec::new();
    let mut j: usize = 0;
    while j < byte_len
        invariant
            n == bits@.len(),
            byte_len == packed_len(n as int),
            j <= byte_len,
            out@.len() == j,
            forall|k: int|
                0 <= k < 8 * j ==> #[trigger] relay_bit(out@[k / 8], (k % 8) as u8) == (k < n
                    && bits@[k]),
        decreases byte_len - j,
    {
        let base: usize = j * 8;
        let mut byte: u8 = 0;
        assert forall|kk: u8| kk < 8 implies !#[trigger] relay_bit(0u8, kk) by {
            assert(0u8 & (1u8 << kk) == 0) by (bit_vector);
        }
        let mut k: u8 = 0;
        while k < 8
            invariant
                n == bits@.len(),
                base == 8 * j,
                base < n,
                k <= 8,
                forall|kk: u8|
                    kk < 8 ==> #[trigger] relay_bit(byte, kk) == (kk < k && base + kk < n
                        && bits@[base + kk]),
            decreases 8 - k,
        {
            let ghost prev = byte;
            let set = (k as usize) < n - base && bits[base + k as usize];
            if set {
                byte = byte | (1u8 << k);
            }
            proof {
                lemma_with_bit(prev, k, true);
                assert forall|kk: u8| kk < 8 implies #[trigger] relay_bit(byte, kk) == (kk < k + 1
                    && base + kk < n && bits@[base + kk]) by {
                    if set {
                        assert(byte == with_bit(prev, k, true));
                        assert(relay_bit(with_bit(prev, k, true), kk) == (if kk == k {
                            true
                        } else {
                            relay_bit(prev, kk)
                        }));
                    } else {
                        assert(byte == prev);
                    }
                }
            }
            k = k + 1;
        }
        out.push(byte);
        assert forall|k: int| 0 <= k < 8 * (j + 1) implies #[trigger] relay_bit(
            out@[k / 8],
            (k % 8) as u8,
        ) == (k < n && bits@[k]) by {
            if k >= 8 * j {
                assert(k / 8 == j);
                assert(relay_bit(byte, (k % 8) as u8) == ((k % 8) < 8 && base + (k % 8) < n
                    && bits@[base + (k % 8)]));
            }
        }
        j = j + 1;
    }
    out
}

/// The high byte of `x`.
pub open spec fn high_byte(x: u16) -> u8 {
    (x / 0x100) as u8
}

/// The low byte of `x`.
pub open spec fn low_byte(x: u16) -> u8 {
    (x % 0x100) as u8
}

/// Whether `bytes` is the response frame for `response` to a request with
/// function code `function_code`: the coils read as a byte count and the
/// packed bits; an echo as its two big-endian fields; an exception as the
/// function code with its high bit set, then the exception byte.
pub open spec fn encodes(function_code: u8, response: CoilResponse, bytes: Seq<u8>) -> bool {
    match response {
        CoilResponse::Coils(bits) => {
            &&& bytes.len() >= 2
            &&& bytes[0] == function_code
            &&& bytes[1] == bytes.len() - 2
            &&& packs(bytes.subrange(2, bytes.len() as int), bits@)
        },
        CoilResponse::SingleEcho { address, value } => bytes == seq![
            function_code,
            high_byte(address),
            low_byte(address),
            high_byte(value),
            low_byte(value),
        ],
        CoilResponse::MultipleEcho { start, quantity } => bytes == seq![
            function_code,
            high_byte(start),
            low_byte(start),
            high_byte(quantity),
            low_byte(quantity),
        ],
        CoilResponse::Exception(e) => bytes == seq![function_code | 0x80u8, exception_byte(e)],
    }
}

fn push_be_u16(out: &mut Vec<u8>, x: u16)
    ensures
        final(out)@ == old(out)@.push(high_byte(x)).push(low_byte(x)),
{
    out.push((x / 0x100) as u8);
    out.push((x % 0x100) as u8);
}

/// Encodes the response to a request with function code `function_code`.
pub fn encode_response(function_code: u8, response: &CoilResponse) -> (r: Vec<u8>)
    requires
        response matches CoilResponse::Coils(bits) ==> bits@.len() <= 8 * 255,
    ensures
        encodes(function_code, *response, r@),
{
    let mut out: Vec<u8> = Vec::new();
    match response {
        CoilResponse::Coils(bits) => {
            let packed = pack_coil_bits(bits);
            out.push(function_code);
            out.push(packed.len() as u8);
            let mut k: usize = 0;
            while k < packed.len()
                invariant
                    packed@.len() <= 255,
                    k <= packed@.len(),
                    out@.len() == 2 + k,
                    out@[0] == function_code,
                    out@[1] == packed@.len(),
                    out@.subrange(2, out@.len() as int) == packed@.subrange(0, k as int),
                decreases packed@.len() - k,
            {
                out.push(packed[k]);
                assert(out@.subrange(2, out@.len() as int) =~= packed@.subrange(0, k + 1));
                k = k + 1;
            }
            assert(packed@.subrange(0, k as int) =~= packed@);
        },
        CoilResponse::SingleEcho { address, value } => {
            out.push(function_code);
            push_be_u16(&mut out, *address);
            push_be_u16(&mut out, *value);
            assert(out@ =~= seq![
                function_code,
                high_byte(*address),
                low_byte(*address),
                high_byte(*value),
                low_byte(*value),
            ]);
        },
        CoilResponse::MultipleEcho { start, quantity } => {
            out.push(function_code);
            push_be_u16(&mut out, *start);
            push_be_u16(&mut out, *quantity);
            assert(out@ =~= seq![
                function_code,
                high_byte(*start),
                low_byte(*start),
                high_byte(*quantity),
                low_byte(*quantity),
            ]);
        },
        CoilResponse::Exception(e) => {
            out.push(function_code | 0x80u8);
            out.push(e.code());
            assert(out@ =~= seq![function_code | 0x80u8, exception_byte(*e)]);
        },
    }
    out
}

impl<P: RelayOutput> ModbusHandler<P> {
    /// Carries out a control command on the controller this handler owns.
    pub fn apply_control(&mut self, cmd: ControlCommand) -> (r: Result<(), RelayError>)
        requires
            old(self).wf(),
        ensures
            final(self).wf(),
            bank_write_outcome(
                old(self)@,
                final(self)@,
                old(self).issued(),
                final(self).issued(),
                cmd.bank,
                cmd.mask,
                r,
            ),
    {
        self.relay_controller.apply_control(cmd)
    }
}

} // verus!
