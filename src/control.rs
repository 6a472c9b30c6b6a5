use vstd::prelude::*;
use crate::relays::{bank_write_outcome, RelayController, RelayError, RelayOutput};

verus! {

/// A network control command: set one bank to an 8-bit mask (bit i drives
/// relay i).
#[derive(Clone, Copy, Debug, PartialEq, Eq, Structural)]
pub struct ControlCommand {
    pub bank: u8,
    pub mask: u8,
}

/// The mask a control body's `true` or `false` stands for: every relay of
/// the bank on, or every relay off.
pub open spec fn state_mask(on: bool) -> u8 {
    if on {
        0xFF
    } else {
        0x00
    }
}

/// The decimal digits of `n`, most significant first, without leading zeros.
pub open spec fn decimal(n: nat) -> Seq<u8>
    decreases n,
{
    if n < 10 {
        seq![(0x30 + n) as u8]
    } else {
        decimal(n / 10).push((0x30 + n % 10) as u8)
    }
}

/// The text `{"bank":`.
pub open spec fn bank_key() -> Seq<u8> {
    seq![0x7Bu8, 0x22, 0x62, 0x61, 0x6E, 0x6B, 0x22, 0x3A]
}

/// The text `,"state":`.
pub open spec fn state_key() -> Seq<u8> {
    seq![0x2Cu8, 0x22, 0x73, 0x74, 0x61, 0x74, 0x65, 0x22, 0x3A]
}

/// The text `true` or `false`.
pub open spec fn flag_text(on: bool) -> Seq<u8> {
    if on {
        seq![0x74u8, 0x72, 0x75, 0x65]
    } else {
        seq![0x66u8, 0x61, 0x6C, 0x73, 0x65]
    }
}

/// The body `{"bank":<bank>,"state":<true|false>}`.
pub open spec fn control_body(bank: u8, on: bool) -> Seq<u8> {
    bank_key() + decimal(bank as nat) + state_key() + flag_text(on) + seq![0x7Du8]
}

/// Whether `c` is an ASCII decimal digit.
pub open spec fn is_digit(c: u8) -> bool {
    0x30 <= c <= 0x39
}

/// The value of a run of decimal digits.
pub open spec fn digits_value(s: Seq<u8>) -> nat
    decreases s.len(),
{
    if s.len() == 0 {
        0
    } else {
        digits_value(s.drop_last()) * 10 + (s.last() - 0x30) as nat
    }
}

proof fn lemma_decimal(n: nat)
    requires
        n < 1000,
    ensures
        1 <= decimal(n).len() <= 3,
        n < 10 ==> decimal(n).len() == 1,
        n < 100 ==> decimal(n).len() <= 2,
        forall|i: int| 0 <= i < decimal(n).len() ==> is_digit(#[trigger] decimal(n)[i]),
        digits_value(decimal(n)) == n,
    decreases n,
{
    let d = decimal(n);
    if n >= 10 {
        lemma_decimal(n / 10);
        assert(d.drop_last() =~= decimal(n / 10));
        assert(d.last() == (0x30 + n % 10) as u8);
        assert(digits_value(d) == digits_value(decimal(n / 10)) * 10 + n % 10);
        assert((n / 10) * 10 + n % 10 == n);
    } else {
        assert(d.drop_last() =~= Seq::<u8>::empty());
        assert(digits_value(Seq::<u8>::empty()) == 0);
    }
}

fn push_text(out: &mut Vec<u8>, text: &[u8])
    ensures
        final(out)@ == old(out)@ + text@,
{
    let mut k: usize = 0;
    while k < text.len()
        invariant
            k <= text@.len(),
            out@ == old(out)@ + text@.subrange(0, k as int),
        decreases text@.len() - k,
    {
        out.push(text[k]);
        assert(out@ =~= old(out)@ + text@.subrange(0, k + 1));
        k = k + 1;
    }
    assert(text@.subrange(0, k as int) =~= text@);
}

/// Renders the control body that sets bank `bank` all on or all off.
pub fn render_control(bank: u8, on: bool) -> (r: Vec<u8>)
    ensures
        r@ == control_body(bank, on),
{
    let mut out: Vec<u8> = Vec::new();
    let key: [u8; 8] = [0x7B, 0x22, 0x62, 0x61, 0x6E, 0x6B, 0x22, 0x3A];
    push_text(&mut out, key.as_slice());
    assert(out@ =~= bank_key());
    let b = bank;
    proof {
        reveal_with_fuel(decimal, 3);
    }
    if b >= 100 {
        out.push(0x30 + b / 100);
    }
    if b >= 10 {
        out.push(0x30 + (b / 10) % 10);
    }
    out.push(0x30 + b % 10);
    assert(out@ =~= bank_key() + decimal(b as nat)) by {
        if b >= 100 {
            assert(decimal(b as nat) =~= seq![
                (0x30 + b / 100) as u8,
                (0x30 + (b / 10) % 10) as u8,
                (0x30 + b % 10) as u8,
            ]);
        } else if b >= 10 {
            assert(decimal(b as nat) =~= seq![(0x30 + b / 10) as u8, (0x30 + b % 10) as u8]);
        }
    }
    let state: [u8; 9] = [0x2C, 0x22, 0x73, 0x74, 0x61, 0x74, 0x65, 0x22, 0x3A];
    push_text(&mut out, state.as_slice());
    assert(state@ =~= state_key());
    if on {
        let t: [u8; 4] = [0x74, 0x72, 0x75, 0x65];
        push_text(&mut out, t.as_slice());
        assert(t@ =~= flag_text(true));
    } else {
        let f: [u8; 5] = [0x66, 0x61, 0x6C, 0x73, 0x65];
        push_text(&mut out, f.as_slice());
        assert(f@ =~= flag_text(false));
    }
    out.push(0x7D);
    assert(out@ =~= control_body(bank, on));
    out
}

fn same_bytes(a: &Vec<u8>, b: &Vec<u8>) -> (r: bool)
    ensures
        r == (a@ == b@),
{
    if a.len() != b.len() {
        return false;
    }
    let mut k: usize = 0;
    while k < a.len()
        invariant
            a@.len() == b@.len(),
            k <= a@.len(),
            a@.subrange(0, k as int) == b@.subrange(0, k as int),
        decreases a@.len() - k,
    {
        if a[k] != b[k] {
            assert(a@[k as int] != b@[k as int]);
            return false;
        }
        assert(a@.subrange(0, k + 1) =~= a@.subrange(0, k as int).push(a@[k as int]));
        assert(b@.subrange(0, k + 1) =~= b@.subrange(0, k as int).push(b@[k as int]));
        k = k + 1;
    }
    assert(a@ =~= a@.subrange(0, k as int));
    assert(b@ =~= b@.subrange(0, k as int));
    true
}

/// Parses a control body `{"bank":<bank>,"state":<true|false>}`, the bank
/// in decimal without leading zeros, into a command with mask 0xFF (`true`)
/// or 0x00 (`false`); any other body gives `None`.
pub fn parse_control_command(body: &Vec<u8>) -> (r: Option<ControlCommand>)
    ensures
        r matches Some(c) ==> (body@ == control_body(c.bank, true) && c.mask == state_mask(true))
            || (body@ == control_body(c.bank, false) && c.mask == state_mask(false)),
        r is None ==> forall|bank: u8, on: bool| body@ != #[trigger] control_body(bank, on),
{
    let n = body.len();
    let mut k: usize = 8;
    let mut value: u32 = 0;
    if n < 8 {
        proof {
            assert forall|bank: u8, on: bool| body@ != #[trigger] control_body(bank, on) by {
                assert(control_body(bank, on).len() >= 8);
            }
        }
        return None;
    }
    while k < n && k < 11 && 0x30 <= body[k] && body[k] <= 0x39
        invariant
            n == body@.len(),
            8 <= k <= 11,
            k <= n,
            forall|i: int| 8 <= i < k ==> is_digit(#[trigger] body@[i]),
            value == digits_value(body@.subrange(8, k as int)),
            k == 8 ==> value == 0,
            k == 9 ==> value < 10,
            k == 10 ==> value < 100,
            value < 1000,
        decreases 11 - k,
    {
        assert(body@.subrange(8, k + 1).drop_last() =~= body@.subrange(8, k as int));
        value = value * 10 + (body[k] - 0x30) as u32;
        k = k + 1;
    }
    proof {
        assert forall|bank: u8, on: bool| #[trigger]
            control_body(bank, on) == body@ implies k == 8 + decimal(bank as nat).len()
            && value == bank by {
            let d = decimal(bank as nat);
            lemma_decimal(bank as nat);
            let cb = control_body(bank, on);
            let len = d.len() as int;
            assert(forall|i: int| 0 <= i < len ==> cb[8 + i] == d[i]);
            assert(cb[8 + len] == 0x2Cu8);
            if k < 8 + len {
                assert(is_digit(cb[k as int]));
            } else if k > 8 + len {
                assert(is_digit(body@[8 + len]));
            }
            assert(body@.subrange(8, k as int) =~= d);
        }
    }
    if k == 8 || value > 255 {
        return None;
    }
    let bank = value as u8;
    let on_body = render_control(bank, true);
    if same_bytes(&on_body, body) {
        assert(body@ == control_body(bank, true) && state_mask(true) == 0xFFu8);
        return Some(ControlCommand { bank, mask: 0xFF });
    }
    let off_body = render_control(bank, false);
    if same_bytes(&off_body, body) {
        assert(body@ == control_body(bank, false) && state_mask(false) == 0x00u8);
        return Some(ControlCommand { bank, mask: 0x00 });
    }
    None
}

/// Ticks between two commands of the simulated serial peer.
pub const SIMULATION_PERIOD: u32 = 50;

/// The command the simulated serial peer issues at tick `counter`: every
/// 50th tick it sets bank `(counter / 50) % 4` all on (even tick) or all off
/// (odd tick); on other ticks nothing.
pub fn simulation_step(counter: u32) -> (r: Option<ControlCommand>)
    ensures
        counter % 50 != 0 ==> r is None,
        counter % 50 == 0 ==> r == Some(
            ControlCommand {
                bank: ((counter / 50) % 4) as u8,
                mask: state_mask(counter % 2 == 0),
            },
        ),
{
    if counter % SIMULATION_PERIOD != 0 {
        return None;
    }
    let bank = ((counter / SIMULATION_PERIOD) % 4) as u8;
    let mask: u8 = if counter % 2 == 0 {
        0xFF
    } else {
        0x00
    };
    Some(ControlCommand { bank, mask })
}

impl<P: RelayOutput> RelayController<P> {
    /// Carries out a control command: bank `cmd.bank` is set to `cmd.mask`.
    pub fn apply_control(&mut self, cmd: ControlCommand) -> (r: Result<(), RelayError>)
        requires
            old(self).wf(),
        ensures
            final(self).wf(),
            bank_write_outcome(
                old(self)@,
                final(self)@,
                old(self).issued(),
                final(self).issued(),
                cmd.bank,
                cmd.mask,
                r,
            ),
    {
        self.set_bank(cmd.bank, cmd.mask)
    }
}

} // verus!
