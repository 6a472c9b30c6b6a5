use vstd::prelude::*;
use crate::output::CommandedOutput;

verus! {

/// Number of relays in one bank.
pub const RELAYS_PER_BANK: u8 = 8;

/// Number of banks held by a controller.
pub const BANK_COUNT: u8 = 4;

/// The fault a digital output reports when it could not apply a command.
#[derive(Clone, Copy, Debug, PartialEq, Eq, Structural)]
pub struct OutputFault;

/// A settable digital output driving one relay coil, implemented by the
/// hardware layer; nothing is assumed of the outcome.
pub trait RelayOutput {
    /// Drives the output high (`energized`) or low.
    fn set_state(&mut self, energized: bool) -> Result<(), OutputFault>;
}

/// Errors of the relay state store.
#[derive(Clone, Copy, Debug, PartialEq, Eq, Structural)]
pub enum RelayError {
    /// A bank index outside `[0, 4)`.
    BankOutOfRange,
    /// A relay index outside `[0, 8)`.
    IndexOutOfRange,
    /// The output handle failed to apply the command.
    OutputFailure,
}

/// Whether relay `relay` is energized in the 8-bit snapshot `state`.
pub open spec fn relay_bit(state: u8, relay: u8) -> bool {
    state & (1u8 << relay) != 0
}

/// The snapshot `state` with relay `relay` set to `on`.
pub open spec fn with_bit(state: u8, relay: u8, on: bool) -> u8 {
    if on {
        state | (1u8 << relay)
    } else {
        state & !(1u8 << relay)
    }
}

/// The levels a whole-bank write of `mask` commands, relay 0 first.
pub open spec fn mask_levels(mask: u8) -> Seq<bool> {
    Seq::new(8, |i: int| relay_bit(mask, i as u8))
}

/// `after` is the per-output record `before` where outputs `first`,
/// `first + 1`, ... each got one more entry, `levels[0]`, `levels[1]`, ...
/// in turn, and no other output got one.
pub open spec fn wrote_run<T>(
    before: Seq<Seq<T>>,
    after: Seq<Seq<T>>,
    first: int,
    levels: Seq<T>,
) -> bool {
    &&& 0 <= first
    &&& first + levels.len() <= before.len()
    &&& after == Seq::new(
        before.len(),
        |a: int|
            if first <= a < first + levels.len() {
                before[a].push(levels[a - first])
            } else {
                before[a]
            },
    )
}

/// Commanding no output is an empty run.
pub proof fn lemma_run_empty<T>(before: Seq<Seq<T>>, first: int)
    requires
        0 <= first <= before.len(),
    ensures
        wrote_run(before, before, first, Seq::<T>::empty()),
{
    let levels = Seq::<T>::empty();
    assert(before =~= Seq::new(
        before.len(),
        |a: int|
            if first <= a < first + levels.len() {
                before[a].push(levels[a - first])
            } else {
                before[a]
            },
    ));
}

/// Commanding one output is a run of one command.
pub proof fn lemma_run_one<T>(before: Seq<Seq<T>>, index: int, level: T)
    requires
        0 <= index < before.len(),
    ensures
        wrote_run(before, before.update(index, before[index].push(level)), index, seq![level]),
{
    let levels = seq![level];
    assert(before.update(index, before[index].push(level)) =~= Seq::new(
        before.len(),
        |a: int|
            if index <= a < index + levels.len() {
                before[a].push(levels[a - index])
            } else {
                before[a]
            },
    ));
}

/// Two runs of commands, the second starting where the first ends, make one
/// run.
pub proof fn lemma_run_extend<T>(
    before: Seq<Seq<T>>,
    mid: Seq<Seq<T>>,
    after: Seq<Seq<T>>,
    first: int,
    levels: Seq<T>,
    level: T,
)
    requires
        wrote_run(before, mid, first, levels),
        wrote_run(mid, after, first + levels.len(), seq![level]),
    ensures
        wrote_run(before, after, first, levels.push(level)),
{
    let l2 = levels.push(level);
    assert(after =~= Seq::new(
        before.len(),
        |a: int|
            if first <= a < first + l2.len() {
                before[a].push(l2[a - first])
            } else {
                before[a]
            },
    ));
}

/// The record of commands to `levels`, each one accepted by its output.
pub open spec fn all_accepted(levels: Seq<bool>) -> Seq<(bool, bool)> {
    Seq::new(levels.len(), |i: int| (levels[i], true))
}

/// The record of commands to `levels[0 .. k]` where every command but the
/// last was accepted and the last one reported a fault.
pub open spec fn stopped_at_fault(levels: Seq<bool>, k: int) -> Seq<(bool, bool)> {
    Seq::new(k as nat, |i: int| (levels[i], i < k - 1))
}

/// Setting one bit changes that bit and no other.
pub proof fn lemma_with_bit(state: u8, relay: u8, on: bool)
    requires
        relay < 8,
    ensures
        forall|j: u8|
            #![trigger relay_bit(with_bit(state, relay, on), j)]
            j < 8 ==> relay_bit(with_bit(state, relay, on), j) == (if j == relay {
                on
            } else {
                relay_bit(state, j)
            }),
{
    assert forall|j: u8| j < 8 implies relay_bit(with_bit(state, relay, on), j) == (if j
        == relay {
        on
    } else {
        relay_bit(state, j)
    }) by {
        if on {
            assert((state | (1u8 << relay)) & (1u8 << j) != 0 <==> (j == relay || state & (1u8
                << j) != 0)) by (bit_vector)
                requires
                    relay < 8,
                    j < 8,
            ;
        } else {
            assert((state & !(1u8 << relay)) & (1u8 << j) != 0 <==> (j != relay && state & (1u8
                << j) != 0)) by (bit_vector)
                requires
                    relay < 8,
                    j < 8,
            ;
        }
    }
}

/// The snapshot `state` with relay `relay` set to `on`.
pub fn apply_relay(state: u8, relay: u8, on: bool) -> (r: u8)
    requires
        relay < 8,
    ensures
        r == with_bit(state, relay, on),
{
    let mask: u8 = 1u8 << relay;
    if on {
        state | mask
    } else {
        state & !mask
    }
}

/// Eight relay outputs and the snapshot of what was last commanded to them.
pub struct RelayBank<P: RelayOutput> {
    state: u8,
    outputs: Vec<CommandedOutput<P>>,
}

impl<P: RelayOutput> View for RelayBank<P> {
    type V = u8;

    closed spec fn view(&self) -> u8 {
        self.state
    }
}

impl<P: RelayOutput> RelayBank<P> {
    /// The bank holds exactly eight outputs.
    pub closed spec fn wf(&self) -> bool {
        self.outputs@.len() == 8
    }

    /// The commands issued to each output so far, as (level, accepted)
    /// pairs; output `i` drives relay `i`.
    pub closed spec fn issued(&self) -> Seq<Seq<(bool, bool)>> {
        Seq::new(self.outputs@.len(), |i: int| self.outputs@[i].issued())
    }

    /// The output drivers, driver `i` driving relay `i`.
    pub closed spec fn drivers(&self) -> Seq<P> {
        Seq::new(self.outputs@.len(), |i: int| self.outputs@[i].driver())
    }

    /// A well-formed bank holds eight outputs.
    pub proof fn lemma_wf(&self)
        requires
            self.wf(),
        ensures
            self.issued().len() == 8,
    {
    }

    /// A bank over eight output drivers, `pins[i]` driving relay `i`; all
    /// relays recorded off, no output commanded.
    pub fn new(pins: Vec<P>) -> (r: Self)
        requires
            pins@.len() == 8,
        ensures
            r.wf(),
            r@ == 0,
            r.drivers() == pins@,
            r.issued() == Seq::new(8, |i: int| Seq::<(bool, bool)>::empty()),
    {
        let ghost all = pins@;
        let mut rest = pins;
        let mut outputs: Vec<CommandedOutput<P>> = Vec::new();
        while rest.len() > 0
            invariant
                rest@.len() + outputs@.len() == 8,
                all.len() == 8,
                rest@ == all.subrange(0, rest@.len() as int),
                forall|i: int|
                    0 <= i < outputs@.len() ==> (#[trigger] outputs@[i]).driver() == all[rest@.len()
                        + i] && outputs@[i].issued() == Seq::<(bool, bool)>::empty(),
            decreases rest@.len(),
        {
            let pin = rest.pop().unwrap();
            outputs.insert(0, CommandedOutput::new(pin));
        }
        let r = RelayBank { state: 0, outputs };
        assert(r.drivers() =~= all);
        assert(r.issued() =~= Seq::new(8, |i: int| Seq::<(bool, bool)>::empty()));
        r
    }

    /// Commands relay `relay` to `state`, then records it in the snapshot.
    ///
    /// The output is written before the snapshot changes. The result is `Ok`
    /// exactly when the output accepted the command; a fault it reports is
    /// passed up as `OutputFailure` and leaves the snapshot as it was.
    pub fn set_relay(&mut self, relay: u8, state: bool) -> (r: Result<(), RelayError>)
        requires
            old(self).wf(),
        ensures
            final(self).wf(),
            relay >= 8 ==> r == Err::<(), RelayError>(RelayError::IndexOutOfRange)
                && final(self)@ == old(self)@ && final(self).issued() == old(self).issued(),
            relay < 8 ==> wrote_run(
                old(self).issued(),
                final(self).issued(),
                relay as int,
                seq![(state, r is Ok)],
            ),
            r is Ok ==> final(self)@ == with_bit(old(self)@, relay, state),
            relay < 8 && r is Err ==> r == Err::<(), RelayError>(RelayError::OutputFailure)
                && final(self)@ == old(self)@,
    {
        if relay >= RELAYS_PER_BANK {
            return Err(RelayError::IndexOutOfRange);
        }
        let new_state = apply_relay(self.state, relay, state);
        let ghost before = self.issued();
        let written = self.outputs[relay as usize].set_state(state);
        let ghost entry = (state, written is Ok);
        proof {
            assert(self.issued() =~= before.update(relay as int, before[relay as int].push(entry)));
            lemma_run_one(before, relay as int, entry);
        }
        match written {
            Ok(()) => {
                self.state = new_state;
                Ok(())
            },
            Err(_) => Err(RelayError::OutputFailure),
        }
    }

    /// Writes all eight relays from `mask` (bit i drives relay i), relay 0
    /// first, each one unconditionally.
    ///
    /// The result is `Ok`, with the snapshot set to `mask`, exactly when all
    /// eight outputs accepted their command. The first fault stops the rest:
    /// the outputs before it were written and accepted, none after it was
    /// commanded, and the snapshot is unchanged.
    pub fn set_bank(&mut self, mask: u8) -> (r: Result<(), RelayError>)
        requires
            old(self).wf(),
        ensures
            final(self).wf(),
            r is Ok ==> final(self)@ == mask && wrote_run(
                old(self).issued(),
                final(self).issued(),
                0,
                all_accepted(mask_levels(mask)),
            ),
            r is Err ==> r == Err::<(), RelayError>(RelayError::OutputFailure) && final(self)@
                == old(self)@ && exists|k: int|
                1 <= k <= 8 && wrote_run(
                    old(self).issued(),
                    final(self).issued(),
                    0,
                    #[trigger] stopped_at_fault(mask_levels(mask), k),
                ),
    {
        let mut i: u8 = 0;
        assert(all_accepted(mask_levels(mask).take(0)) =~= Seq::<(bool, bool)>::empty());
        proof {
            lemma_run_empty(self.issued(), 0);
        }
        while i < RELAYS_PER_BANK
            invariant
                self.wf(),
                0 <= i <= 8,
                self.state == old(self).state,
                wrote_run(
                    old(self).issued(),
                    self.issued(),
                    0,
                    all_accepted(mask_levels(mask).take(i as int)),
                ),
            decreases 8 - i,
        {
            let ghost mid = self.issued();
            let level = mask & (1u8 << i) != 0;
            let written = self.outputs[i as usize].set_state(level);
            let ghost entry = (level, written is Ok);
            proof {
                assert(self.issued() =~= mid.update(i as int, mid[i as int].push(entry)));
                lemma_run_one(mid, i as int, entry);
                lemma_run_extend(
                    old(self).issued(),
                    mid,
                    self.issued(),
                    0,
                    all_accepted(mask_levels(mask).take(i as int)),
                    entry,
                );
                if written is Ok {
                    assert(all_accepted(mask_levels(mask).take(i + 1)) =~= all_accepted(
                        mask_levels(mask).take(i as int),
                    ).push(entry));
                } else {
                    assert(stopped_at_fault(mask_levels(mask), i + 1) =~= all_accepted(
                        mask_levels(mask).take(i as int),
                    ).push(entry));
                }
            }
            if written.is_err() {
                return Err(RelayError::OutputFailure);
            }
            i = i + 1;
        }
        assert(mask_levels(mask).take(8) =~= mask_levels(mask));
        self.state = mask;
        Ok(())
    }

    /// The snapshot: bit i set when relay i was last commanded on.
    pub fn get_states(&self) -> (r: u8)
        ensures
            r == self@,
    {
        self.state
    }

    /// The recorded level of relay `relay`, or `None` outside `[0, 8)`.
    pub fn get_relay(&self, relay: u8) -> (r: Option<bool>)
        ensures
            r == (if relay < 8 {
                Some(relay_bit(self@, relay))
            } else {
                None
            }),
    {
        if relay >= RELAYS_PER_BANK {
            None
        } else {
            Some(self.state & (1u8 << relay) != 0)
        }
    }
}

/// The snapshot of bank `bank`, or `None` outside `[0, 4)`.
pub open spec fn bank_state(states: Seq<u8>, bank: u8) -> Option<u8> {
    if bank < 4 {
        Some(states[bank as int])
    } else {
        None
    }
}

/// The recorded level of relay `relay` of bank `bank`, or `None` when either
/// index is out of range.
pub open spec fn relay_state(states: Seq<u8>, bank: u8, relay: u8) -> Option<bool> {
    if bank < 4 && relay < 8 {
        Some(relay_bit(states[bank as int], relay))
    } else {
        None
    }
}

/// The level of flat coil address `a` in the bank snapshots `states`.
pub open spec fn coil(states: Seq<u8>, a: int) -> bool {
    relay_bit(states[a / 8], (a % 8) as u8)
}

/// The bank snapshots after bank `bank` was written with `mask`.
pub open spec fn after_set_bank(states: Seq<u8>, bank: u8, mask: u8) -> Seq<u8> {
    states.update(bank as int, mask)
}

/// The bank snapshots after relay `relay` of bank `bank` was set to `on`.
pub open spec fn after_set_relay(states: Seq<u8>, bank: u8, relay: u8, on: bool) -> Seq<u8> {
    states.update(bank as int, with_bit(states[bank as int], relay, on))
}

/// The four snapshots as one word, bank 0 in the low byte, bank 3 in the
/// high byte.
pub open spec fn packed_states(states: Seq<u8>) -> int {
    states[0] + states[1] * 0x100 + states[2] * 0x1_0000 + states[3] * 0x100_0000
}

/// What a whole-bank write of `mask` to bank `bank` answers and does, to the
/// snapshots and to the 32 output records: a bad bank index touches
/// nothing; `Ok` means the bank's eight outputs were commanded in relay
/// order, all accepted, and the snapshot is `mask`; `OutputFailure` means
/// the outputs before the failing one accepted, the failing one reported a
/// fault, none after it was commanded, and the snapshots are unchanged.
pub open spec fn bank_write_outcome(
    before: Seq<u8>,
    after: Seq<u8>,
    before_outputs: Seq<Seq<(bool, bool)>>,
    after_outputs: Seq<Seq<(bool, bool)>>,
    bank: u8,
    mask: u8,
    r: Result<(), RelayError>,
) -> bool {
    if bank >= 4 {
        r == Err::<(), RelayError>(RelayError::BankOutOfRange) && after == before
            && after_outputs == before_outputs
    } else {
        ||| r is Ok && after == after_set_bank(before, bank, mask) && wrote_run(
            before_outputs,
            after_outputs,
            8 * bank,
            all_accepted(mask_levels(mask)),
        )
        ||| r == Err::<(), RelayError>(RelayError::OutputFailure) && after == before && exists|
            k: int,
        |
            1 <= k <= 8 && wrote_run(
                before_outputs,
                after_outputs,
                8 * bank,
                #[trigger] stopped_at_fault(mask_levels(mask), k),
            )
    }
}

/// The command records of the outputs of `banks` in coil-address order:
/// output `a` is output `a % 8` of bank `a / 8`.
pub closed spec fn flat_issued<P: RelayOutput>(banks: Seq<RelayBank<P>>) -> Seq<Seq<(bool, bool)>> {
    Seq::new((8 * banks.len()) as nat, |a: int| banks[a / 8].issued()[a % 8])
}

/// The drivers of the outputs of `banks` in coil-address order.
pub closed spec fn flat_drivers<P: RelayOutput>(banks: Seq<RelayBank<P>>) -> Seq<P> {
    Seq::new((8 * banks.len()) as nat, |a: int| banks[a / 8].drivers()[a % 8])
}

proof fn lemma_lift_run<P: RelayOutput>(
    old_banks: Seq<RelayBank<P>>,
    new_banks: Seq<RelayBank<P>>,
    b: int,
    first: int,
    levels: Seq<(bool, bool)>,
)
    requires
        old_banks.len() == 4,
        0 <= b < 4,
        new_banks == old_banks.update(b, new_banks[b]),
        forall|i: int| 0 <= i < 4 ==> (#[trigger] old_banks[i]).wf(),
        new_banks[b].wf(),
        wrote_run(old_banks[b].issued(), new_banks[b].issued(), first, levels),
    ensures
        wrote_run(flat_issued(old_banks), flat_issued(new_banks), 8 * b + first, levels),
{
    let ob = flat_issued(old_banks);
    let nb = flat_issued(new_banks);
    let s = 8 * b + first;
    assert forall|a: int| 0 <= a < 32 implies #[trigger] nb[a] == (if s <= a < s + levels.len() {
        ob[a].push(levels[a - s])
    } else {
        ob[a]
    }) by {
        if a / 8 == b {
            assert(s <= a < s + levels.len() <==> first <= a % 8 < first + levels.len());
        } else {
            assert(new_banks[a / 8] == old_banks[a / 8]);
        }
    }
    assert(nb =~= Seq::new(
        ob.len(),
        |a: int|
            if s <= a < s + levels.len() {
                ob[a].push(levels[a - s])
            } else {
                ob[a]
            },
    ));
}

/// Four banks of eight relays, addressed by bank and relay or by the flat
/// coil address `bank * 8 + relay` in `[0, 32)`.
///
/// Every mutation goes through `&mut self`, so writes to one controller are
/// serialized and a reader never sees a half-applied snapshot.
pub struct RelayController<P: RelayOutput> {
    banks: Vec<RelayBank<P>>,
}

impl<P: RelayOutput> View for RelayController<P> {
    type V = Seq<u8>;

    closed spec fn view(&self) -> Seq<u8> {
        Seq::new(self.banks@.len(), |i: int| self.banks@[i]@)
    }
}

impl<P: RelayOutput> RelayController<P> {
    /// Four well-formed banks.
    pub closed spec fn wf(&self) -> bool {
        &&& self.banks@.len() == 4
        &&& forall|i: int| 0 <= i < 4 ==> (#[trigger] self.banks@[i]).wf()
    }

    /// The levels commanded to each of the 32 outputs so far, in
    /// coil-address order.
    pub closed spec fn issued(&self) -> Seq<Seq<(bool, bool)>> {
        flat_issued(self.banks@)
    }

    /// The 32 output drivers in coil-address order.
    pub closed spec fn drivers(&self) -> Seq<P> {
        flat_drivers(self.banks@)
    }

    /// A well-formed controller holds four bank snapshots and 32 outputs.
    pub proof fn lemma_wf(&self)
        requires
            self.wf(),
        ensures
            self@.len() == 4,
            self.issued().len() == 32,
    {
    }

    /// A controller over 32 outputs, given in coil-address order (`pins[a]`
    /// drives relay `a % 8` of bank `a / 8`); all relays recorded off.
    pub fn new(pins: Vec<P>) -> (r: Self)
        requires
            pins@.len() == 32,
        ensures
            r.wf(),
            r@ == seq![0u8, 0u8, 0u8, 0u8],
            r.drivers() == pins@,
            r.issued() == Seq::new(32, |a: int| Seq::<(bool, bool)>::empty()),
    {
        let ghost all = pins@;
        let mut rest = pins;
        let mut banks: Vec<RelayBank<P>> = Vec::new();
        let mut b: u8 = 0;
        while b < BANK_COUNT
            invariant
                0 <= b <= 4,
                all.len() == 32,
                banks@.len() == b,
                rest@ == all.subrange(8 * b, 32),
                forall|i: int|
                    0 <= i < b ==> (#[trigger] banks@[i]).wf() && banks@[i]@ == 0
                        && banks@[i].drivers() == all.subrange(8 * i, 8 * i + 8)
                        && banks@[i].issued() == Seq::new(8, |j: int| Seq::<(bool, bool)>::empty()),
            decreases 4 - b,
        {
            let tail = rest.split_off(8);
            assert(rest@ =~= all.subrange(8 * b, 8 * b + 8));
            assert(tail@ =~= all.subrange(8 * (b + 1), 32));
            banks.push(RelayBank::new(rest));
            rest = tail;
            b = b + 1;
        }
        let r = RelayController { banks };
        assert(r@ =~= seq![0u8, 0u8, 0u8, 0u8]);
        assert forall|a: int| 0 <= a < 32 implies #[trigger] r.drivers()[a] == all[a] by {
            let i = a / 8;
            assert(r.banks@[i].drivers() == all.subrange(8 * i, 8 * i + 8));
        }
        assert(r.drivers() =~= all);
        assert forall|a: int| 0 <= a < 32 implies #[trigger] r.issued()[a] == Seq::<
            (bool, bool),
        >::empty() by {
            let i = a / 8;
            assert(r.banks@[i].issued() == Seq::new(8, |j: int| Seq::<(bool, bool)>::empty()));
        }
        assert(r.issued() =~= Seq::new(32, |a: int| Seq::<(bool, bool)>::empty()));
        r
    }

    /// Sets relay `relay` of bank `bank` to `state`.
    pub fn set_relay(&mut self, bank: u8, relay: u8, state: bool) -> (r: Result<(), RelayError>)
        requires
            old(self).wf(),
        ensures
            final(self).wf(),
            bank >= 4 ==> r == Err::<(), RelayError>(RelayError::BankOutOfRange),
            bank < 4 && relay >= 8 ==> r == Err::<(), RelayError>(RelayError::IndexOutOfRange),
            bank < 4 && relay < 8 && r is Err ==> r == Err::<(), RelayError>(
                RelayError::OutputFailure,
            ),
            r is Ok ==> final(self)@ == after_set_relay(old(self)@, bank, relay, state),
            r is Err ==> final(self)@ == old(self)@,
            bank >= 4 || relay >= 8 ==> final(self).issued() == old(self).issued(),
            bank < 4 && relay < 8 ==> wrote_run(
                old(self).issued(),
                final(self).issued(),
                8 * bank + relay,
                seq![(state, r is Ok)],
            ),
    {
        if bank >= BANK_COUNT {
            return Err(RelayError::BankOutOfRange);
        }
        let r = self.banks[bank as usize].set_relay(relay, state);
        proof {
            assert(self@ =~= (if r is Ok {
                after_set_relay(old(self)@, bank, relay, state)
            } else {
                old(self)@
            }));
            assert(self.banks@ == old(self).banks@.update(bank as int, self.banks@[bank as int]));
            if relay < 8 {
                lemma_lift_run(
                    old(self).banks@,
                    self.banks@,
                    bank as int,
                    relay as int,
                    seq![(state, r is Ok)],
                );
            } else {
                assert(self.issued() =~= old(self).issued());
            }
        }
        r
    }

    /// Writes all eight relays of bank `bank` from `mask`, relay 0 first.
    ///
    /// A failed write leaves the snapshot unchanged, though outputs written
    /// before it keep their new level.
    pub fn set_bank(&mut self, bank: u8, mask: u8) -> (r: Result<(), RelayError>)
        requires
            old(self).wf(),
        ensures
            final(self).wf(),
            bank_write_outcome(
                old(self)@,
                final(self)@,
                old(self).issued(),
                final(self).issued(),
                bank,
                mask,
                r,
            ),
    {
        if bank >= BANK_COUNT {
            return Err(RelayError::BankOutOfRange);
        }
        let r = self.banks[bank as usize].set_bank(mask);
        proof {
            assert(self@ =~= (if r is Ok {
                after_set_bank(old(self)@, bank, mask)
            } else {
                old(self)@
            }));
            assert(self.banks@ == old(self).banks@.update(bank as int, self.banks@[bank as int]));
            if r is Ok {
                lemma_lift_run(
                    old(self).banks@,
                    self.banks@,
                    bank as int,
                    0,
                    all_accepted(mask_levels(mask)),
                );
            } else {
                let k = choose|k: int|
                    1 <= k <= 8 && wrote_run(
                        old(self).banks@[bank as int].issued(),
                        self.banks@[bank as int].issued(),
                        0,
                        #[trigger] stopped_at_fault(mask_levels(mask), k),
                    );
                lemma_lift_run(
                    old(self).banks@,
                    self.banks@,
                    bank as int,
                    0,
                    stopped_at_fault(mask_levels(mask), k),
                );
            }
        }
        r
    }

    /// The snapshot of bank `bank`, or `None` outside `[0, 4)`.
    pub fn get_bank_states(&self, bank: u8) -> (r: Option<u8>)
        requires
            self.wf(),
        ensures
            r == bank_state(self@, bank),
    {
        if bank >= BANK_COUNT {
            None
        } else {
            Some(self.banks[bank as usize].get_states())
        }
    }

    /// The recorded level of relay `relay` of bank `bank`, or `None` when
    /// either index is out of range.
    pub fn get_relay_state(&self, bank: u8, relay: u8) -> (r: Option<bool>)
        requires
            self.wf(),
        ensures
            r == relay_state(self@, bank, relay),
    {
        if bank >= BANK_COUNT {
            None
        } else {
            self.banks[bank as usize].get_relay(relay)
        }
    }

    /// Sets the relay at flat coil address `addr` (bank `addr / 8`, relay
    /// `addr % 8`) to `state`.
    pub fn set_coil(&mut self, addr: u8, state: bool) -> (r: Result<(), RelayError>)
        requires
            old(self).wf(),
        ensures
            final(self).wf(),
            addr >= 32 ==> r == Err::<(), RelayError>(RelayError::IndexOutOfRange),
            addr < 32 && r is Err ==> r == Err::<(), RelayError>(RelayError::OutputFailure),
            r is Ok ==> final(self)@ == after_set_relay(old(self)@, addr / 8, addr % 8, state),
            r is Err ==> final(self)@ == old(self)@,
            addr >= 32 ==> final(self).issued() == old(self).issued(),
            addr < 32 ==> wrote_run(
                old(self).issued(),
                final(self).issued(),
                addr as int,
                seq![(state, r is Ok)],
            ),
    {
        if addr >= 32 {
            return Err(RelayError::IndexOutOfRange);
        }
        self.set_relay(addr / RELAYS_PER_BANK, addr % RELAYS_PER_BANK, state)
    }

    /// The recorded level of the relay at flat coil address `addr`, or
    /// `None` outside `[0, 32)`.
    pub fn get_coil(&self, addr: u8) -> (r: Option<bool>)
        requires
            self.wf(),
        ensures
            r == (if addr < 32 {
                Some(coil(self@, addr as int))
            } else {
                None
            }),
    {
        if addr >= 32 {
            None
        } else {
            self.get_relay_state(addr / RELAYS_PER_BANK, addr % RELAYS_PER_BANK)
        }
    }

    /// All four snapshots in one word: bank 0 in bits [0, 8), bank 1 in
    /// [8, 16), bank 2 in [16, 24), bank 3 in [24, 32).
    pub fn get_all_states(&self) -> (r: u32)
        requires
            self.wf(),
        ensures
            r as int == packed_states(self@),
    {
        let s0 = self.banks[0].get_states();
        let s1 = self.banks[1].get_states();
        let s2 = self.banks[2].get_states();
        let s3 = self.banks[3].get_states();
        let r: u32 = (s0 as u32) | ((s1 as u32) << 8u32) | ((s2 as u32) << 16u32) | ((s3 as u32)
            << 24u32);
        assert(r == (s0 as u32) + (s1 as u32) * 0x100 + (s2 as u32) * 0x1_0000 + (s3 as u32)
            * 0x100_0000) by (bit_vector)
            requires
                r == (s0 as u32) | ((s1 as u32) << 8u32) | ((s2 as u32) << 16u32) | ((s3 as u32)
                    << 24u32),
        ;
        r
    }
}

/// Writing a bank and reading it back gives the mask that was written.
pub proof fn lemma_set_bank_then_get(states: Seq<u8>, bank: u8, mask: u8)
    requires
        states.len() == 4,
        bank < 4,
    ensures
        bank_state(after_set_bank(states, bank, mask), bank) == Some(mask),
{
}

/// Writing the same mask to a bank twice leaves the snapshots as the first
/// write left them.
pub proof fn lemma_set_bank_idempotent(states: Seq<u8>, bank: u8, mask: u8)
    requires
        states.len() == 4,
        bank < 4,
    ensures
        after_set_bank(after_set_bank(states, bank, mask), bank, mask) == after_set_bank(
            states,
            bank,
            mask,
        ),
        bank_state(after_set_bank(after_set_bank(states, bank, mask), bank, mask), bank)
            == bank_state(after_set_bank(states, bank, mask), bank),
{
    assert(after_set_bank(after_set_bank(states, bank, mask), bank, mask) =~= after_set_bank(
        states,
        bank,
        mask,
    ));
}

/// Setting the relay at flat coil address `addr` and reading the same
/// address gives the level written, which is also the matching bit of the
/// bank snapshot.
pub proof fn lemma_set_relay_then_get(states: Seq<u8>, addr: u8, on: bool)
    requires
        states.len() == 4,
        addr < 32,
    ensures
        ({
            let after = after_set_relay(states, addr / 8, addr % 8, on);
            &&& relay_state(after, addr / 8, addr % 8) == Some(on)
            &&& coil(after, addr as int) == on
            &&& bank_state(after, addr / 8) matches Some(s) && relay_bit(s, addr % 8) == on
        }),
{
    lemma_with_bit(states[(addr / 8) as int], addr % 8, on);
}

/// Two writes to different relays of one bank, one after the other, both
/// take effect: the second does not undo the first.
pub proof fn lemma_no_lost_update(
    states: Seq<u8>,
    bank: u8,
    first: u8,
    first_on: bool,
    second: u8,
    second_on: bool,
)
    requires
        states.len() == 4,
        bank < 4,
        first < 8,
        second < 8,
        first != second,
    ensures
        ({
            let after = after_set_relay(
                after_set_relay(states, bank, first, first_on),
                bank,
                second,
                second_on,
            );
            &&& relay_state(after, bank, first) == Some(first_on)
            &&& relay_state(after, bank, second) == Some(second_on)
        }),
{
    let mid = with_bit(states[bank as int], first, first_on);
    lemma_with_bit(states[bank as int], first, first_on);
    lemma_with_bit(mid, second, second_on);
}

} // verus!
