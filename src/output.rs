use vstd::prelude::*;
use crate::relays::{OutputFault, RelayOutput};

verus! {

/// A relay output driver together with the record of every command it was
/// given, oldest first: the level, and whether the driver accepted it. The
/// driver is reached only through `set_state`, which issues one command and
/// records it with its outcome.
pub struct CommandedOutput<P: RelayOutput> {
    driver: P,
    issued: Ghost<Seq<(bool, bool)>>,
}

impl<P: RelayOutput> CommandedOutput<P> {
    /// The commands issued so far, oldest first, as (level, accepted) pairs.
    pub closed spec fn issued(&self) -> Seq<(bool, bool)> {
        self.issued@
    }

    /// The driver this output commands.
    pub closed spec fn driver(&self) -> P {
        self.driver
    }

    /// Takes over `driver`, with no command issued yet.
    pub fn new(driver: P) -> (r: Self)
        ensures
            r.driver() == driver,
            r.issued() == Seq::<(bool, bool)>::empty(),
    {
        CommandedOutput { driver, issued: Ghost(Seq::empty()) }
    }

    /// Commands the driver to `energized` once and records the command with
    /// its outcome: accepted exactly when the driver answered `Ok`. The
    /// driver's answer is handed back unchanged.
    pub fn set_state(&mut self, energized: bool) -> (r: Result<(), OutputFault>)
        ensures
            final(self).issued() == old(self).issued().push((energized, r is Ok)),
    {
        let r = self.driver.set_state(energized);
        self.issued = Ghost(self.issued@.push((energized, r is Ok)));
        r
    }
}

} // verus!
