//! Stable handles to scheduled entries.

use vstd::prelude::*;

verus! {

/// Opaque, stable handle to one scheduled entry.
///
/// A key names the storage cell that holds the entry together with the serial
/// number under which the entry was scheduled. Serial numbers are never
/// handed out twice, so a key stays unique for the whole life of a timer:
/// once its entry has fired or has been cancelled the key names nothing, and
/// no later entry can ever be mistaken for it.
#[derive(Clone, Copy, Debug, PartialEq, Eq, Hash, PartialOrd, Ord, Structural)]
pub struct TimerKey {
    pub(crate) index: usize,
    pub(crate) serial: usize,
}

impl TimerKey {
    /// The distinguished key that never names an entry.
    pub closed spec fn spec_null() -> TimerKey {
        TimerKey { index: usize::MAX, serial: usize::MAX }
    }

    /// Whether this is the null key.
    pub open spec fn spec_is_null(&self) -> bool {
        *self == Self::spec_null()
    }

    /// The serial number under which the key was issued.
    pub closed spec fn spec_serial(&self) -> nat {
        self.serial as nat
    }

    /// The null key carries the one serial number that is never issued.
    pub proof fn lemma_null_serial()
        ensures
            Self::spec_null().spec_serial() == usize::MAX,
    {
    }

    /// The serial number is the one stored in the key.
    pub(crate) proof fn lemma_serial(&self)
        ensures
            self.spec_serial() == self.serial,
            Self::spec_null().serial == usize::MAX,
            Self::spec_null().index == usize::MAX,
    {
    }

    /// Returns the null key.
    #[verifier::when_used_as_spec(spec_null)]
    pub fn null() -> (k: TimerKey)
        ensures
            k == Self::spec_null(),
    {
        TimerKey { index: usize::MAX, serial: usize::MAX }
    }

    /// Tells whether this is the null key.
    #[verifier::when_used_as_spec(spec_is_null)]
    pub fn is_null(&self) -> (b: bool)
        ensures
            b == self.spec_is_null(),
    {
        self.index == usize::MAX && self.serial == usize::MAX
    }
}

impl Default for TimerKey {
    /// The default key is the null key.
    fn default() -> (k: TimerKey)
        ensures
            k == TimerKey::spec_null(),
    {
        TimerKey::null()
    }
}

} // verus!
