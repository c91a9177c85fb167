use vstd::prelude::*;

verus! {

/// The two fatal findings the race oracle can report. Both are proof of a
/// broken guarantee, not recoverable faults: a run stops at the first one.
#[derive(Clone, Copy, Debug, PartialEq, Eq, Structural)]
pub enum Violation {
    /// `hold` found the flag already held: two processes were concurrently
    /// inside the critical section.
    ExclusivityViolation,
    /// `release` found the flag already free: a hold/release mismatch.
    UnbalancedRelease,
}

/// The race oracle: a single shared exclusive-access flag, used only to
/// *detect* violations of mutual exclusion. It is not part of the lock.
///
/// Instead of panicking, `hold` and `release` report a [`Violation`]; the
/// caller stops the run on the first one.
#[derive(Clone, Copy, Debug)]
pub struct HotPotato {
    held: bool,
}

impl HotPotato {
    /// Whether the flag is currently held.
    pub closed spec fn is_held(self) -> bool {
        self.held
    }

    /// A fresh oracle; the flag starts free.
    pub fn new() -> (r: Self)
        ensures
            !r.is_held(),
    {
        HotPotato { held: false }
    }

    /// Entering the critical section: transition `free -> held`.
    ///
    /// Fails with [`Violation::ExclusivityViolation`] exactly when the flag
    /// was already held, leaving the oracle unchanged.
    pub fn hold(&mut self) -> (r: Result<(), Violation>)
        ensures
            old(self).is_held() ==> (r == Err::<(), Violation>(Violation::ExclusivityViolation)
                && *final(self) == *old(self)),
            !old(self).is_held() ==> (r == Ok::<(), Violation>(()) && final(self).is_held()),
    {
        if self.held {
            Err(Violation::ExclusivityViolation)
        } else {
            self.held = true;
            Ok(())
        }
    }

    /// Exiting the critical section: transition `held -> free`.
    ///
    /// Fails with [`Violation::UnbalancedRelease`] exactly when the flag was
    /// already free, leaving the oracle unchanged.
    pub fn release(&mut self) -> (r: Result<(), Violation>)
        ensures
            !old(self).is_held() ==> (r == Err::<(), Violation>(Violation::UnbalancedRelease)
                && *final(self) == *old(self)),
            old(self).is_held() ==> (r == Ok::<(), Violation>(()) && !final(self).is_held()),
    {
        if !self.held {
            Err(Violation::UnbalancedRelease)
        } else {
            self.held = false;
            Ok(())
        }
    }
}

impl Default for HotPotato {
    /// Same as [`HotPotato::new`]: the flag starts free.
    fn default() -> (r: Self)
        ensures
            !r.is_held(),
    {
        HotPotato { held: false }
    }
}

} // verus!
