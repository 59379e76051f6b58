use vstd::prelude::*;
use std::sync::atomic::AtomicI32;
use std::sync::atomic::Ordering;

verus! {

/// Word value of an exclusion token that nobody holds.
pub const FREE: i32 = 0;

/// Word value of an exclusion token that one thread holds.
pub const HELD: i32 = 1;

/// A release found the token in a state other than held: a double release,
/// or a release without a matching acquire.
#[derive(Debug, Clone, Copy, PartialEq, Eq, Structural)]
pub enum LockError {
    NotHeld(i32),
}

/// Whether an acquire attempt, which swaps `HELD` into the word, won the
/// token, given the word's value just before the swap.
pub open spec fn attempt_wins(prior: i32) -> bool {
    prior == FREE
}

/// Whether a release, which swaps `FREE` into the word, found the token held.
pub open spec fn release_sound(prior: i32) -> bool {
    prior == HELD
}

/// Decides an acquire attempt from the value that its swap observed.
pub fn attempt_won(prior: i32) -> (r: bool)
    ensures
        r == attempt_wins(prior),
{
    prior == FREE
}

/// Judges a release from the value that its swap observed.
pub fn release_verdict(prior: i32) -> (r: Result<(), LockError>)
    ensures
        r is Ok <==> release_sound(prior),
        r matches Err(LockError::NotHeld(p)) ==> p == prior,
{
    if prior == HELD {
        Ok(())
    } else {
        Err(LockError::NotHeld(prior))
    }
}

/// Ownership of the critical section guarded by one token word.
///
/// The guard is handed back by `release`, which judges the state that the
/// word was found in; a destructor could not report that judgement, so the
/// guard has none, and whoever holds it releases it on every exit path.
pub struct DropLock<'a> {
    word: &'a AtomicI32,
    active: bool,
}

/// One indivisible attempt to take the token: the swap wins exactly when
/// it finds the word free. What it finds depends on the other threads, so
/// the contract can promise no more than that a guard it hands out is live.
pub fn try_lock(word: &AtomicI32) -> (r: Option<DropLock<'_>>)
    ensures
        r matches Some(g) ==> g.is_active(),
{
    let prior = word.swap(HELD, Ordering::SeqCst);
    if attempt_won(prior) {
        Some(DropLock { word, active: true })
    } else {
        None
    }
}

impl<'a> DropLock<'a> {
    pub closed spec fn is_active(&self) -> bool {
        self.active
    }

    /// Hands the token back and reports whether it was held, as it must be.
    pub fn release(self) -> (r: Result<(), LockError>)
        requires
            self.is_active(),
        ensures
            r matches Err(LockError::NotHeld(p)) ==> !release_sound(p),
    {
        let mut guard = self;
        guard.active = false;
        let prior = guard.word.swap(FREE, Ordering::SeqCst);
        release_verdict(prior)
    }
}

} // verus!
