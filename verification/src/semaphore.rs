//! The counting semaphore of the pool, which is to hold one permit for each
//! free slot of the ledger.

use named_semaphore::Semaphore;
use vstd::prelude::*;

verus! {

/// The semaphore of the `named-semaphore` crate: a handle on a counting
/// semaphore that every process can open by its name.
#[verifier::external_type_specification]
#[verifier::external_body]
pub struct ExSemaphore(named_semaphore::Semaphore);

/// `std::io::Error`: the error of the operating system that a call on the
/// semaphore may give. It is carried through as it comes.
#[verifier::external_type_specification]
#[verifier::external_body]
pub struct ExIoError(std::io::Error);

/// `Semaphore::value` reads the value that the semaphore has at the moment
/// of the call. Other processes change that value at any time, so nothing is
/// known of what it returns.
pub assume_specification[ Semaphore::value ](sem: &Semaphore) -> (r: std::io::Result<usize>)
;

/// `Semaphore::acquire` takes one permit and waits for one where there is
/// none. Nothing is known of whether it succeeds.
pub assume_specification[ Semaphore::acquire ](sem: &Semaphore) -> (r: std::io::Result<()>)
;

/// `Semaphore::release` gives one permit back. Nothing is known of whether
/// it succeeds.
pub assume_specification[ Semaphore::release ](sem: &Semaphore) -> (r: std::io::Result<()>)
;

/// What brings the semaphore to the number of free slots.
#[derive(Debug, Clone, Copy, PartialEq, Eq, Structural)]
pub enum Adjustment {
    /// The semaphore has the right value.
    Keep,
    /// The semaphore holds this many permits too many: take them.
    Lower(usize),
    /// The semaphore holds this many permits too few: give them.
    Raise(usize),
}

/// The adjustment that takes a semaphore from `value` to `available`.
pub open spec fn adjustment_for(value: usize, available: usize) -> Adjustment {
    if value > available {
        Adjustment::Lower((value - available) as usize)
    } else if value < available {
        Adjustment::Raise((available - value) as usize)
    } else {
        Adjustment::Keep
    }
}

/// The adjustment that takes a semaphore from `value` to `available`, the
/// number of free slots.
pub fn adjustment(value: usize, available: usize) -> (r: Adjustment)
    ensures
        r == adjustment_for(value, available),
{
    if value > available {
        Adjustment::Lower(value - available)
    } else if value < available {
        Adjustment::Raise(available - value)
    } else {
        Adjustment::Keep
    }
}

/// Reads the semaphore and takes or gives permits, one at a time, until as
/// many have moved as the adjustment to `available` asks for, and returns
/// that adjustment. It stops at the first call that fails and returns its
/// error.
///
/// Whatever value the semaphore showed, the adjustment that is returned is
/// the one from that value to `available`.
pub fn sync_semaphore(sem: &Semaphore, available: usize) -> (r: Result<Adjustment, std::io::Error>)
    ensures
        r matches Ok(done) ==> exists|value: usize| done == #[trigger] adjustment_for(
            value,
            available,
        ),
{
    let value = match sem.value() {
        Ok(value) => value,
        Err(e) => {
            return Err(e);
        },
    };
    let planned = adjustment(value, available);
    match planned {
        Adjustment::Keep => {},
        Adjustment::Lower(count) => {
            let mut i: usize = 0;
            while i < count
                invariant
                    i <= count,
                decreases count - i,
            {
                match sem.acquire() {
                    Ok(_) => {},
                    Err(e) => {
                        return Err(e);
                    },
                }
                i = i + 1;
            }
        },
        Adjustment::Raise(count) => {
            let mut i: usize = 0;
            while i < count
                invariant
                    i <= count,
                decreases count - i,
            {
                match sem.release() {
                    Ok(_) => {},
                    Err(e) => {
                        return Err(e);
                    },
                }
                i = i + 1;
            }
        },
    }
    Ok(planned)
}

} // verus!
