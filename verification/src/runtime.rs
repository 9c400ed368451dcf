//! The names shared by the whole crate and the oracle that a caller supplies.

use vstd::prelude::*;

verus! {

/// The identifier of a device.
pub type Serial = String;

/// The identifier of a process.
pub type Pid = i32;

/// The oracle of the pool: it knows which devices are attached, whether a
/// process is alive, and when a device has finished booting. The pool asks
/// and promises nothing of the answers.
pub trait Runtime {
    /// Why the oracle could not answer.
    type Error;

    /// The serials of the devices that are attached.
    fn devices(&self) -> Result<Vec<Serial>, Self::Error>;

    /// Returns once the device `serial` is ready for use.
    fn wait_for_boot(&self, serial: &Serial) -> Result<(), Self::Error>;

    /// Whether the process `pid` is alive.
    fn is_running(&self, pid: Pid) -> Result<bool, Self::Error>;
}

} // verus!
