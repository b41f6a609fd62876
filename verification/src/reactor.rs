//! Decisions around registering a descriptor with the readiness poller.

use vstd::prelude::*;

verus! {

/// The errno that the poller reports when a descriptor is registered a
/// second time.
pub open spec fn already_exists_errno() -> i32 {
    17
}

/// `libc::EEXIST`, the errno for "already exists". On Linux, the target of
/// this runtime (it reaches descriptors through Unix file descriptors),
/// libc's source fixes it at 17; this contract states that value.
#[verifier::external_body]
fn eexist() -> (code: i32)
    ensures
        code == already_exists_errno(),
{
    libc::EEXIST
}

/// How to go on after registering a descriptor failed.
#[derive(PartialEq, Eq, Structural, Debug, Clone, Copy)]
pub enum RegisterFallback {
    /// The descriptor was registered before: update that registration.
    Reregister,
    /// Any other failure is fatal to the run loop.
    Fail,
}

/// Decides what to do when registering failed with the given OS error code:
/// a descriptor that is already registered is registered again with the new
/// token and readiness; every other failure is fatal.
pub fn register_fallback(os_error: Option<i32>) -> (r: RegisterFallback)
    ensures
        r == (if os_error == Some(already_exists_errno()) {
            RegisterFallback::Reregister
        } else {
            RegisterFallback::Fail
        }),
{
    let exists: i32 = eexist();
    match os_error {
        Some(code) => if code == exists {
            RegisterFallback::Reregister
        } else {
            RegisterFallback::Fail
        },
        None => RegisterFallback::Fail,
    }
}

} // verus!
