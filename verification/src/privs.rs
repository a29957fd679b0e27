//! Dropping elevated privileges once the raw socket is open.
//!
//! Opening a raw ICMP socket needs elevated privileges; the host is
//! expected to give them up immediately afterwards by resetting the
//! effective ids to the real ones.

use vstd::prelude::*;
use crate::odp::ICError;

verus! {

/// Relies on nix::unistd::getgid: returns the real group id of the
/// calling process; it always succeeds.
#[verifier::external_body]
fn sys_getgid() -> (r: u32) {
    nix::unistd::getgid().as_raw()
}

/// Relies on nix::unistd::setgid: sets the group id of the calling
/// process, or fails with the raw OS error number.
#[verifier::external_body]
fn sys_setgid(gid: u32) -> (r: Result<(), i32>) {
    nix::unistd::setgid(nix::unistd::Gid::from_raw(gid)).map_err(|e| e as i32)
}

/// Relies on nix::unistd::getuid: returns the real user id of the
/// calling process; it always succeeds.
#[verifier::external_body]
fn sys_getuid() -> (r: u32) {
    nix::unistd::getuid().as_raw()
}

/// Relies on nix::unistd::setuid: sets the user id of the calling
/// process, or fails with the raw OS error number.
#[verifier::external_body]
fn sys_setuid(uid: u32) -> (r: Result<(), i32>) {
    nix::unistd::setuid(nix::unistd::Uid::from_raw(uid)).map_err(|e| e as i32)
}

/// Drop privileges back to the real user: set the group id to the real
/// group id, then the user id to the real user id.  A failure of
/// either call surfaces as the underlying OS error.
pub fn drop_privs() -> (r: Result<(), ICError>)
    ensures
        r matches Err(e) ==> e is Nix,
{
    let gid = sys_getgid();
    if let Err(e) = sys_setgid(gid) {
        return Err(ICError::Nix(e));
    }
    let uid = sys_getuid();
    if let Err(e) = sys_setuid(uid) {
        return Err(ICError::Nix(e));
    }
    Ok(())
}

} // verus!
