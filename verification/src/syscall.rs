//! System calls made by user processes.

use vstd::prelude::*;
use crate::process::Process;

verus! {

/// `exec`: takes the path and argument-vector addresses from the caller's
/// `a0` and `a1`; loading the program they name is not done yet, so the
/// process is left as it was.
pub fn sys_exec(proc: &mut Process)
    ensures
        *final(proc) == *old(proc),
{
    let _path_addr: u32 = proc.trapframe.a0;
    let _argv_addr: u32 = proc.trapframe.a1;
}

/// `exit`: not done yet; does nothing.
pub fn sys_exit() {
}

/// `getpid`: not done yet; does nothing.
pub fn sys_getpid() {
}

/// `wait`: not done yet; does nothing.
pub fn sys_wait() {
}

/// `sbrk`: not done yet; does nothing.
pub fn sys_sbrk() {
}

/// `pause`: not done yet; does nothing.
pub fn sys_pause() {
}

/// `kill`: not done yet; does nothing.
pub fn sys_kill() {
}

/// `uptime`: not done yet; does nothing.
pub fn sys_uptime() {
}

} // verus!
