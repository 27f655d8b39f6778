//! Cross-process memory access: error taxonomy, region description, and the
//! read/write primitives over another process's virtual address space.

use process_memory::{CopyAddress, PutAddress, TryIntoProcessHandle};
use vstd::prelude::*;

verus! {

/// A failure of the process-memory layer. The payload is the OS error code.
#[derive(Debug, Clone, Copy, PartialEq, Eq, Structural)]
pub enum MemoryError {
    /// Region enumeration was denied.
    NoPermission(i32),
    /// A single read failed on an otherwise attached target.
    MemRead(i32),
    /// A single write failed on an otherwise attached target.
    MemWrite(i32),
    /// No handle on the target could be obtained, or a read was denied outright.
    ProcessAttach(i32),
}

/// Access permission observed on a memory region.
#[derive(Debug, Clone, Copy, PartialEq, Eq, Structural)]
pub enum MemoryRegionPerms {
    Read,
    Write,
}

/// A contiguous range of the target's virtual address space.
/// `end` is exclusive.
#[derive(Debug, Clone)]
pub struct MemoryRegion {
    pub start: u64,
    pub end: u64,
    pub perms: Vec<MemoryRegionPerms>,
}

/// The permission filter used when the caller supplies none: only regions
/// with write permission are scanned.
pub fn default_search_perms() -> (r: Vec<MemoryRegionPerms>)
    ensures
        r@ == seq![MemoryRegionPerms::Write],
{
    let mut v: Vec<MemoryRegionPerms> = Vec::new();
    v.push(MemoryRegionPerms::Write);
    proof {
        assert(v@ =~= seq![MemoryRegionPerms::Write]);
    }
    v
}

/// Relies on process_memory's `CopyAddress::copy_address` for `ProcessHandle`
/// (one `process_vm_readv` call over the whole buffer), reached through the
/// infallible Linux `Pid::try_into_process_handle` conversion. On failure the
/// OS error code is handed back; `Err((true, _))` marks a failure to obtain
/// the handle, `Err((false, _))` a failed read.
#[verifier::external_body]
fn copy_process_bytes(pid: u32, addr: u64, buf: &mut Vec<u8>) -> (r: Result<(), (bool, i32)>)
    ensures
        final(buf)@.len() == old(buf)@.len(),
{
    let handle = match (pid as process_memory::Pid).try_into_process_handle() {
        Ok(h) => h,
        Err(e) => return Err((true, e.raw_os_error().unwrap_or(-1))),
    };
    match handle.copy_address(addr as usize, buf.as_mut_slice()) {
        Ok(()) => Ok(()),
        Err(e) => Err((false, e.raw_os_error().unwrap_or(-1))),
    }
}

/// Relies on process_memory's `PutAddress::put_address` for `ProcessHandle`
/// (one `process_vm_writev` call of the whole buffer), reached through the
/// infallible Linux `Pid::try_into_process_handle` conversion. Nothing is
/// promised of the outcome; `Err((true, _))` marks a failure to obtain the
/// handle, `Err((false, _))` a failed write.
#[verifier::external_body]
fn put_process_bytes(pid: u32, addr: u64, data: &[u8]) -> Result<(), (bool, i32)> {
    let handle = match (pid as process_memory::Pid).try_into_process_handle() {
        Ok(h) => h,
        Err(e) => return Err((true, e.raw_os_error().unwrap_or(-1))),
    };
    match handle.put_address(addr as usize, data) {
        Ok(()) => Ok(()),
        Err(e) => Err((false, e.raw_os_error().unwrap_or(-1))),
    }
}

fn zero_vec(n: usize) -> (v: Vec<u8>)
    ensures
        v@.len() == n,
{
    let mut v: Vec<u8> = Vec::new();
    let mut i: usize = 0;
    while i < n
        invariant
            v@.len() == i,
            i <= n,
        decreases n - i,
    {
        v.push(0u8);
        i = i + 1;
    }
    v
}

/// Read exactly `size` bytes from the target's address space at `addr`.
///
/// A denied read (EPERM) is normalised into `ProcessAttach`, so that losing
/// access to the target mid-scan looks the same on every platform; any other
/// per-call failure is the non-fatal `MemRead`.
pub fn read_memory_address(pid: u32, addr: u64, size: usize) -> (r: Result<
    Vec<u8>,
    MemoryError,
>)
    ensures
        r matches Ok(v) ==> v@.len() == size,
        r matches Err(e) ==> (e matches MemoryError::ProcessAttach(_) || e
            matches MemoryError::MemRead(_)),
{
    let mut buf = zero_vec(size);
    match copy_process_bytes(pid, addr, &mut buf) {
        Ok(()) => Ok(buf),
        Err((attach, code)) => {
            if attach {
                Err(MemoryError::ProcessAttach(code))
            } else if code == 1 {
                // EPERM on the read path means access to the target is gone,
                // even though a handle could be formed.
                Err(MemoryError::ProcessAttach(code))
            } else {
                Err(MemoryError::MemRead(code))
            }
        },
    }
}

/// Write `value` into the target's address space at `addr`.
pub fn write_memory_address(pid: u32, addr: u64, value: &[u8]) -> (r: Result<(), MemoryError>)
    ensures
        r matches Err(e) ==> (e matches MemoryError::ProcessAttach(_) || e
            matches MemoryError::MemWrite(_)),
{
    match put_process_bytes(pid, addr, value) {
        Ok(()) => Ok(()),
        Err((attach, code)) => {
            if attach {
                Err(MemoryError::ProcessAttach(code))
            } else {
                Err(MemoryError::MemWrite(code))
            }
        },
    }
}

} // verus!
