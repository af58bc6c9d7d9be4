//! Control of QEMU through its `isa-debug-exit` device.
//!
//! When QEMU runs with `-device isa-debug-exit,iobase=0xf4,iosize=0x04`,
//! writing a `u32` `v` to port `0xf4` makes the QEMU process exit with status
//! `(v << 1) | 1`. Without that device the write lands on an unassigned port
//! and QEMU ignores it.

use vstd::prelude::*;

verus! {

/// Values written to the `isa-debug-exit` port. The process exit codes are
/// `(value << 1) | 1`, so `Success` yields 33 and `Failed` yields 35; 0 is
/// unreachable through this device.
#[derive(Clone, Copy, Debug, PartialEq, Eq, Structural)]
pub enum QemuExitCode {
    Success,
    Failed,
}

impl QemuExitCode {
    /// The value written to the port: `0x10` for `Success`, `0x11` for
    /// `Failed`.
    pub fn value(self) -> (r: u32)
        ensures
            r == (match self {
                QemuExitCode::Success => 0x10u32,
                QemuExitCode::Failed => 0x11u32,
            }),
    {
        match self {
            QemuExitCode::Success => 0x10,
            QemuExitCode::Failed => 0x11,
        }
    }
}

} // verus!
