//! A transparent wrapper over a memory object that records every access.
//!
//! Each read or write of any width appends one observation — the base address
//! and the access kind — to a log, then delegates to the wrapped memory. The
//! replay machine uses the log to detect watchpoint hits during a step
//! without the step engine knowing about watchpoints.

use vstd::prelude::*;

use crate::memory::{
    read128, read16, read32, read64, read8, write128, write16, write32, write64, write8, Memory,
};

verus! {

#[derive(Clone, Copy, Debug, PartialEq, Eq, Structural)]
pub enum AccessKind {
    Read,
    Write,
}

/// One observed memory access: the base address of a logical read or write.
#[derive(Clone, Copy, Debug, PartialEq, Eq, Structural)]
pub struct MemAccess {
    pub kind: AccessKind,
    pub addr: u64,
}

/// The wrapper. The wrapped memory moves in at construction and out again
/// through `into_parts`.
pub struct MemSniffer<M: Memory> {
    pub mem: M,
    pub log: Vec<MemAccess>,
}

impl<M: Memory> MemSniffer<M> {
    pub fn new(mem: M) -> (r: Self)
        ensures
            r.mem == mem,
            r.log@ == Seq::<MemAccess>::empty(),
    {
        let r = MemSniffer { mem, log: Vec::new() };
        proof {
            assert(r.log@ =~= Seq::<MemAccess>::empty());
        }
        r
    }

    pub fn into_parts(self) -> (r: (M, Vec<MemAccess>))
        ensures
            r.0 == self.mem,
            r.1 == self.log,
    {
        (self.mem, self.log)
    }

    pub fn r8(&mut self, addr: u64) -> (r: u8)
        ensures
            final(self).mem.mview() == old(self).mem.mview(),
            r == read8(old(self).mem.mview(), addr),
            final(self).log@ == old(self).log@.push(MemAccess { kind: AccessKind::Read, addr }),
    {
        self.log.push(MemAccess { kind: AccessKind::Read, addr });
        self.mem.r8(addr)
    }

    pub fn r16(&mut self, addr: u64) -> (r: u16)
        ensures
            final(self).mem.mview() == old(self).mem.mview(),
            r == read16(old(self).mem.mview(), addr),
            final(self).log@ == old(self).log@.push(MemAccess { kind: AccessKind::Read, addr }),
    {
        self.log.push(MemAccess { kind: AccessKind::Read, addr });
        self.mem.r16(addr)
    }

    pub fn r32(&mut self, addr: u64) -> (r: u32)
        ensures
            final(self).mem.mview() == old(self).mem.mview(),
            r == read32(old(self).mem.mview(), addr),
            final(self).log@ == old(self).log@.push(MemAccess { kind: AccessKind::Read, addr }),
    {
        self.log.push(MemAccess { kind: AccessKind::Read, addr });
        self.mem.r32(addr)
    }

    pub fn r64(&mut self, addr: u64) -> (r: u64)
        ensures
            final(self).mem.mview() == old(self).mem.mview(),
            r == read64(old(self).mem.mview(), addr),
            final(self).log@ == old(self).log@.push(MemAccess { kind: AccessKind::Read, addr }),
    {
        self.log.push(MemAccess { kind: AccessKind::Read, addr });
        self.mem.r64(addr)
    }

    pub fn r128(&mut self, addr: u64) -> (r: u128)
        ensures
            final(self).mem.mview() == old(self).mem.mview(),
            r == read128(old(self).mem.mview(), addr),
            final(self).log@ == old(self).log@.push(MemAccess { kind: AccessKind::Read, addr }),
    {
        self.log.push(MemAccess { kind: AccessKind::Read, addr });
        self.mem.r128(addr)
    }

    pub fn w8(&mut self, addr: u64, val: u8)
        ensures
            final(self).mem.mview() == write8(old(self).mem.mview(), addr, val),
            final(self).log@ == old(self).log@.push(MemAccess { kind: AccessKind::Write, addr }),
    {
        self.log.push(MemAccess { kind: AccessKind::Write, addr });
        self.mem.w8(addr, val);
    }

    pub fn w16(&mut self, addr: u64, val: u16)
        ensures
            final(self).mem.mview() == write16(old(self).mem.mview(), addr, val),
            final(self).log@ == old(self).log@.push(MemAccess { kind: AccessKind::Write, addr }),
    {
        self.log.push(MemAccess { kind: AccessKind::Write, addr });
        self.mem.w16(addr, val);
    }

    pub fn w32(&mut self, addr: u64, val: u32)
        ensures
            final(self).mem.mview() == write32(old(self).mem.mview(), addr, val),
            final(self).log@ == old(self).log@.push(MemAccess { kind: AccessKind::Write, addr }),
    {
        self.log.push(MemAccess { kind: AccessKind::Write, addr });
        self.mem.w32(addr, val);
    }

    pub fn w64(&mut self, addr: u64, val: u64)
        ensures
            final(self).mem.mview() == write64(old(self).mem.mview(), addr, val),
            final(self).log@ == old(self).log@.push(MemAccess { kind: AccessKind::Write, addr }),
    {
        self.log.push(MemAccess { kind: AccessKind::Write, addr });
        self.mem.w64(addr, val);
    }

    pub fn w128(&mut self, addr: u64, val: u128)
        ensures
            final(self).mem.mview() == write128(old(self).mem.mview(), addr, val),
            final(self).log@ == old(self).log@.push(MemAccess { kind: AccessKind::Write, addr }),
    {
        self.log.push(MemAccess { kind: AccessKind::Write, addr });
        self.mem.w128(addr, val);
    }
}

} // verus!
