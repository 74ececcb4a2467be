//! The retirement-event data model: one record of the trace describes the
//! architectural commit of one instruction together with its register- and
//! memory-side effects. After an event has been replayed forward once, its
//! `prev_value` fields carry the values it overwrote, so the trace itself is
//! the undo log for backward replay.

use vstd::prelude::*;

verus! {

/// Register width of the traced hart, selected from the ELF class.
#[derive(Clone, Copy, Debug, PartialEq, Eq, Structural)]
pub enum Xlen {
    X32,
    X64,
}

/// A stored value, tagged with its width. The 128-bit arm carries capability
/// stores: the high half is the metadata word.
#[derive(Clone, Copy, Debug, PartialEq, Eq)]
pub enum Data {
    U8(u8),
    U16(u16),
    U32(u32),
    U64(u64),
    U128(u128),
}

impl Data {
    /// Width of the value in bytes.
    pub open spec fn spec_width(self) -> int {
        match self {
            Data::U8(_) => 1,
            Data::U16(_) => 2,
            Data::U32(_) => 4,
            Data::U64(_) => 8,
            Data::U128(_) => 16,
        }
    }

    /// The numeric value, widened.
    pub open spec fn spec_value(self) -> int {
        match self {
            Data::U8(v) => v as int,
            Data::U16(v) => v as int,
            Data::U32(v) => v as int,
            Data::U64(v) => v as int,
            Data::U128(v) => v as int,
        }
    }
}

/// An integer-register write carried by an event. Index 0 (the hard-wired
/// zero register) is never recorded.
#[derive(Clone, Copy, Debug, PartialEq, Eq)]
pub struct XRegWrite {
    pub index: u8,
    pub value: u64,
    pub prev_value: Option<u64>,
}

/// A memory store carried by an event.
#[derive(Clone, Copy, Debug, PartialEq, Eq)]
pub struct MemWrite {
    pub phys_addr: u64,
    pub value: Data,
    pub prev_value: Option<Data>,
}

/// One retired instruction of the trace.
#[derive(Debug, PartialEq, Eq)]
pub struct RetireEvent {
    pub time: u64,
    pub cycle: u64,
    pub pc: u64,
    pub trap: bool,
    pub instruction: Option<u32>,
    pub assembly_mnemonic: Vec<u8>,
    pub assembly_args: Vec<u8>,
    pub xwrite: Option<XRegWrite>,
    pub store: Option<MemWrite>,
}

impl Clone for RetireEvent {
    fn clone(&self) -> (r: Self)
        ensures
            r@ == self@,
    {
        let r = RetireEvent {
            time: self.time,
            cycle: self.cycle,
            pc: self.pc,
            trap: self.trap,
            instruction: self.instruction,
            assembly_mnemonic: self.assembly_mnemonic.clone(),
            assembly_args: self.assembly_args.clone(),
            xwrite: self.xwrite,
            store: self.store,
        };
        proof {
            assert(r.assembly_mnemonic@ =~= self.assembly_mnemonic@);
            assert(r.assembly_args@ =~= self.assembly_args@);
            assert(r@ =~= self@);
        }
        r
    }
}

/// The mathematical model of one event.
pub ghost struct EventV {
    pub time: u64,
    pub cycle: u64,
    pub pc: u64,
    pub trap: bool,
    pub instruction: Option<u32>,
    pub assembly_mnemonic: Seq<u8>,
    pub assembly_args: Seq<u8>,
    pub xwrite: Option<XRegWrite>,
    pub store: Option<MemWrite>,
}

impl View for RetireEvent {
    type V = EventV;

    open spec fn view(&self) -> EventV {
        EventV {
            time: self.time,
            cycle: self.cycle,
            pc: self.pc,
            trap: self.trap,
            instruction: self.instruction,
            assembly_mnemonic: self.assembly_mnemonic@,
            assembly_args: self.assembly_args@,
            xwrite: self.xwrite,
            store: self.store,
        }
    }
}

/// A well-formed event never writes integer register 0, and never writes a
/// register outside the 32-register file.
pub open spec fn event_wf(e: EventV) -> bool {
    e.xwrite matches Some(xw) ==> 1 <= xw.index < 32
}

/// Both `prev_value` fields are still unset: the event has not been replayed.
pub open spec fn event_prev_none(e: EventV) -> bool {
    &&& (e.xwrite matches Some(xw) ==> xw.prev_value is None)
    &&& (e.store matches Some(st) ==> st.prev_value is None)
}

/// Both `prev_value` fields are filled: the event has been replayed forward.
pub open spec fn event_prev_some(e: EventV) -> bool {
    &&& (e.xwrite matches Some(xw) ==> xw.prev_value is Some)
    &&& (e.store matches Some(st) ==> st.prev_value is Some)
}

/// The event with both `prev_value` fields cleared: its payload.
pub open spec fn strip_prev(e: EventV) -> EventV {
    EventV {
        xwrite: match e.xwrite {
            Some(xw) => Some(XRegWrite { prev_value: None, ..xw }),
            None => None,
        },
        store: match e.store {
            Some(st) => Some(MemWrite { prev_value: None, ..st }),
            None => None,
        },
        ..e
    }
}

/// Every event of a trace is well-formed.
pub open spec fn trace_wf(t: Seq<EventV>) -> bool {
    forall|i: int| 0 <= i < t.len() ==> event_wf(#[trigger] t[i])
}

/// Every event of a trace is unreplayed.
pub open spec fn trace_prev_none(t: Seq<EventV>) -> bool {
    forall|i: int| 0 <= i < t.len() ==> event_prev_none(#[trigger] t[i])
}

/// The model of a stored trace.
pub open spec fn trace_view(t: Seq<RetireEvent>) -> Seq<EventV> {
    t.map_values(|e: RetireEvent| e@)
}


/// Why a record failed to parse.
#[derive(Clone, Copy, Debug, PartialEq, Eq, Structural)]
pub enum ParseErr {
    FieldCount,
    BadTime,
    BadCycle,
    BadPc,
    BadInstruction,
    BadStoreValue,
    MultipleStores,
    BadPhysAddr,
    MultiplePhysAddrs,
    BadXRegValue,
    MultipleXWrites,
    StoreWithoutPa,
    UnknownAccessWidth,
    StoreTooWide,
    MissingHexPrefix,
    BadMetadata,
    BadStoreLength,
}

/// A parse failure together with the one-based line it happened on.
#[derive(Clone, Copy, Debug, PartialEq, Eq, Structural)]
pub struct TraceError {
    pub line: usize,
    pub kind: ParseErr,
}

} // verus!
