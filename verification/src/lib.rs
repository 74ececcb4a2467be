//! A reversible replay engine for recorded RISC-V instruction traces.
//!
//! The crate models a RISC-V hart (registers plus sparse memory) driven by a
//! finite sequence of retirement events, supports stepping forward and
//! backward through the recording, and exposes the helpers a remote debug
//! session needs: breakpoints, watchpoints, register and memory inspection,
//! and trace-file parsing for the two supported trace flavors.

pub mod buffered_connection;
pub mod cheriot_ibex_trace;
pub mod cpu;
pub mod elf;
pub mod gdb;
pub mod ibex_trace;
pub mod lex;
pub mod machine;
pub mod mem_sniffer;
pub mod memory;
pub mod trace;
