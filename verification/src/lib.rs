//! `why` — a Linux program troubleshooter.
//!
//! It answers one question: *why does this ELF program not start?* It reads the
//! ELF metadata itself (no `ldd`, no `readelf`), walks the transitive dependency
//! graph, and reports what is missing in plain language instead of dumping raw
//! diagnostics.
//!
//! Everything here is a function of plain values, with a contract that says
//! what it returns. Files, directories and variables are handed over by the
//! program around it; where it is not known beforehand which ones are needed,
//! the library asks for them one after the other.
//!
//! * [`elf`] — a small, dependency-free ELF reader
//! * [`resolve`] — dynamic-loader library search path semantics
//! * [`conf`] — the directories that `ld.so.conf` configures
//! * [`analyze`] — turns ELF facts into findings
//! * [`report`] — renders findings for humans
//! * [`distro`] — package-manager hints for suggested next steps
//! * [`cli`] — the command line
//! * [`text`], [`path`], [`order`], [`table`] — what the others are written in
//! * [`laws`] — what the results must satisfy, said of what goes in and comes out

use vstd::prelude::*;

pub mod analyze;
pub mod cli;
pub mod conf;
pub mod distro;
pub mod elf;
pub mod laws;
pub mod order;
pub mod path;
pub mod report;
pub mod resolve;
pub mod table;
pub mod text;

verus! {

/// The version of the program.
pub const VERSION: &'static str = "0.1.0";

} // verus!
