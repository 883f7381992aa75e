//! Identify conditional branches that behave invariantly — always taken or
//! never taken — across a set of recorded execution traces of an ARM binary.
//!
//! Trace lines carry hexadecimal instruction addresses whose least
//! significant bit selects the decoding mode. The classifier walks the
//! addresses in recorded order, decodes each instruction, and accumulates
//! taken / not-taken evidence per conditional-branch address. The report
//! lists every branch for which exactly one of the two outcomes was seen.

pub mod classify;
pub mod laws;
pub mod hex;
pub mod insn;
pub mod mode;
pub mod report;
pub mod trace;

use vstd::prelude::*;

verus! {

/// The failures that can arise while turning one trace line into evidence.
#[derive(Debug, Clone, Copy, PartialEq, Eq, Structural)]
pub enum AnalysisError {
    /// The trace line is not a hexadecimal address.
    Parse,
    /// The effective address falls outside the loaded image.
    Range,
    /// The bytes at the address did not decode as an instruction.
    Decode,
}

} // verus!
