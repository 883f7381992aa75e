//! Decoding-mode resolution from raw trace addresses.

use vstd::prelude::*;

verus! {

/// The instruction-encoding mode that a trace address selects.
#[derive(Debug, Clone, Copy, PartialEq, Eq, Structural)]
pub enum Mode {
    Arm,
    Thumb,
}

/// Least significant bit clear: ARM mode, the address as recorded. Bit set:
/// Thumb mode, the effective address with the tag bit stripped.
pub open spec fn spec_resolve_mode(raw: u64) -> (Mode, u64) {
    if raw % 2 == 0 {
        (Mode::Arm, raw)
    } else {
        (Mode::Thumb, (raw - 1) as u64)
    }
}

pub fn resolve_mode(raw: u64) -> (r: (Mode, u64))
    ensures
        r == spec_resolve_mode(raw),
{
    if raw % 2 == 0 {
        (Mode::Arm, raw)
    } else {
        (Mode::Thumb, raw - 1)
    }
}

/// Where the effective address falls inside the loaded image: the base
/// offset subtracted, in bounds only if it neither underflows nor reaches
/// past the image.
pub open spec fn spec_image_index(eff: u64, offset: u64, image_len: nat) -> Option<int> {
    if offset <= eff && eff - offset < image_len {
        Some(eff - offset)
    } else {
        None
    }
}

pub fn image_index(eff: u64, offset: u64, image_len: usize) -> (r: Option<usize>)
    ensures
        r matches Some(i) ==> spec_image_index(eff, offset, image_len as nat) == Some(i as int),
        r is None ==> spec_image_index(eff, offset, image_len as nat) is None,
{
    if offset <= eff {
        let d = eff - offset;
        if d < image_len as u64 {
            Some(d as usize)
        } else {
            None
        }
    } else {
        None
    }
}

} // verus!
