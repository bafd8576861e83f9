//! Processor identifiers carried by a CPU section.
use vstd::prelude::*;

verus! {

/// Motorola 68000: Sega Genesis, Sega CD, Mega Drive and Mega CD.
pub const MOTOROLA_68000: u8 = 0;

/// MIPS R3000 with the geometry transformation engine: PlayStation.
pub const MIPS_R300GTE: u8 = 7;

/// Hitachi SH-2: Sega Saturn.
pub const HITACHI_SH2: u8 = 8;

} // verus!
