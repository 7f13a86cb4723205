//! Numbers reserved by the SIG for PACS and ASCS.

use vstd::prelude::*;

verus! {

pub const SINK_PAC: u16 = 0x2BC9;

pub const SINK_AUDIO_LOCATIONS: u16 = 0x2BCA;

pub const SOURCE_PAC: u16 = 0x2BCB;

pub const AVAILABLE_CONTEXTS: u16 = 0x2BCD;

pub const SUPPORTED_CONTEXTS: u16 = 0x2BCE;

pub const SINK_ASE: u16 = 0x2BC4;

pub const SOURCE_ASE: u16 = 0x2BC5;

pub const ASE_CONTROL_POINT: u16 = 0x2BC6;

pub const SERVICE_PACS: u16 = 0x1850;

pub const SERVICE_ASCS: u16 = 0x184E;

} // verus!
