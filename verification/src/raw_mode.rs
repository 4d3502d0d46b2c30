//! The computed part of raw-mode setup: the channel owner puts the device
//! file into raw mode so no line discipline touches the byte stream, and
//! additionally clears one local-mode flag bit, beyond what raw mode
//! already clears, that would otherwise let a control signal corrupt the
//! stream.

use vstd::prelude::*;

verus! {

/// The extra local-mode flag bit the bus clears beyond raw mode.
pub const EXTRA_LOCAL_FLAG: u32 = 8;

/// Clear the extra local-mode flag bit and nothing else.
pub fn clear_extra_local_flag(lflag: u32) -> (r: u32)
    ensures
        r & EXTRA_LOCAL_FLAG == 0,
        r | EXTRA_LOCAL_FLAG == lflag | EXTRA_LOCAL_FLAG,
{
    let r = lflag & !EXTRA_LOCAL_FLAG;
    proof {
        assert((lflag & !8u32) & 8u32 == 0) by (bit_vector);
        assert((lflag & !8u32) | 8u32 == lflag | 8u32) by (bit_vector);
    }
    r
}

} // verus!
