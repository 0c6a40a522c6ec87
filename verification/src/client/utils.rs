//! The client's copy of the remaining-length codec.

use vstd::prelude::*;
use crate::server::utils::remaining_length_bytes;

verus! {

/// Encode a remaining-length field: 7-bit groups, low-order first.
pub fn remaining_length_encode(remaining_length: usize) -> (result: Vec<u8>)
    ensures
        result@ == remaining_length_bytes(remaining_length as nat),
{
    crate::server::utils::remaining_length_encode(remaining_length)
}

} // verus!
