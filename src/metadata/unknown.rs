//! A metadata block whose payload this library does not interpret.
use vstd::prelude::*;

use crate::bitstream::{bit_len, bits_value, BitReader};
use crate::error::FlacError;

verus! {

/// The raw payload of a metadata block.
#[derive(Debug)]
pub struct Unknown {
    pub data: Vec<u8>,
}

impl Unknown {
    /// Reads a block after its type byte: the 24-bit length, then that many bytes.
    pub fn from(stream: &mut BitReader) -> (r: Result<Unknown, FlacError>)
        requires
            old(stream)@.1 % 8 == 0,
        ensures
            final(stream)@.0 == old(stream)@.0,
            ({
                let d = old(stream)@.0;
                let p = old(stream)@.1 as int;
                if p + 24 > bit_len(d) {
                    r == Err::<Unknown, FlacError>(FlacError::TruncatedMetadata)
                } else {
                    let len = bits_value(d, p, 24);
                    if p + 24 + 8 * len > bit_len(d) {
                        r == Err::<Unknown, FlacError>(FlacError::TruncatedMetadata)
                    } else {
                        &&& r is Ok
                        &&& r->Ok_0.data@ == d.subrange(p / 8 + 3, p / 8 + 3 + len)
                        &&& final(stream)@.1 == p + 24 + 8 * len
                    }
                }
            }),
    {
        let length = match stream.read_bits(24) {
            Ok(v) => v,
            Err(_) => {
                return Err(FlacError::TruncatedMetadata);
            },
        };
        proof {
            crate::bitstream::lemma_bits_value_bound(old(stream)@.0, old(stream)@.1 as int, 24);
            vstd::arithmetic::power2::lemma2_to64();
        }
        match stream.read_bytes(length as usize) {
            Ok(data) => Ok(Unknown { data }),
            Err(_) => Err(FlacError::TruncatedMetadata),
        }
    }
}

} // verus!
