//! Metadata blocks: a one-byte header (last-block flag and 7-bit type), a 24-bit
//! length, and the payload.
pub mod stream_info;
pub mod unknown;

use vstd::prelude::*;

use crate::bitstream::{bit_len, bits_value, BitReader};
use crate::error::FlacError;
use stream_info::{fields_at, payload_spec, StreamInfo};

verus! {

/// What a metadata block holds, as far as this library reads it.
#[derive(Debug, PartialEq)]
pub enum Ty {
    StreamInfo(StreamInfo),
    Unknown,
}

/// One metadata block: its kind and its raw payload.
#[derive(Debug, PartialEq)]
pub struct Metadata {
    pub ty: Ty,
    pub data: Vec<u8>,
}

/// The payload of the block whose header starts at bit `p`, `len` bytes long.
pub open spec fn block_payload(d: Seq<u8>, p: int, len: nat) -> Seq<u8> {
    d.subrange(p / 8 + 4, p / 8 + 4 + len)
}

impl Metadata {
    /// An empty block of unknown kind.
    pub fn initialize() -> (r: Metadata)
        ensures
            r.ty == Ty::Unknown,
            r.data@.len() == 0,
    {
        Metadata { ty: Ty::Unknown, data: Vec::with_capacity(4096) }
    }

    /// Empties the block again.
    pub fn reinitialize(&mut self)
        ensures
            final(self).ty == Ty::Unknown,
            final(self).data@.len() == 0,
    {
        self.ty = Ty::Unknown;
        self.data.clear();
    }
}

/// Reads a whole metadata block into `result` and returns its last-block flag. A
/// StreamInfo block (type 0) is also parsed; every other type is kept as raw bytes.
/// `result` is left as it was on failure.
pub fn transfer(stream: &mut BitReader, result: &mut Metadata) -> (r: Result<bool, FlacError>)
    requires
        old(stream)@.1 % 8 == 0,
    ensures
        final(stream)@.0 == old(stream)@.0,
        ({
            let d = old(stream)@.0;
            let p = old(stream)@.1 as int;
            let h = bits_value(d, p, 8);
            let len = bits_value(d, p + 8, 24);
            let payload = block_payload(d, p, len);
            if p + 32 > bit_len(d) || p + 32 + 8 * len > bit_len(d) {
                r == Err::<bool, FlacError>(FlacError::TruncatedMetadata)
            } else if h % 128 == 0 {
                match payload_spec(payload, 0, len) {
                    Ok(_) => {
                        &&& r == Ok::<bool, FlacError>(h >= 128)
                        &&& final(result).data@ == payload
                        &&& final(result).ty is StreamInfo
                        &&& fields_at(payload, 0, final(result).ty->StreamInfo_0)
                        &&& final(result).ty->StreamInfo_0.wf()
                        &&& final(stream)@.1 == p + 32 + 8 * len
                    },
                    Err(e) => r == Err::<bool, FlacError>(e),
                }
            } else {
                &&& r == Ok::<bool, FlacError>(h >= 128)
                &&& final(result).data@ == payload
                &&& final(result).ty == Ty::Unknown
                &&& final(stream)@.1 == p + 32 + 8 * len
            }
        }),
        r is Err ==> *final(result) == *old(result),
{
    let ghost d = stream@.0;
    let ghost p = stream@.1 as int;
    let header = match stream.read_bits(8) {
        Ok(v) => v,
        Err(_) => {
            return Err(FlacError::TruncatedMetadata);
        },
    };
    let length = match stream.read_bits(24) {
        Ok(v) => v,
        Err(_) => {
            return Err(FlacError::TruncatedMetadata);
        },
    };
    proof {
        crate::bitstream::lemma_bits_value_bound(d, p + 8, 24);
        vstd::arithmetic::power2::lemma2_to64();
    }
    let data = match stream.read_bytes(length as usize) {
        Ok(v) => v,
        Err(_) => {
            return Err(FlacError::TruncatedMetadata);
        },
    };
    let last = header >= 128;
    if header % 128 == 0 {
        let mut payload = BitReader::new(data.clone());
        match StreamInfo::read_payload(&mut payload, length) {
            Ok(si) => {
                result.ty = Ty::StreamInfo(si);
            },
            Err(e) => {
                return Err(e);
            },
        }
    } else {
        result.ty = Ty::Unknown;
    }
    result.data = data;
    Ok(last)
}

} // verus!
