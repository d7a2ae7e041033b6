//! The StreamInfo block: the stream's global parameters.
use vstd::prelude::*;

use crate::bitstream::{bit_len, bits_value, BitReader};
use crate::error::FlacError;

verus! {

/// The MD5 signature of the unencoded samples.
#[derive(Clone, Copy, Debug)]
pub struct MD5(pub [u8; 16]);

impl PartialEq for MD5 {
    fn eq(&self, other: &MD5) -> (r: bool) {
        let mut i: usize = 0;
        while i < 16
            invariant
                i <= 16,
                forall|j: int| 0 <= j < i ==> self.0@[j] == other.0@[j],
            decreases 16 - i,
        {
            if self.0[i] != other.0[i] {
                return false;
            }
            i = i + 1;
        }
        proof {
            assert(self.0@ =~= other.0@);
        }
        true
    }
}

impl vstd::std_specs::cmp::PartialEqSpecImpl for MD5 {
    open spec fn obeys_eq_spec() -> bool {
        true
    }

    open spec fn eq_spec(&self, other: &MD5) -> bool {
        self.0@ == other.0@
    }
}

/// The mandatory first metadata block.
#[derive(Clone, Copy, Debug, PartialEq)]
pub struct StreamInfo {
    /// Minimum and maximum samples per block.
    pub block_size: (u16, u16),
    /// Minimum and maximum bytes per frame; 0 means unknown.
    pub frame_size: (u32, u32),
    /// Samples per second.
    pub sample_rate: u32,
    /// 1 to 8.
    pub channels: u8,
    /// 4 to 32.
    pub bits_per_sample: u8,
    /// Samples per channel in the whole stream; 0 means unknown.
    pub samples: u64,
    pub signature: MD5,
}

/// Whether the 34-byte StreamInfo payload at bit `p` keeps the block's invariants:
/// minimum sizes not above the maximum ones (frame sizes only where both are known),
/// a sample rate from 1 to 655350, and at least 4 bits per sample.
pub open spec fn payload_valid(d: Seq<u8>, p: int) -> bool {
    &&& bits_value(d, p, 16) <= bits_value(d, p + 16, 16)
    &&& (bits_value(d, p + 32, 24) == 0 || bits_value(d, p + 56, 24) == 0 || bits_value(
        d,
        p + 32,
        24,
    ) <= bits_value(d, p + 56, 24))
    &&& 0 < bits_value(d, p + 80, 20) <= 655350
    &&& bits_value(d, p + 103, 5) + 1 >= 4
}

/// The outcome of reading a StreamInfo payload of `length` bytes at bit `p`.
pub open spec fn payload_spec(d: Seq<u8>, p: int, length: nat) -> Result<(), FlacError> {
    if length != 34 {
        Err(FlacError::InvalidStreamInfo)
    } else if p + 272 > bit_len(d) {
        Err(FlacError::TruncatedMetadata)
    } else if !payload_valid(d, p) {
        Err(FlacError::InvalidStreamInfo)
    } else {
        Ok(())
    }
}

/// Whether `si` holds the fields of the payload at bit `p`, in the order of the format:
/// 16, 16, 24, 24, 20, 3 (channels - 1), 5 (bits per sample - 1) and 36 bits, then
/// the 16 signature bytes.
pub open spec fn fields_at(d: Seq<u8>, p: int, si: StreamInfo) -> bool {
    &&& si.block_size.0 == bits_value(d, p, 16)
    &&& si.block_size.1 == bits_value(d, p + 16, 16)
    &&& si.frame_size.0 == bits_value(d, p + 32, 24)
    &&& si.frame_size.1 == bits_value(d, p + 56, 24)
    &&& si.sample_rate == bits_value(d, p + 80, 20)
    &&& si.channels == bits_value(d, p + 100, 3) + 1
    &&& si.bits_per_sample == bits_value(d, p + 103, 5) + 1
    &&& si.samples == bits_value(d, p + 108, 36)
    &&& si.signature.0@ == d.subrange(p / 8 + 18, p / 8 + 34)
}

impl StreamInfo {
    /// The invariants of a StreamInfo block.
    pub open spec fn wf(&self) -> bool {
        &&& self.block_size.0 <= self.block_size.1
        &&& (self.frame_size.0 == 0 || self.frame_size.1 == 0 || self.frame_size.0
            <= self.frame_size.1)
        &&& 0 < self.sample_rate <= 655350
        &&& 1 <= self.channels <= 8
        &&& 4 <= self.bits_per_sample <= 32
    }

    /// A StreamInfo with every field zero, to be filled by `transfer`.
    pub fn initialize() -> (r: StreamInfo)
        ensures
            r.block_size == (0u16, 0u16),
            r.frame_size == (0u32, 0u32),
            r.sample_rate == 0,
            r.channels == 0,
            r.bits_per_sample == 0,
            r.samples == 0,
            r.signature.0@ == Seq::new(16, |i: int| 0u8),
    {
        let r = StreamInfo {
            block_size: (0, 0),
            frame_size: (0, 0),
            sample_rate: 0,
            channels: 0,
            bits_per_sample: 0,
            samples: 0,
            signature: MD5([0u8; 16]),
        };
        proof {
            assert(r.signature.0@ =~= Seq::new(16, |i: int| 0u8));
        }
        r
    }

    /// Sets every field back to zero.
    pub fn reinitialize(&mut self)
        ensures
            final(self).block_size == (0u16, 0u16),
            final(self).frame_size == (0u32, 0u32),
            final(self).sample_rate == 0,
            final(self).channels == 0,
            final(self).bits_per_sample == 0,
            final(self).samples == 0,
            final(self).signature.0@ == Seq::new(16, |i: int| 0u8),
    {
        self.block_size = (0, 0);
        self.frame_size = (0, 0);
        self.sample_rate = 0;
        self.channels = 0;
        self.bits_per_sample = 0;
        self.samples = 0;
        self.signature = MD5([0u8; 16]);
        proof {
            assert(self.signature.0@ =~= Seq::new(16, |i: int| 0u8));
        }
    }

    /// Reads a StreamInfo payload of `length` bytes, the block header being read
    /// already. It must be 34 bytes long and keep the invariants of `wf`; a wrong
    /// length, or a payload cut short, is refused before anything is read.
    pub fn read_payload(stream: &mut BitReader, length: u64) -> (r: Result<StreamInfo, FlacError>)
        requires
            old(stream)@.1 % 8 == 0,
        ensures
            final(stream)@.0 == old(stream)@.0,
            match payload_spec(old(stream)@.0, old(stream)@.1 as int, length as nat) {
                Ok(_) => {
                    &&& r is Ok
                    &&& fields_at(old(stream)@.0, old(stream)@.1 as int, r->Ok_0)
                    &&& r->Ok_0.wf()
                    &&& final(stream)@.1 == old(stream)@.1 + 272
                },
                Err(e) => r == Err::<StreamInfo, FlacError>(e),
            },
            length != 34 || old(stream)@.1 + 272 > bit_len(old(stream)@.0) ==> final(stream)@
                == old(stream)@,
    {
        if length != 34 {
            return Err(FlacError::InvalidStreamInfo);
        }
        if stream.bits_left() < 272 {
            return Err(FlacError::TruncatedMetadata);
        }
        let ghost d = stream@.0;
        let ghost p = stream@.1 as int;
        let min_block = match stream.read_bits(16) {
            Ok(v) => v,
            Err(_) => {
                return Err(FlacError::TruncatedMetadata);
            },
        };
        let max_block = match stream.read_bits(16) {
            Ok(v) => v,
            Err(_) => {
                return Err(FlacError::TruncatedMetadata);
            },
        };
        let min_frame = match stream.read_bits(24) {
            Ok(v) => v,
            Err(_) => {
                return Err(FlacError::TruncatedMetadata);
            },
        };
        let max_frame = match stream.read_bits(24) {
            Ok(v) => v,
            Err(_) => {
                return Err(FlacError::TruncatedMetadata);
            },
        };
        let sample_rate = match stream.read_bits(20) {
            Ok(v) => v,
            Err(_) => {
                return Err(FlacError::TruncatedMetadata);
            },
        };
        let channels = match stream.read_bits(3) {
            Ok(v) => v,
            Err(_) => {
                return Err(FlacError::TruncatedMetadata);
            },
        };
        let bits = match stream.read_bits(5) {
            Ok(v) => v,
            Err(_) => {
                return Err(FlacError::TruncatedMetadata);
            },
        };
        let samples = match stream.read_bits(36) {
            Ok(v) => v,
            Err(_) => {
                return Err(FlacError::TruncatedMetadata);
            },
        };
        let sig = match stream.read_bytes(16) {
            Ok(v) => v,
            Err(_) => {
                return Err(FlacError::TruncatedMetadata);
            },
        };
        proof {
            crate::bitstream::lemma_bits_value_bound(d, p, 16);
            crate::bitstream::lemma_bits_value_bound(d, p + 16, 16);
            crate::bitstream::lemma_bits_value_bound(d, p + 32, 24);
            crate::bitstream::lemma_bits_value_bound(d, p + 56, 24);
            crate::bitstream::lemma_bits_value_bound(d, p + 80, 20);
            crate::bitstream::lemma_bits_value_bound(d, p + 100, 3);
            crate::bitstream::lemma_bits_value_bound(d, p + 103, 5);
            crate::bitstream::lemma_bits_value_bound(d, p + 108, 36);
            vstd::arithmetic::power2::lemma2_to64();
            vstd::arithmetic::power2::lemma2_to64_rest();
        }
        if min_block > max_block || (min_frame != 0 && max_frame != 0 && min_frame > max_frame)
            || sample_rate == 0 || sample_rate > 655350 || bits + 1 < 4 {
            return Err(FlacError::InvalidStreamInfo);
        }
        let signature = MD5(
            [
                sig[0],
                sig[1],
                sig[2],
                sig[3],
                sig[4],
                sig[5],
                sig[6],
                sig[7],
                sig[8],
                sig[9],
                sig[10],
                sig[11],
                sig[12],
                sig[13],
                sig[14],
                sig[15],
            ],
        );
        proof {
            assert(signature.0@ =~= sig@);
        }
        Ok(
            StreamInfo {
                block_size: (min_block as u16, max_block as u16),
                frame_size: (min_frame as u32, max_frame as u32),
                sample_rate: sample_rate as u32,
                channels: (channels + 1) as u8,
                bits_per_sample: (bits + 1) as u8,
                samples,
                signature,
            },
        )
    }

    /// Reads a StreamInfo block after its type byte: the 24-bit length, then the
    /// payload, into `result`. `result` is left as it was on failure, and a length
    /// other than 34 leaves the reader just after the length.
    pub fn transfer(stream: &mut BitReader, result: &mut StreamInfo) -> (r: Result<(), FlacError>)
        requires
            old(stream)@.1 % 8 == 0,
        ensures
            final(stream)@.0 == old(stream)@.0,
            ({
                let d = old(stream)@.0;
                let p = old(stream)@.1 as int;
                if p + 24 > bit_len(d) {
                    r == Err::<(), FlacError>(FlacError::TruncatedMetadata)
                } else {
                    match payload_spec(d, p + 24, bits_value(d, p, 24)) {
                        Ok(_) => {
                            &&& r is Ok
                            &&& fields_at(d, p + 24, *final(result))
                            &&& final(result).wf()
                            &&& final(stream)@.1 == p + 24 + 272
                        },
                        Err(e) => r == Err::<(), FlacError>(e),
                    }
                }
            }),
            r is Err ==> *final(result) == *old(result),
            old(stream)@.1 + 24 <= bit_len(old(stream)@.0) && bits_value(
                old(stream)@.0,
                old(stream)@.1 as int,
                24,
            ) != 34 ==> final(stream)@.1 == old(stream)@.1 + 24,
    {
        let length = match stream.read_bits(24) {
            Ok(v) => v,
            Err(_) => {
                return Err(FlacError::TruncatedMetadata);
            },
        };
        match StreamInfo::read_payload(stream, length) {
            Ok(si) => {
                *result = si;
                Ok(())
            },
            Err(e) => Err(e),
        }
    }
}

} // verus!
