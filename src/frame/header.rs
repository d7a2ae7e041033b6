//! The frame header: sync code, coded block size, sample rate, channel assignment and
//! sample size, the frame or sample number, and a CRC-8 over the header bytes.
use vstd::arithmetic::power2::*;
use vstd::prelude::*;

use crate::bitstream::{bit_len, bits_value, coded_spec, lemma_bits_value_bound, BitReader};
use crate::crc::{crc8, crc8_of};
use crate::error::FlacError;
use crate::metadata::stream_info::StreamInfo;

verus! {

/// The 14-bit frame sync code.
pub const SYNC_CODE: u64 = 0x3FFE;

/// A parsed frame header, with every coded field resolved.
#[derive(Clone, Copy, Debug, PartialEq, Eq, Structural)]
pub struct Header {
    pub variable_blocksize: bool,
    pub block_size: u32,
    pub sample_rate: u32,
    /// 0 to 7: that many channels plus one, coded independently; 8 left/side,
    /// 9 right/side, 10 mid/side.
    pub channel_assignment: u8,
    pub sample_size: u8,
    /// With variable blocking: the number of the first sample.
    pub sample_number: Option<u64>,
    /// With fixed blocking: the number of the frame.
    pub frame_number: Option<u32>,
    pub crc: u8,
}

/// The block size of a code that needs no extension bits (1 to 5, 8 to 15).
pub open spec fn block_size_of(code: nat) -> nat {
    if code == 1 {
        192
    } else if code <= 5 {
        576 * pow2((code - 2) as nat)
    } else {
        256 * pow2((code - 8) as nat)
    }
}

/// The sample rate of a code that needs no extension bits (1 to 11).
pub open spec fn sample_rate_of(code: nat) -> nat {
    if code == 1 {
        88200
    } else if code == 2 {
        176400
    } else if code == 3 {
        192000
    } else if code == 4 {
        8000
    } else if code == 5 {
        16000
    } else if code == 6 {
        22050
    } else if code == 7 {
        24000
    } else if code == 8 {
        32000
    } else if code == 9 {
        44100
    } else if code == 10 {
        48000
    } else {
        96000
    }
}

/// The sample size of a code that is not reserved; code 0 takes `inherited`.
pub open spec fn sample_size_of(code: nat, inherited: nat) -> nat {
    if code == 0 {
        inherited
    } else if code == 1 {
        8
    } else if code == 2 {
        12
    } else if code == 4 {
        16
    } else if code == 5 {
        20
    } else {
        24
    }
}

/// Resolving block size `code`, whose extension bits, if any, start at `p`; code 0
/// is invalid.
pub open spec fn block_size_spec(d: Seq<u8>, p: int, code: nat) -> Result<(nat, int), FlacError> {
    if code == 0 {
        Err(FlacError::InvalidBlockSizeCode)
    } else if code == 6 {
        if p + 8 > bit_len(d) {
            Err(FlacError::EndOfStream)
        } else {
            Ok((bits_value(d, p, 8) + 1, p + 8))
        }
    } else if code == 7 {
        if p + 16 > bit_len(d) {
            Err(FlacError::EndOfStream)
        } else {
            Ok((bits_value(d, p, 16) + 1, p + 16))
        }
    } else {
        Ok((block_size_of(code), p))
    }
}

/// Resolving sample rate `code`, whose extension bits, if any, start at `p`; code 15
/// is invalid.
pub open spec fn sample_rate_spec(d: Seq<u8>, p: int, code: nat, inherited: nat) -> Result<
    (nat, int),
    FlacError,
> {
    if code == 0 {
        Ok((inherited, p))
    } else if code == 15 {
        Err(FlacError::InvalidSampleRateCode)
    } else if code == 12 {
        if p + 8 > bit_len(d) {
            Err(FlacError::EndOfStream)
        } else {
            Ok((bits_value(d, p, 8) * 1000, p + 8))
        }
    } else if code == 13 || code == 14 {
        if p + 16 > bit_len(d) {
            Err(FlacError::EndOfStream)
        } else {
            Ok((bits_value(d, p, 16) * if code == 14 {
                10nat
            } else {
                1nat
            }, p + 16))
        }
    } else {
        Ok((sample_rate_of(code), p))
    }
}

/// Parsing a frame header at bit `p`, a byte boundary: the header and the position
/// after its CRC-8.
#[verifier::opaque]
pub open spec fn header_spec(d: Seq<u8>, p: int, si: StreamInfo) -> Result<(Header, int), FlacError> {
    if p + 14 > bit_len(d) {
        Err(FlacError::EndOfStream)
    } else if bits_value(d, p, 14) != SYNC_CODE {
        Err(FlacError::FrameSyncLost)
    } else if p + 32 > bit_len(d) {
        Err(FlacError::EndOfStream)
    } else {
        let variable = bits_value(d, p + 15, 1) == 1;
        let bs_code = bits_value(d, p + 16, 4);
        let sr_code = bits_value(d, p + 20, 4);
        let ch = bits_value(d, p + 24, 4);
        let ss_code = bits_value(d, p + 28, 3);
        if bits_value(d, p + 14, 1) != 0 || bits_value(d, p + 31, 1) != 0 {
            Err(FlacError::FrameSyncLost)
        } else if bs_code == 0 {
            Err(FlacError::InvalidBlockSizeCode)
        } else if sr_code == 15 {
            Err(FlacError::InvalidSampleRateCode)
        } else if ch > 10 {
            Err(FlacError::ReservedChannelAssignment)
        } else if ss_code == 3 || ss_code == 7 {
            Err(FlacError::ReservedSampleSize)
        } else {
            match coded_spec(d, p + 32) {
                Err(e) => Err(e),
                Ok((num, p1)) => if !variable && num > u32::MAX {
                    Err(FlacError::InvalidCodedNumber)
                } else {
                    match block_size_spec(d, p1, bs_code) {
                        Err(e) => Err(e),
                        Ok((bs, p2)) => match sample_rate_spec(
                            d,
                            p2,
                            sr_code,
                            si.sample_rate as nat,
                        ) {
                            Err(e) => Err(e),
                            Ok((sr, p3)) => if p3 + 8 > bit_len(d) {
                                Err(FlacError::EndOfStream)
                            } else if bits_value(d, p3, 8) != crc8_of(d.subrange(p / 8, p3 / 8)) {
                                Err(FlacError::FrameHeaderCrcMismatch)
                            } else {
                                Ok(
                                    (
                                        Header {
                                            variable_blocksize: variable,
                                            block_size: bs as u32,
                                            sample_rate: sr as u32,
                                            channel_assignment: ch as u8,
                                            sample_size: sample_size_of(
                                                ss_code,
                                                si.bits_per_sample as nat,
                                            ) as u8,
                                            sample_number: if variable {
                                                Some(num)
                                            } else {
                                                None
                                            },
                                            frame_number: if variable {
                                                None
                                            } else {
                                                Some(num as u32)
                                            },
                                            crc: bits_value(d, p3, 8) as u8,
                                        },
                                        p3 + 8,
                                    ),
                                )
                            },
                        },
                    }
                },
            }
        }
    }
}

impl Header {
    /// Parses a frame header at a byte boundary; a sample rate or sample size coded
    /// as 0 is taken from `stream_info`.
    #[verifier::rlimit(30)]
    pub fn from(stream: &mut BitReader, stream_info: &StreamInfo) -> (r: Result<Header, FlacError>)
        requires
            old(stream)@.1 % 8 == 0,
        ensures
            final(stream)@.0 == old(stream)@.0,
            old(stream)@.1 <= final(stream)@.1,
            match header_spec(old(stream)@.0, old(stream)@.1 as int, *stream_info) {
                Ok((h, q)) => r == Ok::<Header, FlacError>(h) && final(stream)@.1 == q,
                Err(e) => r == Err::<Header, FlacError>(e),
            },
            r is Ok ==> {
                &&& old(stream)@.1 < final(stream)@.1
                &&& 1 <= r->Ok_0.block_size <= 65536
                &&& r->Ok_0.channel_assignment <= 10
                &&& final(stream)@.1 % 8 == 0
                &&& (stream_info.wf() ==> 4 <= r->Ok_0.sample_size <= 32)
            },
    {
        proof {
            reveal(header_spec);
        }
        let ghost d = stream@.0;
        let ghost p = stream@.1 as int;
        let start = stream.byte_position();
        proof {
            lemma2_to64();
        }
        let sync = match stream.read_bits(14) {
            Ok(v) => v,
            Err(e) => {
                return Err(e);
            },
        };
        if sync != SYNC_CODE {
            return Err(FlacError::FrameSyncLost);
        }
        let reserved = match stream.read_bits(1) {
            Ok(v) => v,
            Err(e) => {
                return Err(e);
            },
        };
        let variable_blocksize = match stream.read_bits(1) {
            Ok(v) => v == 1,
            Err(e) => {
                return Err(e);
            },
        };
        let block_size_code = match stream.read_bits(4) {
            Ok(v) => v,
            Err(e) => {
                return Err(e);
            },
        };
        let sample_rate_code = match stream.read_bits(4) {
            Ok(v) => v,
            Err(e) => {
                return Err(e);
            },
        };
        let channel_assignment = match stream.read_bits(4) {
            Ok(v) => v,
            Err(e) => {
                return Err(e);
            },
        };
        let sample_size_code = match stream.read_bits(3) {
            Ok(v) => v,
            Err(e) => {
                return Err(e);
            },
        };
        let padding = match stream.read_bits(1) {
            Ok(v) => v,
            Err(e) => {
                return Err(e);
            },
        };
        proof {
            lemma_bits_value_bound(d, p + 16, 4);
            lemma_bits_value_bound(d, p + 20, 4);
            lemma_bits_value_bound(d, p + 24, 4);
            lemma_bits_value_bound(d, p + 28, 3);
        }
        if reserved != 0 || padding != 0 {
            return Err(FlacError::FrameSyncLost);
        }
        if block_size_code == 0 {
            return Err(FlacError::InvalidBlockSizeCode);
        }
        if sample_rate_code == 15 {
            return Err(FlacError::InvalidSampleRateCode);
        }
        if channel_assignment > 10 {
            return Err(FlacError::ReservedChannelAssignment);
        }
        let sample_size = match Header::finalize_sample_size(sample_size_code as u8, stream_info) {
            Ok(v) => v,
            Err(e) => {
                return Err(e);
            },
        };
        let decoded_number = match stream.read_utf8_coded() {
            Ok(v) => v,
            Err(e) => {
                return Err(e);
            },
        };
        if !variable_blocksize && decoded_number > 0xFFFF_FFFF {
            return Err(FlacError::InvalidCodedNumber);
        }
        let block_size = match Header::finalize_block_size(block_size_code as u8, stream) {
            Ok(v) => v,
            Err(e) => {
                return Err(e);
            },
        };
        let sample_rate = match Header::finalize_sample_rate(
            sample_rate_code as u8,
            stream_info,
            stream,
        ) {
            Ok(v) => v,
            Err(e) => {
                return Err(e);
            },
        };
        let ghost p3 = stream@.1 as int;
        let end = stream.byte_position();
        let crc = match stream.read_bits(8) {
            Ok(v) => v,
            Err(e) => {
                return Err(e);
            },
        };
        proof {
            assert(p3 % 8 == 0);
            lemma_bits_value_bound(d, p3, 8);
        }
        if crc != crc8(stream.data(), start, end) as u64 {
            return Err(FlacError::FrameHeaderCrcMismatch);
        }
        Ok(
            Header {
                variable_blocksize,
                block_size,
                sample_rate,
                channel_assignment: channel_assignment as u8,
                sample_size,
                sample_number: if variable_blocksize {
                    Some(decoded_number)
                } else {
                    None
                },
                frame_number: if variable_blocksize {
                    None
                } else {
                    Some(decoded_number as u32)
                },
                crc: crc as u8,
            },
        )
    }

    /// Resolves a block size code, reading its extension bits for codes 6 and 7; code 0
    /// fails with `InvalidBlockSizeCode` and reads nothing.
    fn finalize_block_size(block_size_code: u8, stream: &mut BitReader) -> (r: Result<u32, FlacError>)
        requires
            block_size_code <= 15,
        ensures
            final(stream)@.0 == old(stream)@.0,
            old(stream)@.1 <= final(stream)@.1,
            match block_size_spec(old(stream)@.0, old(stream)@.1 as int, block_size_code as nat) {
                Ok((v, q)) => r == Ok::<u32, FlacError>(v as u32) && final(stream)@.1 == q && 1 <= v
                    <= 65536,
                Err(e) => r == Err::<u32, FlacError>(e),
            },
            r is Err ==> final(stream)@ == old(stream)@,
    {
        proof {
            lemma2_to64();
            lemma_bits_value_bound(old(stream)@.0, old(stream)@.1 as int, 8);
            lemma_bits_value_bound(old(stream)@.0, old(stream)@.1 as int, 16);
        }
        match block_size_code {
            0 => Err(FlacError::InvalidBlockSizeCode),
            1 => Ok(192),
            2 => Ok(576),
            3 => Ok(1152),
            4 => Ok(2304),
            5 => Ok(4608),
            6 => match stream.read_bits(8) {
                Ok(v) => Ok(v as u32 + 1),
                Err(e) => Err(e),
            },
            7 => match stream.read_bits(16) {
                Ok(v) => Ok(v as u32 + 1),
                Err(e) => Err(e),
            },
            8 => Ok(256),
            9 => Ok(512),
            10 => Ok(1024),
            11 => Ok(2048),
            12 => Ok(4096),
            13 => Ok(8192),
            14 => Ok(16384),
            _ => Ok(32768),
        }
    }

    /// Resolves a sample rate code, reading its extension bits for codes 12 to 14;
    /// code 0 takes the rate of `stream_info`, and code 15 fails with
    /// `InvalidSampleRateCode` and reads nothing.
    fn finalize_sample_rate(sample_rate_code: u8, stream_info: &StreamInfo, stream: &mut BitReader) -> (r:
        Result<u32, FlacError>)
        requires
            sample_rate_code <= 15,
        ensures
            final(stream)@.0 == old(stream)@.0,
            old(stream)@.1 <= final(stream)@.1,
            match sample_rate_spec(
                old(stream)@.0,
                old(stream)@.1 as int,
                sample_rate_code as nat,
                stream_info.sample_rate as nat,
            ) {
                Ok((v, q)) => r == Ok::<u32, FlacError>(v as u32) && final(stream)@.1 == q && v
                    <= u32::MAX,
                Err(e) => r == Err::<u32, FlacError>(e),
            },
            r is Err ==> final(stream)@ == old(stream)@,
    {
        proof {
            lemma2_to64();
            lemma_bits_value_bound(old(stream)@.0, old(stream)@.1 as int, 8);
            lemma_bits_value_bound(old(stream)@.0, old(stream)@.1 as int, 16);
        }
        match sample_rate_code {
            0 => Ok(stream_info.sample_rate),
            1 => Ok(88_200),
            2 => Ok(176_400),
            3 => Ok(192_000),
            4 => Ok(8_000),
            5 => Ok(16_000),
            6 => Ok(22_050),
            7 => Ok(24_000),
            8 => Ok(32_000),
            9 => Ok(44_100),
            10 => Ok(48_000),
            11 => Ok(96_000),
            12 => match stream.read_bits(8) {
                Ok(v) => Ok(v as u32 * 1000),
                Err(e) => Err(e),
            },
            13 => match stream.read_bits(16) {
                Ok(v) => Ok(v as u32),
                Err(e) => Err(e),
            },
            14 => match stream.read_bits(16) {
                Ok(v) => Ok(v as u32 * 10),
                Err(e) => Err(e),
            },
            _ => Err(FlacError::InvalidSampleRateCode),
        }
    }

    /// Resolves a sample size code: 3 and 7 are reserved, 0 takes the sample size of
    /// `stream_info`.
    pub fn finalize_sample_size(sample_size_code: u8, stream_info: &StreamInfo) -> (r: Result<
        u8,
        FlacError,
    >)
        requires
            sample_size_code <= 7,
        ensures
            sample_size_code == 3 || sample_size_code == 7 ==> r == Err::<u8, FlacError>(
                FlacError::ReservedSampleSize,
            ),
            sample_size_code != 3 && sample_size_code != 7 ==> r == Ok::<u8, FlacError>(
                sample_size_of(sample_size_code as nat, stream_info.bits_per_sample as nat) as u8,
            ),
    {
        match sample_size_code {
            0 => Ok(stream_info.bits_per_sample),
            1 => Ok(8),
            2 => Ok(12),
            4 => Ok(16),
            5 => Ok(20),
            6 => Ok(24),
            _ => Err(FlacError::ReservedSampleSize),
        }
    }
}

/// CRC conformance of frame headers: a header parses only when its stored CRC-8 is
/// the CRC-8 of the header bytes before it.
pub proof fn law_header_crc(d: Seq<u8>, p: int, si: StreamInfo)
    requires
        header_spec(d, p, si) is Ok,
    ensures
        ({
            let (h, q) = header_spec(d, p, si)->Ok_0;
            h.crc == crc8_of(d.subrange(p / 8, (q - 8) / 8))
        }),
{
    reveal(header_spec);
    lemma_bits_value_bound(d, header_spec(d, p, si)->Ok_0.1 - 8, 8);
    lemma2_to64();
}

} // verus!
