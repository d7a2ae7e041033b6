//! The container: the `fLaC` signature and the metadata blocks before the first frame.
use vstd::prelude::*;

use crate::bitstream::{bit_len, bits_value, BitReader};
use crate::error::FlacError;
use crate::metadata::stream_info::{fields_at, payload_spec, StreamInfo};

verus! {

/// The signature at the start of every stream.
pub open spec fn magic() -> Seq<u8> {
    seq![0x66u8, 0x4Cu8, 0x61u8, 0x43u8]
}

/// Skipping the metadata blocks that follow the StreamInfo block, from the block
/// header at bit `p` on: the position of the first frame.
pub open spec fn skip_blocks(d: Seq<u8>, p: int) -> Result<int, FlacError>
    decreases bit_len(d) - p,
{
    if p + 32 > bit_len(d) {
        Err(FlacError::TruncatedMetadata)
    } else {
        let h = bits_value(d, p, 8);
        let len = bits_value(d, p + 8, 24);
        if h % 128 == 0 {
            Err(FlacError::DuplicateStreamInfo)
        } else if h % 128 == 127 {
            Err(FlacError::InvalidMetadataType)
        } else if p + 32 + 8 * len > bit_len(d) {
            Err(FlacError::TruncatedMetadata)
        } else if h >= 128 {
            Ok(p + 32 + 8 * len)
        } else {
            skip_blocks(d, p + 32 + 8 * len)
        }
    }
}

/// Demultiplexing a stream that starts at bit `p`: the position of the first frame.
/// The StreamInfo payload stands at `p + 64`.
pub open spec fn demux_spec(d: Seq<u8>, p: int) -> Result<int, FlacError> {
    if p + 32 > bit_len(d) {
        Err(FlacError::TruncatedMetadata)
    } else if d.subrange(p / 8, p / 8 + 4) != magic() {
        Err(FlacError::BadMagic)
    } else if p + 64 > bit_len(d) {
        Err(FlacError::TruncatedMetadata)
    } else {
        let h = bits_value(d, p + 32, 8);
        let len = bits_value(d, p + 40, 24);
        if h % 128 != 0 {
            Err(FlacError::StreamInfoMissing)
        } else {
            match payload_spec(d, p + 64, len) {
                Err(e) => Err(e),
                Ok(_) => if h >= 128 {
                    Ok(p + 64 + 272)
                } else {
                    skip_blocks(d, p + 64 + 272)
                },
            }
        }
    }
}

/// Reads the signature and the metadata of a stream, and leaves its reader at the
/// first frame.
pub struct Demuxer {
    reader: BitReader,
}

impl View for Demuxer {
    type V = (Seq<u8>, nat);

    closed spec fn view(&self) -> (Seq<u8>, nat) {
        self.reader@
    }
}

impl Demuxer {
    /// A demuxer at the start of `data`.
    pub fn new(data: Vec<u8>) -> (r: Demuxer)
        requires
            8 * data@.len() <= u64::MAX,
        ensures
            r@ == (data@, 0nat),
    {
        Demuxer { reader: BitReader::new(data) }
    }

    /// The reader, at the first frame once `run` has succeeded.
    pub fn into_reader(self) -> (r: BitReader)
        ensures
            r@ == self@,
    {
        self.reader
    }

    /// Checks the signature, parses the StreamInfo block, which must come first and
    /// only once, and skips every other block by its length.
    #[verifier::rlimit(40)]
    pub fn run(&mut self) -> (r: Result<StreamInfo, FlacError>)
        requires
            old(self)@.1 % 8 == 0,
        ensures
            final(self)@.0 == old(self)@.0,
            match demux_spec(old(self)@.0, old(self)@.1 as int) {
                Ok(q) => {
                    &&& r is Ok
                    &&& fields_at(old(self)@.0, old(self)@.1 as int + 64, r->Ok_0)
                    &&& r->Ok_0.wf()
                    &&& final(self)@.1 == q
                },
                Err(e) => r == Err::<StreamInfo, FlacError>(e),
            },
            r == Err::<StreamInfo, FlacError>(FlacError::BadMagic) ==> final(self)@.1 == old(self)@.1
                + 32,
    {
        let ghost d = self.reader@.0;
        let ghost p = self.reader@.1 as int;
        let fourcc = match self.reader.read_bytes(4) {
            Ok(v) => v,
            Err(_) => {
                return Err(FlacError::TruncatedMetadata);
            },
        };
        if !(fourcc[0] == 0x66 && fourcc[1] == 0x4C && fourcc[2] == 0x61 && fourcc[3] == 0x43) {
            proof {
                assert(fourcc@ != magic()) by {
                    if fourcc@ == magic() {
                        assert(fourcc@[0] == magic()[0]);
                        assert(fourcc@[1] == magic()[1]);
                        assert(fourcc@[2] == magic()[2]);
                        assert(fourcc@[3] == magic()[3]);
                    }
                }
            }
            return Err(FlacError::BadMagic);
        }
        proof {
            assert(fourcc@ =~= magic());
        }
        let header = match self.reader.read_bits(8) {
            Ok(v) => v,
            Err(_) => {
                return Err(FlacError::TruncatedMetadata);
            },
        };
        let length = match self.reader.read_bits(24) {
            Ok(v) => v,
            Err(_) => {
                return Err(FlacError::TruncatedMetadata);
            },
        };
        if header % 128 != 0 {
            return Err(FlacError::StreamInfoMissing);
        }
        let stream_info = match StreamInfo::read_payload(&mut self.reader, length) {
            Ok(si) => si,
            Err(e) => {
                return Err(e);
            },
        };
        let mut last = header >= 128;
        while !last
            invariant
                self.reader@.0 == d,
                d == old(self)@.0,
                p == old(self)@.1,
                self.reader@.1 % 8 == 0,
                self.reader@.1 <= bit_len(d),
                demux_spec(d, p) == (if last {
                    Ok(self.reader@.1 as int)
                } else {
                    skip_blocks(d, self.reader@.1 as int)
                }),
            decreases bit_len(d) - self.reader@.1,
        {
            let ghost q = self.reader@.1 as int;
            let ghost target = skip_blocks(d, q);
            let block_type = match self.reader.read_bits(8) {
                Ok(v) => v,
                Err(_) => {
                    return Err(FlacError::TruncatedMetadata);
                },
            };
            let length = match self.reader.read_bits(24) {
                Ok(v) => v,
                Err(_) => {
                    return Err(FlacError::TruncatedMetadata);
                },
            };
            assert(target == if block_type % 128 == 0 {
                Err(FlacError::DuplicateStreamInfo)
            } else if block_type % 128 == 127 {
                Err(FlacError::InvalidMetadataType)
            } else if q + 32 + 8 * length > bit_len(d) {
                Err(FlacError::TruncatedMetadata)
            } else if block_type >= 128 {
                Ok(q + 32 + 8 * length)
            } else {
                skip_blocks(d, q + 32 + 8 * length)
            });
            if block_type % 128 == 0 {
                return Err(FlacError::DuplicateStreamInfo);
            }
            if block_type % 128 == 127 {
                return Err(FlacError::InvalidMetadataType);
            }
            proof {
                crate::bitstream::lemma_bits_value_bound(d, q + 8, 24);
                vstd::arithmetic::power2::lemma2_to64();
            }
            match self.reader.read_bytes(length as usize) {
                Ok(_) => {},
                Err(_) => {
                    return Err(FlacError::TruncatedMetadata);
                },
            }
            last = block_type >= 128;
        }
        Ok(stream_info)
    }
}

} // verus!
