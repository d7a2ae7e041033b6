//! The frame decoder: frame after frame until the stream or its announced samples
//! run out, each handed out as one block of interleaved samples.
use vstd::arithmetic::div_mod::lemma_fundamental_div_mod_converse;
use vstd::prelude::*;

use crate::bitstream::{bit_len, BitReader};
use crate::error::FlacError;
use crate::frame::{channels_view, frame_spec, read};
use crate::metadata::stream_info::StreamInfo;

verus! {

/// One decoded frame, as handed to the consumer.
#[derive(Debug)]
pub struct Block {
    pub channels: u32,
    pub sample_rate: u32,
    pub bits_per_sample: u32,
    /// `block size * channels` samples, interleaved by channel.
    pub samples: Vec<i64>,
    /// Whether no block follows this one.
    pub last: bool,
}

/// A block as a value: channels, sample rate, bits per sample, samples, last flag.
pub type BlockView = (u32, u32, u32, Seq<i64>, bool);

/// The decoder as a value: the bytes, the position, the StreamInfo, the samples per
/// channel decoded so far, and whether decoding has ended.
pub type DecoderView = (Seq<u8>, nat, StreamInfo, u64, bool);

impl Block {
    pub open spec fn view_of(&self) -> BlockView {
        (self.channels, self.sample_rate, self.bits_per_sample, self.samples@, self.last)
    }
}

/// The channels `chans`, `n` samples each, interleaved: sample `k` of the result is
/// sample `k / c` of channel `k % c`, `c` the number of channels.
pub open spec fn interleave(chans: Seq<Seq<i64>>, n: nat) -> Seq<i64> {
    Seq::new(n * chans.len(), |k: int| chans[k % chans.len() as int][k / chans.len() as int])
}

/// `a + b`, or `u64::MAX` where that does not fit.
pub open spec fn saturating_sum(a: u64, b: nat) -> u64 {
    if a + b > u64::MAX {
        u64::MAX
    } else {
        (a + b) as u64
    }
}

/// Whether decoding stops before the frame at the decoder's position: it has ended,
/// the bytes are used up, or the announced number of samples is reached.
pub open spec fn at_end(s: DecoderView) -> bool {
    s.4 || s.1 == bit_len(s.0) || (s.2.samples != 0 && s.3 >= s.2.samples)
}

/// One call of `next_block`: a block and the state after it, `None` at the end, or
/// the error that ends decoding.
pub open spec fn step_spec(s: DecoderView) -> Result<Option<(BlockView, DecoderView)>, FlacError> {
    if at_end(s) {
        Ok(None)
    } else {
        match frame_spec(s.0, s.1 as int, s.2) {
            Err(e) => Err(e),
            Ok((h, chans, crc, q)) => {
                let decoded = saturating_sum(s.3, h.block_size as nat);
                let last = (s.2.samples != 0 && decoded >= s.2.samples) || q == bit_len(s.0);
                Ok(
                    Some(
                        (
                            (
                                chans.len() as u32,
                                h.sample_rate,
                                h.sample_size as u32,
                                interleave(chans, h.block_size as nat),
                                last,
                            ),
                            (s.0, q as nat, s.2, decoded, last),
                        ),
                    ),
                )
            },
        }
    }
}

/// `n` successive blocks from state `s`, and the state after them.
pub open spec fn blocks_spec(s: DecoderView, n: nat) -> Result<(Seq<BlockView>, DecoderView), FlacError>
    decreases n,
{
    if n == 0 {
        Ok((Seq::empty(), s))
    } else {
        match blocks_spec(s, (n - 1) as nat) {
            Err(e) => Err(e),
            Ok((bs, t)) => match step_spec(t) {
                Err(e) => Err(e),
                Ok(None) => Err(FlacError::EndOfStream),
                Ok(Some((b, u))) => Ok((bs.push(b), u)),
            },
        }
    }
}

/// Decodes the frames of a stream whose metadata has been read.
pub struct Decoder {
    reader: BitReader,
    stream_info: StreamInfo,
    decoded: u64,
    finished: bool,
}

impl View for Decoder {
    type V = DecoderView;

    closed spec fn view(&self) -> DecoderView {
        (self.reader@.0, self.reader@.1, self.stream_info, self.decoded, self.finished)
    }
}

/// A decoder that has not ended stands at a byte boundary, and its StreamInfo keeps
/// its invariants.
pub open spec fn decoder_wf(s: DecoderView) -> bool {
    &&& s.2.wf()
    &&& (s.4 || s.1 % 8 == 0)
}

impl Decoder {
    /// A decoder over `reader`, which stands at the first frame of a stream described
    /// by `stream_info`.
    pub fn new(reader: BitReader, stream_info: StreamInfo) -> (r: Decoder)
        requires
            reader@.1 % 8 == 0,
            stream_info.wf(),
        ensures
            r@ == (reader@.0, reader@.1, stream_info, 0u64, false),
            decoder_wf(r@),
    {
        Decoder { reader, stream_info, decoded: 0, finished: false }
    }

    /// Decodes the next frame into a block; `None` once the stream is used up or its
    /// announced samples are all decoded. An error ends decoding too.
    pub fn next_block(&mut self) -> (r: Result<Option<Block>, FlacError>)
        requires
            decoder_wf(old(self)@),
        ensures
            decoder_wf(final(self)@),
            r matches Ok(Some(_)) ==> old(self)@.1 < final(self)@.1 <= bit_len(final(self)@.0),
            match step_spec(old(self)@) {
                Ok(Some((b, t))) => r is Ok && r->Ok_0 is Some && r->Ok_0->Some_0.view_of() == b
                    && final(self)@ == t,
                Ok(None) => r is Ok && r->Ok_0 is None && final(self)@ == (
                    old(self)@.0,
                    old(self)@.1,
                    old(self)@.2,
                    old(self)@.3,
                    true,
                ),
                Err(e) => r == Err::<Option<Block>, FlacError>(e) && final(self)@.4,
            },
    {
        if self.finished || self.reader.bits_left() == 0 || (self.stream_info.samples != 0
            && self.decoded >= self.stream_info.samples) {
            self.finished = true;
            return Ok(None);
        }
        let frame = match read(&mut self.reader, &self.stream_info) {
            Ok(f) => f,
            Err(e) => {
                self.finished = true;
                return Err(e);
            },
        };
        let block_size = frame.header.block_size;
        self.decoded = if self.decoded > u64::MAX - block_size as u64 {
            u64::MAX
        } else {
            self.decoded + block_size as u64
        };
        let remaining = self.reader.bits_left();
        let last = (self.stream_info.samples != 0 && self.decoded >= self.stream_info.samples)
            || remaining == 0;
        self.finished = last;
        let samples = interleave_channels(&frame.subframes, block_size as usize);
        Ok(
            Some(
                Block {
                    channels: frame.subframes.len() as u32,
                    sample_rate: frame.header.sample_rate,
                    bits_per_sample: frame.header.sample_size as u32,
                    samples,
                    last,
                },
            ),
        )
    }

    /// Decodes every remaining block. On success the blocks are the successive
    /// results of `next_block` up to its end; on failure some number of blocks decode
    /// and the next frame fails with the error returned.
    pub fn run(&mut self) -> (r: Result<Vec<Block>, FlacError>)
        requires
            decoder_wf(old(self)@),
        ensures
            r is Ok ==> {
                &&& blocks_spec(old(self)@, r->Ok_0@.len()) is Ok
                &&& blocks_spec(old(self)@, r->Ok_0@.len())->Ok_0.0 == Seq::new(
                    r->Ok_0@.len(),
                    |i: int| r->Ok_0@[i].view_of(),
                )
                &&& step_spec(blocks_spec(old(self)@, r->Ok_0@.len())->Ok_0.1) == Ok::<
                    Option<(BlockView, DecoderView)>,
                    FlacError,
                >(None)
            },
            r is Err ==> exists|n: nat|
                #[trigger] blocks_spec(old(self)@, n) is Ok && step_spec(
                    blocks_spec(old(self)@, n)->Ok_0.1,
                ) == Err::<Option<(BlockView, DecoderView)>, FlacError>(r->Err_0),
    {
        let mut blocks: Vec<Block> = Vec::new();
        proof {
            assert(Seq::new(0, |i: int| blocks@[i].view_of()) =~= Seq::<BlockView>::empty());
        }
        loop
            invariant
                decoder_wf(self@),
                blocks_spec(old(self)@, blocks@.len() as nat) == Ok::<
                    (Seq<BlockView>, DecoderView),
                    FlacError,
                >((Seq::new(blocks@.len() as nat, |i: int| blocks@[i].view_of()), self@)),
            decreases bit_len(self@.0) - self@.1, (if self@.4 {
                0int
            } else {
                1int
            }),
        {
            let ghost views = Seq::new(blocks@.len() as nat, |i: int| blocks@[i].view_of());
            match self.next_block() {
                Ok(Some(b)) => {
                    let ghost v = b.view_of();
                    blocks.push(b);
                    proof {
                        assert(Seq::new(blocks@.len() as nat, |i: int| blocks@[i].view_of()) =~= views.push(
                            v,
                        ));
                    }
                },
                Ok(None) => {
                    return Ok(blocks);
                },
                Err(e) => {
                    proof {
                        assert(blocks_spec(old(self)@, blocks@.len() as nat) is Ok);
                    }
                    return Err(e);
                },
            }
        }
    }
}

/// Interleaves `n` samples of each channel.
fn interleave_channels(chans: &Vec<Vec<i64>>, n: usize) -> (r: Vec<i64>)
    requires
        1 <= chans@.len() <= 8,
        n <= 65536,
        forall|c: int| 0 <= c < chans@.len() ==> #[trigger] chans@[c]@.len() == n,
    ensures
        r@ == interleave(channels_view(chans@), n as nat),
{
    let ghost cv = channels_view(chans@);
    let count = chans.len();
    proof {
        assert(n * count <= 65536 * 8) by (nonlinear_arith)
            requires
                n <= 65536,
                count <= 8,
        ;
    }
    let mut out: Vec<i64> = Vec::with_capacity(n * count);
    let mut i: usize = 0;
    while i < n
        invariant
            count == chans@.len(),
            1 <= count <= 8,
            i <= n <= 65536,
            cv == channels_view(chans@),
            forall|c: int| 0 <= c < chans@.len() ==> #[trigger] chans@[c]@.len() == n,
            out@.len() == i * count,
            forall|k: int| 0 <= k < out@.len() ==> #[trigger] out@[k] == cv[k % count as int][k / count as int],
        decreases n - i,
    {
        let mut c: usize = 0;
        while c < count
            invariant
                count == chans@.len(),
                1 <= count <= 8,
                i < n <= 65536,
                c <= count,
                cv == channels_view(chans@),
                forall|c2: int| 0 <= c2 < chans@.len() ==> #[trigger] chans@[c2]@.len() == n,
                out@.len() == i * count + c,
                forall|k: int|
                    0 <= k < out@.len() ==> #[trigger] out@[k] == cv[k % count as int][k / count as int],
            decreases count - c,
        {
            proof {
                lemma_fundamental_div_mod_converse((i * count + c) as int, count as int, i as int, c as int);
            }
            out.push(chans[c][i]);
            c = c + 1;
        }
        proof {
            assert((i + 1) * count == i * count + count) by (nonlinear_arith);
        }
        i = i + 1;
    }
    proof {
        assert(out@ =~= interleave(cv, n as nat));
    }
    out
}

} // verus!
