//! A frame: its header, one subframe per channel, padding to a byte boundary and a
//! CRC-16 over everything before it.
pub mod header;

use vstd::arithmetic::power2::*;
use vstd::prelude::*;

use crate::bitstream::{
    align_up, bit_len, bits_value, lemma_bits_value_bound, pow2_u64, sign_extend, BitReader,
};
use crate::crc::{crc16, crc16_of};
use crate::error::FlacError;
use crate::metadata::stream_info::StreamInfo;
use crate::subframe::{in_width, lemma_subframe_len, subframe_spec};
use header::{header_spec, Header};

verus! {

/// One decoded frame.
#[derive(Debug)]
pub struct Frame {
    pub header: Header,
    /// The samples of each channel, with inter-channel decorrelation undone: left
    /// then right for the stereo assignments 8 to 10.
    pub subframes: Vec<Vec<i64>>,
    /// The frame's CRC-16.
    pub footer: u16,
}

/// The number of subframes of a channel assignment.
pub open spec fn channel_count(assignment: nat) -> nat {
    if assignment <= 7 {
        assignment + 1
    } else {
        2
    }
}

/// The bits per sample of subframe `c`: one more for a side channel.
pub open spec fn channel_bits(assignment: nat, c: nat, sample_size: nat) -> nat {
    if (assignment == 8 && c == 1) || (assignment == 9 && c == 0) || (assignment == 10 && c == 1) {
        sample_size + 1
    } else {
        sample_size
    }
}

/// Decoding the subframes `c` on of a frame with header `h` from bit `p` on, after
/// the channels `acc`.
pub open spec fn subframes_from(d: Seq<u8>, p: int, h: Header, c: nat, acc: Seq<Seq<i64>>) -> Result<
    (Seq<Seq<i64>>, int),
    FlacError,
>
    decreases channel_count(h.channel_assignment as nat) - c,
{
    if c >= channel_count(h.channel_assignment as nat) {
        Ok((acc, p))
    } else {
        match subframe_spec(
            d,
            p,
            h.block_size as nat,
            channel_bits(h.channel_assignment as nat, c, h.sample_size as nat),
        ) {
            Err(e) => Err(e),
            Ok((s, q)) => subframes_from(d, q, h, c + 1, acc.push(s)),
        }
    }
}

/// The left sample of a mid/side pair: `mid` gets back the low bit that averaging
/// dropped, which is the low bit of `side`.
pub open spec fn mid_side_left(mid: int, side: int) -> int {
    (2 * mid + side % 2 + side) / 2
}

/// The right sample of a mid/side pair.
pub open spec fn mid_side_right(mid: int, side: int) -> int {
    (2 * mid + side % 2 - side) / 2
}

/// The left and right channels of the two subframes of a stereo assignment: 8 codes
/// left and side, 9 side and right, 10 mid and side. The subframes of any other
/// assignment are independent channels already.
pub open spec fn decorrelate(assignment: nat, chans: Seq<Seq<i64>>) -> Seq<Seq<i64>> {
    let a = chans[0];
    let b = chans[1];
    if assignment == 8 {
        seq![a, Seq::new(a.len(), |i: int| (a[i] - b[i]) as i64)]
    } else if assignment == 9 {
        seq![Seq::new(b.len(), |i: int| (a[i] + b[i]) as i64), b]
    } else if assignment == 10 {
        seq![
            Seq::new(a.len(), |i: int| mid_side_left(a[i] as int, b[i] as int) as i64),
            Seq::new(a.len(), |i: int| mid_side_right(a[i] as int, b[i] as int) as i64),
        ]
    } else {
        chans
    }
}

/// Decoding a frame at bit `p`, a byte boundary, before end of stream is told apart:
/// header, channels, CRC-16 and the position after the frame.
pub open spec fn frame_body_spec(d: Seq<u8>, p: int, si: StreamInfo) -> Result<
    (Header, Seq<Seq<i64>>, u16, int),
    FlacError,
> {
    match header_spec(d, p, si) {
        Err(e) => Err(e),
        Ok((h, p1)) => match subframes_from(d, p1, h, 0, Seq::empty()) {
            Err(e) => Err(e),
            Ok((chans, p2)) => {
                let p3 = align_up(p2);
                if p3 + 16 > bit_len(d) {
                    Err(FlacError::EndOfStream)
                } else if bits_value(d, p3, 16) != crc16_of(d.subrange(p / 8, p3 / 8)) {
                    Err(FlacError::FrameCrcMismatch)
                } else {
                    Ok(
                        (
                            h,
                            decorrelate(h.channel_assignment as nat, chans),
                            bits_value(d, p3, 16) as u16,
                            p3 + 16,
                        ),
                    )
                }
            },
        },
    }
}

/// End of stream inside a frame is a truncated frame.
pub open spec fn inside_frame(e: FlacError) -> FlacError {
    if e == FlacError::EndOfStream {
        FlacError::TruncatedFrame
    } else {
        e
    }
}

/// Decoding a frame at bit `p`.
pub open spec fn frame_spec(d: Seq<u8>, p: int, si: StreamInfo) -> Result<
    (Header, Seq<Seq<i64>>, u16, int),
    FlacError,
> {
    match frame_body_spec(d, p, si) {
        Err(e) => Err(inside_frame(e)),
        Ok(f) => Ok(f),
    }
}

/// The samples of each channel.
pub open spec fn channels_view(v: Seq<Vec<i64>>) -> Seq<Seq<i64>> {
    Seq::new(v.len(), |i: int| v[i]@)
}

/// The low `n` bits of `value` as a two's complement number.
pub fn extend_sign_bits(value: u32, n: u8) -> (r: i32)
    requires
        1 <= n <= 32,
    ensures
        r == sign_extend(value as nat % pow2(n as nat), n as nat),
{
    proof {
        lemma2_to64();
        lemma_pow2_unfold(n as nat);
        if n - 1 < 31 {
            lemma_pow2_strictly_increases((n - 1) as nat, 31);
        }
    }
    let low = value as u64 % pow2_u64(n as u32);
    let half = pow2_u64((n - 1) as u32);
    if low >= half {
        (low as i64 - 2 * half as i64) as i32
    } else {
        low as i32
    }
}

fn mid_side(mid: i64, side: i64) -> (r: (i64, i64))
    requires
        -0x2_0000_0000 <= mid <= 0x2_0000_0000,
        -0x2_0000_0000 <= side <= 0x2_0000_0000,
    ensures
        r.0 == mid_side_left(mid as int, side as int),
        r.1 == mid_side_right(mid as int, side as int),
{
    let magnitude = if side >= 0 {
        side as u64
    } else {
        (-side) as u64
    };
    let parity = (magnitude % 2) as i64;
    assert(parity == (side as int) % 2);
    let m2 = mid * 2 + parity;
    let sum = m2 + side;
    let diff = m2 - side;
    proof {
        assert((sum >> 1u64) == sum / 2) by (bit_vector);
        assert((diff >> 1u64) == diff / 2) by (bit_vector);
    }
    (sum >> 1u64, diff >> 1u64)
}

/// Undoes the inter-channel decorrelation of a stereo assignment.
fn decorrelate_channels(assignment: u8, subframes: Vec<Vec<i64>>) -> (r: Vec<Vec<i64>>)
    requires
        assignment <= 10,
        subframes@.len() == channel_count(assignment as nat),
        forall|c: int| 0 <= c < subframes@.len() ==> #[trigger] subframes@[c]@.len() == subframes@[0]@.len(),
        forall|c: int, j: int|
            0 <= c < subframes@.len() && 0 <= j < subframes@[c]@.len() ==> -0x1_0000_0000
                <= #[trigger] subframes@[c]@[j] <= 0x1_0000_0000,
    ensures
        channels_view(r@) == decorrelate(assignment as nat, channels_view(subframes@)),
        r@.len() == subframes@.len(),
        forall|c: int| 0 <= c < r@.len() ==> #[trigger] r@[c]@.len() == subframes@[0]@.len(),
{
    if assignment < 8 {
        return subframes;
    }
    let ghost chans = channels_view(subframes@);
    let n = subframes[0].len();
    let mut first: Vec<i64> = Vec::with_capacity(n);
    let mut second: Vec<i64> = Vec::with_capacity(n);
    let mut i: usize = 0;
    while i < n
        invariant
            8 <= assignment <= 10,
            subframes@.len() == 2,
            chans == channels_view(subframes@),
            n == subframes@[0]@.len(),
            n == subframes@[1]@.len(),
            i <= n,
            forall|c: int, j: int|
                0 <= c < subframes@.len() && 0 <= j < subframes@[c]@.len() ==> -0x1_0000_0000
                    <= #[trigger] subframes@[c]@[j] <= 0x1_0000_0000,
            first@.len() == i,
            second@.len() == i,
            forall|j: int|
                0 <= j < i ==> #[trigger] first@[j] == decorrelate(assignment as nat, chans)[0][j],
            forall|j: int|
                0 <= j < i ==> #[trigger] second@[j] == decorrelate(assignment as nat, chans)[1][j],
        decreases n - i,
    {
        let a = subframes[0][i];
        let b = subframes[1][i];
        proof {
            assert(chans[0][i as int] == a);
            assert(chans[1][i as int] == b);
        }
        let (x, y) = if assignment == 8 {
            (a, a - b)
        } else if assignment == 9 {
            (a + b, b)
        } else {
            mid_side(a, b)
        };
        first.push(x);
        second.push(y);
        i = i + 1;
    }
    let mut out: Vec<Vec<i64>> = Vec::new();
    out.push(first);
    out.push(second);
    proof {
        let dec = decorrelate(assignment as nat, chans);
        assert(out@[0]@ =~= dec[0]);
        assert(out@[1]@ =~= dec[1]);
        assert(channels_view(out@) =~= dec);
        assert forall|c: int| 0 <= c < out@.len() implies #[trigger] out@[c]@.len() == n by {
            if c == 0 {
                assert(out@[0]@ == dec[0]);
            } else {
                assert(out@[1]@ == dec[1]);
            }
        }
    }
    out
}

/// Decodes one frame at a byte boundary and checks both of its CRCs. End of stream
/// anywhere inside it is `TruncatedFrame`.
pub fn read(bitstream: &mut BitReader, stream_info: &StreamInfo) -> (r: Result<Frame, FlacError>)
    requires
        old(bitstream)@.1 % 8 == 0,
        stream_info.wf(),
    ensures
        final(bitstream)@.0 == old(bitstream)@.0,
        old(bitstream)@.1 <= final(bitstream)@.1,
        match frame_spec(old(bitstream)@.0, old(bitstream)@.1 as int, *stream_info) {
            Ok((h, chans, crc, q)) => {
                &&& r is Ok
                &&& r->Ok_0.header == h
                &&& channels_view(r->Ok_0.subframes@) == chans
                &&& r->Ok_0.footer == crc
                &&& final(bitstream)@.1 == q
            },
            Err(e) => r == Err::<Frame, FlacError>(e),
        },
        r is Ok ==> {
            &&& r->Ok_0.subframes@.len() == channel_count(r->Ok_0.header.channel_assignment as nat)
            &&& forall|c: int|
                0 <= c < r->Ok_0.subframes@.len() ==> #[trigger] r->Ok_0.subframes@[c]@.len()
                    == r->Ok_0.header.block_size
            &&& 1 <= r->Ok_0.header.block_size <= 65536
            &&& final(bitstream)@.1 % 8 == 0
            &&& old(bitstream)@.1 < final(bitstream)@.1
        },
{
    let ghost d = bitstream@.0;
    let ghost p = bitstream@.1 as int;
    let start = bitstream.byte_position();
    let header = match Header::from(bitstream, stream_info) {
        Ok(h) => h,
        Err(e) => {
            return Err(if e == FlacError::EndOfStream {
                FlacError::TruncatedFrame
            } else {
                e
            });
        },
    };
    let subframes = match read_subframes(&header, bitstream) {
        Ok(v) => v,
        Err(e) => {
            return Err(if e == FlacError::EndOfStream {
                FlacError::TruncatedFrame
            } else {
                e
            });
        },
    };
    bitstream.align_to_byte();
    let ghost p3 = bitstream@.1 as int;
    let end = bitstream.byte_position();
    let crc = match bitstream.read_bits(16) {
        Ok(v) => v,
        Err(_) => {
            return Err(FlacError::TruncatedFrame);
        },
    };
    proof {
        vstd::arithmetic::power2::lemma2_to64();
        lemma_bits_value_bound(d, p3, 16);
    }
    if crc != crc16(bitstream.data(), start, end) as u64 {
        return Err(FlacError::FrameCrcMismatch);
    }
    let subframes = decorrelate_channels(header.channel_assignment, subframes);
    proof {
        let chans = channels_view(subframes@);
        assert(chans.len() == channel_count(header.channel_assignment as nat));
    }
    Ok(Frame { header, subframes, footer: crc as u16 })
}

/// Decodes the subframes of a frame whose header is `header`.
fn read_subframes(header: &Header, bitstream: &mut BitReader) -> (r: Result<Vec<Vec<i64>>, FlacError>)
    requires
        1 <= header.block_size <= 65536,
        header.channel_assignment <= 10,
        4 <= header.sample_size <= 32,
    ensures
        final(bitstream)@.0 == old(bitstream)@.0,
        old(bitstream)@.1 <= final(bitstream)@.1,
        match subframes_from(old(bitstream)@.0, old(bitstream)@.1 as int, *header, 0, Seq::empty()) {
            Ok((chans, q)) => r is Ok && channels_view(r->Ok_0@) == chans && final(bitstream)@.1 == q,
            Err(e) => r == Err::<Vec<Vec<i64>>, FlacError>(e),
        },
        r is Ok ==> {
            &&& r->Ok_0@.len() == channel_count(header.channel_assignment as nat)
            &&& forall|c: int|
                0 <= c < r->Ok_0@.len() ==> #[trigger] r->Ok_0@[c]@.len() == header.block_size
            &&& forall|c: int, j: int|
                0 <= c < r->Ok_0@.len() && 0 <= j < r->Ok_0@[c]@.len() ==> -0x1_0000_0000
                    <= #[trigger] r->Ok_0@[c]@[j] <= 0x1_0000_0000
        },
{
    let ghost d = bitstream@.0;
    let ghost p = bitstream@.1 as int;
    let assignment = header.channel_assignment;
    let n: u8 = if assignment <= 7 {
        assignment + 1
    } else {
        2
    };
    let mut subframes: Vec<Vec<i64>> = Vec::new();
    let mut c: u8 = 0;
    proof {
        vstd::arithmetic::power2::lemma2_to64();
        assert(channels_view(subframes@) =~= Seq::<Seq<i64>>::empty());
    }
    while c < n
        invariant
            n == channel_count(assignment as nat),
            assignment == header.channel_assignment,
            1 <= header.block_size <= 65536,
            4 <= header.sample_size <= 32,
            c <= n,
            bitstream@.0 == d,
            d == old(bitstream)@.0,
            old(bitstream)@.1 <= bitstream@.1,
            p == old(bitstream)@.1,
            subframes@.len() == c,
            subframes_from(d, p, *header, 0, Seq::empty()) == subframes_from(
                d,
                bitstream@.1 as int,
                *header,
                c as nat,
                channels_view(subframes@),
            ),
            forall|k: int| 0 <= k < subframes@.len() ==> #[trigger] subframes@[k]@.len() == header.block_size,
            forall|k: int, j: int|
                0 <= k < subframes@.len() && 0 <= j < subframes@[k]@.len() ==> -0x1_0000_0000
                    <= #[trigger] subframes@[k]@[j] <= 0x1_0000_0000,
            vstd::arithmetic::power2::pow2(32) == 0x1_0000_0000,
        decreases n - c,
    {
        let side = (assignment == 8 && c == 1) || (assignment == 9 && c == 0) || (assignment == 10 && c
            == 1);
        let bits = if side {
            header.sample_size as u32 + 1
        } else {
            header.sample_size as u32
        };
        let ghost q = bitstream@.1 as int;
        let s = match crate::subframe::read(header, bits, bitstream) {
            Ok(v) => v,
            Err(e) => {
                return Err(e);
            },
        };
        proof {
            lemma_subframe_len(d, q, header.block_size as nat, bits as nat);
            assert forall|j: int| 0 <= j < s@.len() implies -0x1_0000_0000 <= #[trigger] s@[j]
                <= 0x1_0000_0000 by {
                assert(in_width(s@[j] as int, bits as nat));
                if bits - 1 < 32 {
                    vstd::arithmetic::power2::lemma_pow2_strictly_increases((bits - 1) as nat, 32);
                }
            }
        }
        let ghost before = subframes@;
        subframes.push(s);
        proof {
            assert(channels_view(subframes@) =~= channels_view(before).push(s@));
        }
        c = c + 1;
    }
    Ok(subframes)
}

/// Channel decorrelation: coding a left and right sample as mid (their average,
/// rounded down) and side (their difference) and decoding that pair gives both back.
pub proof fn law_mid_side_round_trip(left: int, right: int)
    ensures
        mid_side_left((left + right) / 2, left - right) == left,
        mid_side_right((left + right) / 2, left - right) == right,
{
    vstd::arithmetic::div_mod::lemma_fundamental_div_mod(left + right, 2);
    vstd::arithmetic::div_mod::lemma_fundamental_div_mod(left - right, 2);
}

/// CRC conformance of frames: a frame decodes only when its stored CRC-16 is the
/// CRC-16 of every byte before it, from the first byte of its header.
pub proof fn law_frame_crc(d: Seq<u8>, p: int, si: StreamInfo)
    requires
        frame_spec(d, p, si) is Ok,
    ensures
        ({
            let (h, chans, crc, q) = frame_spec(d, p, si)->Ok_0;
            crc == crc16_of(d.subrange(p / 8, (q - 16) / 8))
        }),
{
    let (h, chans, crc, q) = frame_spec(d, p, si)->Ok_0;
    lemma_bits_value_bound(d, q - 16, 16);
    lemma2_to64();
}

} // verus!
