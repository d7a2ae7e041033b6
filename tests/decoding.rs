use flac::bitstream::BitReader;
use flac::crc::{crc16, crc8};
use flac::decoder::Decoder;
use flac::error::FlacError;
use flac::frame::header::Header as FrameHeader;
use flac::frame::{extend_sign_bits, read};
use flac::metadata::stream_info::{StreamInfo, MD5};
use flac::subframe::{decode_golomb, decode_residuals, Header, Ty, VerbatimSubframe};

struct BitWriter {
    bytes: Vec<u8>,
    bits: usize,
}

impl BitWriter {
    fn new() -> BitWriter {
        BitWriter { bytes: Vec::new(), bits: 0 }
    }

    fn put(&mut self, value: u64, n: u32) {
        for i in (0..n).rev() {
            if self.bits % 8 == 0 {
                self.bytes.push(0);
            }
            let bit = ((value >> i) & 1) as u8;
            let last = self.bytes.len() - 1;
            self.bytes[last] |= bit << (7 - self.bits % 8);
            self.bits += 1;
        }
    }

    fn put_signed(&mut self, value: i64, n: u32) {
        self.put(value as u64 & ((1u64 << n) - 1), n);
    }

    fn align(&mut self) {
        self.bits = self.bytes.len() * 8;
    }
}

fn stream_info(samples: u64) -> StreamInfo {
    StreamInfo {
        block_size: (4, 4096),
        frame_size: (0, 0),
        sample_rate: 44100,
        channels: 2,
        bits_per_sample: 16,
        samples,
        signature: MD5([0; 16]),
    }
}

/// A frame header with fixed blocking, a one-byte frame number and the given codes,
/// then its CRC-8.
fn header(w: &mut BitWriter, bs_code: u64, sr_code: u64, channels: u64, ss_code: u64, number: u64) {
    w.put(0x3FFE, 14);
    w.put(0, 1);
    w.put(0, 1);
    w.put(bs_code, 4);
    w.put(sr_code, 4);
    w.put(channels, 4);
    w.put(ss_code, 3);
    w.put(0, 1);
    w.put(number, 8);
}

fn close_header(w: &mut BitWriter) {
    let c = crc8(&w.bytes, 0, w.bytes.len());
    w.put(c as u64, 8);
}

fn close_frame(w: &mut BitWriter) -> Vec<u8> {
    w.align();
    let c = crc16(&w.bytes, 0, w.bytes.len());
    w.put(c as u64, 16);
    w.bytes.clone()
}

/// A stereo frame of four 16-bit verbatim samples per channel, block size code 7
/// (16-bit extension), channel assignment `assignment`.
fn verbatim_frame(assignment: u64, number: u64, a: &[i64; 4], b: &[i64; 4]) -> Vec<u8> {
    let mut w = BitWriter::new();
    header(&mut w, 7, 9, assignment, 4, number);
    w.put(3, 16);
    close_header(&mut w);
    let side_first = assignment == 9;
    let side_second = assignment == 8 || assignment == 10;
    w.put(0x02, 8);
    for s in a {
        w.put_signed(*s, if side_first { 17 } else { 16 });
    }
    w.put(0x02, 8);
    for s in b {
        w.put_signed(*s, if side_second { 17 } else { 16 });
    }
    close_frame(&mut w)
}

#[test]
fn test_utf8_decoding_of_one_byte() {
    let mut bitstream = BitReader::new(vec![0b00100100]);
    let decoded = bitstream.read_utf8_coded().unwrap();
    assert_eq!(decoded, 0b0100100);
}

#[test]
fn test_utf8_decoding_of_four_bytes() {
    let mut bitstream = BitReader::new(vec![0b11110000, 0b10100100, 0b10101101, 0b10100010]);
    let decoded = bitstream.read_utf8_coded().unwrap();
    assert_eq!(decoded, 0b000100100101101100010);
    assert_eq!(decoded, 0x24B62);
}

#[test]
fn utf8_coded_numbers_reject_bad_bytes() {
    assert_eq!(BitReader::new(vec![0xC2, 0xA9]).read_utf8_coded(), Ok(0xA9));
    assert_eq!(BitReader::new(vec![0xC2, 0x29]).read_utf8_coded(), Err(FlacError::InvalidCodedNumber));
    assert_eq!(BitReader::new(vec![0x80]).read_utf8_coded(), Err(FlacError::InvalidCodedNumber));
    assert_eq!(BitReader::new(vec![0xFF]).read_utf8_coded(), Err(FlacError::InvalidCodedNumber));
    assert_eq!(BitReader::new(vec![0xE0, 0x80]).read_utf8_coded(), Err(FlacError::EndOfStream));
    let seven = vec![0xFE, 0xBF, 0xBF, 0xBF, 0xBF, 0xBF, 0xBF];
    assert_eq!(BitReader::new(seven).read_utf8_coded(), Ok(0xF_FFFF_FFFF));
}

fn frame_header_bytes(number: u8) -> Vec<u8> {
    vec![0xFF, 0xF8, 0xC9, 0x18, number, [0xC2, 0xC5, 0xCC][number as usize]]
}

fn check_frame_header(number: u8, crc: u8) {
    let mut bitstream = BitReader::new(frame_header_bytes(number));
    let header = FrameHeader::from(&mut bitstream, &stream_info(0)).unwrap();
    assert_eq!(header.variable_blocksize, false);
    assert_eq!(header.block_size, 4096);
    assert_eq!(header.sample_rate, 44100);
    assert_eq!(header.channel_assignment, 1);
    assert_eq!(header.sample_size, 16);
    assert_eq!(header.frame_number, Some(number as u32));
    assert_eq!(header.crc, crc);
}

#[test]
fn header_test_header_from_1() {
    check_frame_header(0, 0xC2);
}

#[test]
fn header_test_header_from_2() {
    check_frame_header(1, 0xC5);
}

#[test]
fn header_test_header_from_3() {
    check_frame_header(2, 0xCC);
}

#[test]
fn crc_check_values() {
    let digits = b"123456789".to_vec();
    assert_eq!(crc8(&digits, 0, 9), 0xF4);
    assert_eq!(crc16(&digits, 0, 9), 0xFEE8);
    assert_eq!(crc8(&vec![0xFF, 0xF8, 0xC9, 0x18, 0x00], 0, 5), 0xC2);
}

#[test]
fn frame_header_with_eight_bit_block_size() {
    let mut w = BitWriter::new();
    header(&mut w, 0b0110, 0, 0, 0, 0);
    w.put(0x0B, 8);
    close_header(&mut w);
    let header = FrameHeader::from(&mut BitReader::new(w.bytes), &stream_info(0)).unwrap();
    assert_eq!(header.block_size, 12);
    assert_eq!(header.sample_rate, 44100);
    assert_eq!(header.sample_size, 16);
}

#[test]
fn frame_header_with_extended_sample_rates() {
    for (code, bits, value, rate) in [(12u64, 8u32, 48u64, 48000u32), (13, 16, 22050, 22050), (14, 16, 4410, 44100)] {
        let mut w = BitWriter::new();
        header(&mut w, 1, code, 0, 1, 5);
        w.put(value, bits);
        close_header(&mut w);
        let header = FrameHeader::from(&mut BitReader::new(w.bytes), &stream_info(0)).unwrap();
        assert_eq!(header.sample_rate, rate);
        assert_eq!(header.block_size, 192);
        assert_eq!(header.sample_size, 8);
        assert_eq!(header.frame_number, Some(5));
    }
}

#[test]
fn frame_header_errors() {
    let si = stream_info(0);
    let mut bad_sync = frame_header_bytes(0);
    bad_sync[1] = 0xF0;
    assert_eq!(FrameHeader::from(&mut BitReader::new(bad_sync), &si), Err(FlacError::FrameSyncLost));
    let mut bad_crc = frame_header_bytes(0);
    bad_crc[5] ^= 1;
    assert_eq!(
        FrameHeader::from(&mut BitReader::new(bad_crc), &si),
        Err(FlacError::FrameHeaderCrcMismatch)
    );
    let cases = [
        (0u64, 9u64, 1u64, 4u64, FlacError::InvalidBlockSizeCode),
        (12, 15, 1, 4, FlacError::InvalidSampleRateCode),
        (12, 9, 11, 4, FlacError::ReservedChannelAssignment),
        (12, 9, 1, 3, FlacError::ReservedSampleSize),
        (12, 9, 1, 7, FlacError::ReservedSampleSize),
    ];
    for (bs, sr, ch, ss, e) in cases {
        let mut w = BitWriter::new();
        header(&mut w, bs, sr, ch, ss, 0);
        close_header(&mut w);
        assert_eq!(FrameHeader::from(&mut BitReader::new(w.bytes), &si), Err(e));
    }
    assert_eq!(FrameHeader::from(&mut BitReader::new(vec![0xFF, 0xF8, 0xC9]), &si), Err(FlacError::EndOfStream));
}

#[test]
fn finalize_sample_size_table() {
    let si = stream_info(0);
    let expected = [Ok(16), Ok(8), Ok(12), Err(FlacError::ReservedSampleSize), Ok(16), Ok(20), Ok(24), Err(FlacError::ReservedSampleSize)];
    for code in 0..8u8 {
        assert_eq!(FrameHeader::finalize_sample_size(code, &si), expected[code as usize]);
    }
}

#[test]
fn bit_reads_are_big_endian() {
    let mut r = BitReader::new(vec![0b1011_0011, 0b0101_0101]);
    assert_eq!(r.read_bits(3), Ok(0b101));
    assert_eq!(r.read_bits(0), Ok(0));
    assert_eq!(r.read_bits(9), Ok(0b1_0011_0101));
    assert_eq!(r.position(), 12);
    assert_eq!(r.read_bits(5), Err(FlacError::EndOfStream));
    assert_eq!(r.position(), 12);
    assert_eq!(r.read_bits(4), Ok(0b0101));
    let mut all = BitReader::new(vec![0x12, 0x34, 0x56, 0x78, 0x9A, 0xBC, 0xDE, 0xF0]);
    assert_eq!(all.read_bits(64), Ok(0x1234_5678_9ABC_DEF0));
}

#[test]
fn signed_reads_extend_the_sign() {
    let mut r = BitReader::new(vec![0b1111_0111, 0b1000_0000]);
    assert_eq!(r.read_signed_bits(4), Ok(-1));
    assert_eq!(r.read_signed_bits(4), Ok(7));
    assert_eq!(r.read_signed_bits(1), Ok(-1));
    assert_eq!(r.read_signed_bits(0), Ok(0));
    assert_eq!(extend_sign_bits(0xFFFF, 16), -1);
    assert_eq!(extend_sign_bits(0x7FFF, 16), 32767);
    assert_eq!(extend_sign_bits(0x1_8000, 16), -32768);
    assert_eq!(extend_sign_bits(0x8000_0000, 32), i32::MIN);
}

#[test]
fn unary_counts_zero_bits() {
    let mut r = BitReader::new(vec![0b0001_0000, 0b0000_0001]);
    assert_eq!(r.read_unary(), Ok(3));
    assert_eq!(r.position(), 4);
    assert_eq!(r.read_unary(), Ok(11));
    assert_eq!(r.position(), 16);
    let mut zeros = BitReader::new(vec![0, 0]);
    assert_eq!(zeros.read_unary(), Err(FlacError::EndOfStream));
    assert_eq!(zeros.position(), 0);
}

#[test]
fn unary_round_trip() {
    for n in 0..40u32 {
        let mut w = BitWriter::new();
        w.put(0b101, 3);
        w.put(0, n);
        w.put(1, 1);
        let mut r = BitReader::new(w.bytes);
        r.read_bits(3).unwrap();
        assert_eq!(r.read_unary(), Ok(n as u64));
        assert_eq!(r.position(), 3 + n as u64 + 1);
    }
}

#[test]
fn align_and_read_bytes() {
    let mut r = BitReader::new(vec![0xAB, 0xCD, 0xEF]);
    r.read_bits(3).unwrap();
    r.align_to_byte();
    assert_eq!(r.position(), 8);
    assert!(r.is_byte_aligned());
    assert_eq!(r.read_bytes(3), Err(FlacError::EndOfStream));
    assert_eq!(r.read_bytes(2), Ok(vec![0xCD, 0xEF]));
    assert_eq!(r.bits_left(), 0);
}

#[test]
fn mod_test_header_from_1() {
    let mut bitstream = BitReader::new(vec![0x40, 0x00]);
    let header = Header::from(&mut bitstream).unwrap();
    assert_eq!(header.ty, Ty::LPC(1));
    assert_eq!(header.wasted_bits, 0);
}

#[test]
fn mod_test_header_from_2() {
    let mut bitstream = BitReader::new(vec![0x40, 0xFF]);
    let header = Header::from(&mut bitstream).unwrap();
    assert_eq!(header.ty, Ty::LPC(1));
    assert_eq!(header.wasted_bits, 0);
}

#[test]
fn mod_test_header_from_3() {
    let mut bitstream = BitReader::new(vec![0x40]);
    let header = Header::from(&mut bitstream).unwrap();
    assert_eq!(header.ty, Ty::LPC(1));
    assert_eq!(header.wasted_bits, 0);
}

#[test]
fn subframe_header_types_and_wasted_bits() {
    assert_eq!(Header::from(&mut BitReader::new(vec![0x00])).unwrap().ty, Ty::Constant);
    assert_eq!(Header::from(&mut BitReader::new(vec![0x14])).unwrap().ty, Ty::Fixed(2));
    assert_eq!(Header::from(&mut BitReader::new(vec![0x7E])).unwrap().ty, Ty::LPC(32));
    let wasted = Header::from(&mut BitReader::new(vec![0x03, 0b0010_0000])).unwrap();
    assert_eq!(wasted, Header { ty: Ty::Verbatim, wasted_bits: 3 });
    assert_eq!(Header::from(&mut BitReader::new(vec![0x04])), Err(FlacError::ReservedSubframeType));
    assert_eq!(Header::from(&mut BitReader::new(vec![0x1A])), Err(FlacError::ReservedSubframeType));
    assert_eq!(Header::from(&mut BitReader::new(vec![0x80])), Err(FlacError::FrameSyncLost));
}

#[test]
fn test_header_from_bad_apple_verbatim_1() {
    let reference: Vec<u16> = (0..1152u32).map(|i| (i * 2654435761u32 >> 16) as u16).collect();
    let mut w = BitWriter::new();
    w.put(0x02, 8);
    for s in &reference {
        w.put(*s as u64, 16);
    }
    let mut bitstream = BitReader::new(w.bytes);
    let header = FrameHeader {
        variable_blocksize: false,
        block_size: 1152,
        sample_rate: 44100,
        channel_assignment: 1,
        sample_size: 16,
        sample_number: None,
        frame_number: Some(0),
        crc: 0xAE,
    };
    let subframe_header = Header::from(&mut bitstream).unwrap();
    assert_eq!(subframe_header.ty, Ty::Verbatim);
    assert_eq!(subframe_header.wasted_bits, 0);
    let subframe = VerbatimSubframe::from(&header, 16, &mut bitstream).unwrap();
    for i in 0..1152 {
        let reference_sample = reference[i];
        let decoded_sample = subframe[i];
        assert_eq!(decoded_sample as u16, reference_sample);
        assert_eq!(decoded_sample, reference_sample as i16 as i64);
    }
}

#[test]
fn golomb_and_zigzag() {
    // quotient 2, remainder 0b10: u = 10, an even code, so 5
    let mut r = BitReader::new(vec![0b0011_0000]);
    assert_eq!(decode_golomb(&mut r, 2), Ok(5));
    assert_eq!(r.position(), 5);
    // quotient 0, remainder 0b11: u = 3, an odd code, so -2
    let mut r = BitReader::new(vec![0b1110_0000]);
    assert_eq!(decode_golomb(&mut r, 2), Ok(-2));
    for s in -300i64..300 {
        let u = if s < 0 { (-2 * s - 1) as u64 } else { (2 * s) as u64 };
        let mut w = BitWriter::new();
        w.put(0, (u >> 4) as u32);
        w.put(1, 1);
        w.put(u & 15, 4);
        assert_eq!(decode_golomb(&mut BitReader::new(w.bytes), 4), Ok(s));
    }
}

fn block_header(block_size: u32) -> FrameHeader {
    FrameHeader {
        variable_blocksize: false,
        block_size,
        sample_rate: 44100,
        channel_assignment: 0,
        sample_size: 16,
        sample_number: None,
        frame_number: Some(0),
        crc: 0,
    }
}

#[test]
fn residual_partitions() {
    // method 0, partition order 1, block size 4, order 1: one residual, then two
    let mut w = BitWriter::new();
    w.put(0, 2);
    w.put(1, 4);
    w.put(0, 4);
    w.put(1, 1); // with parameter 0: u = 0, so 0
    w.put(15, 4); // escape
    w.put(3, 5);
    w.put_signed(-4, 3);
    w.put_signed(3, 3);
    let mut r = BitReader::new(w.bytes);
    let residual = decode_residuals(&block_header(4), 1, &mut r).unwrap();
    assert_eq!(residual, vec![0, -4, 3]);
}

#[test]
fn residual_errors() {
    let mut w = BitWriter::new();
    w.put(2, 2);
    w.put(0, 6);
    assert_eq!(
        decode_residuals(&block_header(4), 1, &mut BitReader::new(w.bytes)),
        Err(FlacError::InvalidResidualCodingMethod)
    );
    let mut w = BitWriter::new();
    w.put(0, 2);
    w.put(2, 4);
    w.put(0, 10);
    assert_eq!(
        decode_residuals(&block_header(4), 3, &mut BitReader::new(w.bytes)),
        Err(FlacError::InvalidPartitionOrder)
    );
    assert_eq!(
        decode_residuals(&block_header(6), 0, &mut BitReader::new(vec![0x08, 0x00])),
        Err(FlacError::InvalidPartitionOrder)
    );
}

/// One frame of `block_size` samples, single channel, subframe bits from `body`.
fn mono_frame(block_size: u64, body: &dyn Fn(&mut BitWriter)) -> Vec<u8> {
    let mut w = BitWriter::new();
    header(&mut w, 6, 9, 0, 4, 0);
    w.put(block_size - 1, 8);
    close_header(&mut w);
    body(&mut w);
    close_frame(&mut w)
}

#[test]
fn fixed_predictor_continues_a_polynomial() {
    let frame = mono_frame(8, &|w: &mut BitWriter| {
        w.put(0x14, 8); // fixed, order 2
        w.put_signed(3, 16);
        w.put_signed(5, 16);
        w.put(0, 2);
        w.put(0, 4);
        w.put(0, 4);
        w.put(0b111111, 6); // six zero residuals
    });
    let f = read(&mut BitReader::new(frame), &stream_info(0)).unwrap();
    assert_eq!(f.subframes, vec![vec![3, 5, 7, 9, 11, 13, 15, 17]]);
}

#[test]
fn lpc_subframe_and_wasted_bits() {
    let frame = mono_frame(4, &|w: &mut BitWriter| {
        w.put(0x41, 8); // LPC order 1, wasted bits follow
        w.put(0b01, 2); // one zero, then the one: 2 wasted bits
        w.put_signed(10, 14);
        w.put(2, 4); // precision 3
        w.put_signed(1, 5); // shift 1
        w.put_signed(3, 3); // coefficient 3
        w.put(0, 2);
        w.put(0, 4);
        w.put(1, 4); // rice parameter 1
        w.put(0b10, 2); // u = 0 -> 0
        w.put(0b11, 2); // u = 1 -> -1
        w.put(0b010, 3); // u = 2 -> 1
    });
    let f = read(&mut BitReader::new(frame), &stream_info(0)).unwrap();
    // 10; 15 + 0 = 15; (45 >> 1) - 1 = 21; (63 >> 1) + 1 = 32; times 4
    assert_eq!(f.subframes, vec![vec![40, 60, 84, 128]]);
}

#[test]
fn samples_must_fit_their_width() {
    let frame = mono_frame(2, &|w: &mut BitWriter| {
        w.put(0x10, 8); // fixed, order 0
        w.put(0, 2);
        w.put(0, 4);
        w.put(14, 4); // parameter 14
        w.put(1, 5); // quotient 4, remainder 0: u = 2^16, so 2^15
        w.put(0, 14);
        w.put(1, 1); // quotient 0, remainder 0: u = 0
        w.put(0, 14);
    });
    assert_eq!(read(&mut BitReader::new(frame), &stream_info(0)).unwrap_err(), FlacError::SampleOutOfRange);
}

#[test]
fn constant_and_independent_channels() {
    let mut w = BitWriter::new();
    header(&mut w, 6, 9, 1, 1, 0);
    w.put(2, 8);
    close_header(&mut w);
    w.put(0x00, 8);
    w.put_signed(-7, 8);
    w.put(0x00, 8);
    w.put_signed(100, 8);
    let frame = close_frame(&mut w);
    let f = read(&mut BitReader::new(frame), &stream_info(0)).unwrap();
    assert_eq!(f.subframes, vec![vec![-7, -7, -7], vec![100, 100, 100]]);
    assert_eq!(f.header.sample_size, 8);
}

#[test]
fn stereo_decorrelation() {
    let left = [1000i64, -32768, 32767, 0];
    let right = [-1000i64, 32767, -32768, 5];
    let side: Vec<i64> = (0..4).map(|i| left[i] - right[i]).collect();
    let mid: Vec<i64> = (0..4).map(|i| (left[i] + right[i]).div_euclid(2)).collect();
    let side4 = [side[0], side[1], side[2], side[3]];
    let mid4 = [mid[0], mid[1], mid[2], mid[3]];
    let si = stream_info(0);
    for (assignment, a, b) in [(8u64, left, side4), (9, side4, right), (10, mid4, side4)] {
        let frame = verbatim_frame(assignment, 0, &a, &b);
        let f = read(&mut BitReader::new(frame), &si).unwrap();
        assert_eq!(f.subframes, vec![left.to_vec(), right.to_vec()]);
    }
}

#[test]
fn frame_crc_and_truncation() {
    let si = stream_info(0);
    let frame = verbatim_frame(1, 0, &[1, 2, 3, 4], &[5, 6, 7, 8]);
    let mut bad = frame.clone();
    let n = bad.len();
    bad[n - 3] ^= 0x01;
    assert_eq!(read(&mut BitReader::new(bad), &si).unwrap_err(), FlacError::FrameCrcMismatch);
    let short = frame[..n - 1].to_vec();
    assert_eq!(read(&mut BitReader::new(short), &si).unwrap_err(), FlacError::TruncatedFrame);
    let f = read(&mut BitReader::new(frame.clone()), &si).unwrap();
    let expected = crc16(&frame, 0, n - 2);
    assert_eq!(f.footer, expected);
    assert_eq!(f.header.crc, crc8(&frame, 0, 7));
}

#[test]
fn decoder_stops_at_total_samples() {
    let mut data = verbatim_frame(1, 0, &[1, 2, 3, 4], &[-1, -2, -3, -4]);
    data.extend(verbatim_frame(1, 1, &[5, 6, 7, 8], &[-5, -6, -7, -8]));
    data.extend(verbatim_frame(1, 2, &[9, 9, 9, 9], &[0, 0, 0, 0]));
    let mut decoder = Decoder::new(BitReader::new(data), stream_info(8));
    let blocks = decoder.run().unwrap();
    assert_eq!(blocks.len(), 2);
    assert_eq!(blocks[0].samples, vec![1, -1, 2, -2, 3, -3, 4, -4]);
    assert_eq!(blocks[0].last, false);
    assert_eq!(blocks[1].samples, vec![5, -5, 6, -6, 7, -7, 8, -8]);
    assert_eq!(blocks[1].last, true);
    assert_eq!(blocks[1].channels, 2);
    assert_eq!(blocks[1].sample_rate, 44100);
    assert_eq!(blocks[1].bits_per_sample, 16);
}

#[test]
fn decoder_stops_at_end_of_stream() {
    let mut data = verbatim_frame(1, 0, &[1, 2, 3, 4], &[-1, -2, -3, -4]);
    data.extend(verbatim_frame(1, 1, &[5, 6, 7, 8], &[-5, -6, -7, -8]));
    let mut decoder = Decoder::new(BitReader::new(data.clone()), stream_info(0));
    let first = decoder.next_block().unwrap().unwrap();
    assert_eq!(first.last, false);
    let second = decoder.next_block().unwrap().unwrap();
    assert_eq!(second.last, true);
    assert!(decoder.next_block().unwrap().is_none());
    data.truncate(data.len() - 2);
    let mut truncated = Decoder::new(BitReader::new(data), stream_info(0));
    assert_eq!(truncated.run().unwrap_err(), FlacError::TruncatedFrame);
}

#[test]
fn reads_concatenate_to_the_input() {
    let data = vec![0xDE, 0xAD, 0xBE, 0xEF, 0x01, 0x23];
    let sizes = [1u32, 7, 13, 0, 2, 9, 16];
    let mut r = BitReader::new(data.clone());
    let mut w = BitWriter::new();
    for n in sizes {
        let v = r.read_bits(n).unwrap();
        w.put(v, n);
    }
    assert_eq!(r.position(), 48);
    assert_eq!(w.bytes, data);
}

fn coded(v: u64, len: u32) -> Vec<u8> {
    if len == 1 {
        return vec![v as u8];
    }
    let mut out = vec![(0xFFu32 << (8 - len)) as u8 | (v >> (6 * (len - 1))) as u8];
    for i in 1..len {
        out.push(0x80 | ((v >> (6 * (len - 1 - i))) & 0x3F) as u8);
    }
    out
}

#[test]
fn coded_numbers_round_trip() {
    for len in 1..=7u32 {
        let bits = if len == 1 { 7 } else { 5 * len + 1 };
        for v in [0u64, 1, 0x2A, (1u64 << bits) - 1, (1u64 << bits) / 3] {
            let mut data = vec![0x55];
            data.extend(coded(v, len));
            data.push(0xAA);
            let mut r = BitReader::new(data);
            r.read_bits(8).unwrap();
            assert_eq!(r.read_utf8_coded(), Ok(v));
            assert_eq!(r.position(), 8 * (1 + len as u64));
        }
    }
}

#[test]
fn failed_coded_number_reads_nothing() {
    let mut r = BitReader::new(vec![0xC2, 0x29]);
    assert_eq!(r.read_utf8_coded(), Err(FlacError::InvalidCodedNumber));
    assert_eq!(r.position(), 0);
    let mut short = BitReader::new(vec![0x00, 0xE0, 0x80]);
    short.read_bits(8).unwrap();
    assert_eq!(short.read_utf8_coded(), Err(FlacError::EndOfStream));
    assert_eq!(short.position(), 8);
}
