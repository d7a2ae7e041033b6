use flac::bitstream::BitReader;
use flac::demuxer::Demuxer;
use flac::error::FlacError;
use flac::metadata::stream_info::{StreamInfo, MD5};
use flac::metadata::unknown::Unknown;
use flac::metadata::{transfer, Metadata, Ty};

const SIGNATURE: [u8; 16] = [
    0x07, 0x02, 0x55, 0xE5, 0xCE, 0x94, 0x69, 0xED, 0xC6, 0x23, 0xCD, 0x9E, 0x8E, 0xB3, 0xE2, 0x21,
];

struct BitWriter {
    bytes: Vec<u8>,
    bits: usize,
}

impl BitWriter {
    fn new() -> BitWriter {
        BitWriter { bytes: Vec::new(), bits: 0 }
    }

    fn put(&mut self, value: u64, n: u32) {
        for i in (0..n).rev() {
            if self.bits % 8 == 0 {
                self.bytes.push(0);
            }
            let bit = ((value >> i) & 1) as u8;
            let last = self.bytes.len() - 1;
            self.bytes[last] |= bit << (7 - self.bits % 8);
            self.bits += 1;
        }
    }
}

fn canonical() -> StreamInfo {
    StreamInfo {
        block_size: (4096, 4096),
        frame_size: (1324, 13848),
        sample_rate: 44100,
        channels: 2,
        bits_per_sample: 16,
        samples: 13940634,
        signature: MD5(SIGNATURE),
    }
}

fn stream_info_payload() -> Vec<u8> {
    let mut w = BitWriter::new();
    w.put(4096, 16);
    w.put(4096, 16);
    w.put(1324, 24);
    w.put(13848, 24);
    w.put(44100, 20);
    w.put(1, 3);
    w.put(15, 5);
    w.put(13940634, 36);
    for b in SIGNATURE.iter() {
        w.put(*b as u64, 8);
    }
    w.bytes
}

fn block(header: u8, payload: &[u8]) -> Vec<u8> {
    let len = payload.len();
    let mut v = vec![header, (len >> 16) as u8, (len >> 8) as u8, len as u8];
    v.extend_from_slice(payload);
    v
}

fn vorbis_comment() -> Vec<u8> {
    (0..315).map(|i| (i * 7 % 251) as u8).collect()
}

fn stream(blocks: &[Vec<u8>]) -> Vec<u8> {
    let mut v = b"fLaC".to_vec();
    for b in blocks {
        v.extend_from_slice(b);
    }
    v
}

#[test]
fn test_new() {
    let data = stream(&[block(0x00, &stream_info_payload()), block(0x84, &vorbis_comment())]);
    let size = data.len() as u64;
    let mut demuxer = Demuxer::new(data);
    let stream_info = demuxer.run().unwrap();
    assert_eq!(stream_info, canonical());
    assert_eq!(demuxer.into_reader().position(), size * 8);
}

#[test]
fn test_transfer_1() {
    let mut stream = BitReader::new(block(0x00, &stream_info_payload()));
    let mut metadata = Metadata::initialize();
    let last = transfer(&mut stream, &mut metadata).unwrap();
    assert_eq!(last, false);
    assert_eq!(metadata.ty, Ty::StreamInfo(canonical()));
    assert_eq!(metadata.data.len(), 34);
}

#[test]
fn test_transfer_2() {
    let mut stream = BitReader::new(block(0x84, &vorbis_comment()));
    let mut metadata = Metadata::initialize();
    let last = transfer(&mut stream, &mut metadata).unwrap();
    assert_eq!(last, true);
    assert_eq!(metadata.ty, Ty::Unknown);
    assert_eq!(metadata.data.len(), 315);
}

#[test]
fn test_from() {
    let mut bytes = vec![0x00, 0x00, 0x22];
    bytes.extend_from_slice(&stream_info_payload());
    let mut stream = BitReader::new(bytes);
    let mut stream_info = StreamInfo::initialize();
    StreamInfo::transfer(&mut stream, &mut stream_info).unwrap();
    assert_eq!(stream_info, canonical());
}

#[test]
fn test_from_1() {
    let mut bytes = vec![0x00, 0x00, 0x22];
    bytes.extend_from_slice(&stream_info_payload());
    let mut stream = BitReader::new(bytes);
    let si = Unknown::from(&mut stream).unwrap();
    assert_eq!(si.data.len(), 34);
}

#[test]
fn test_from_2() {
    let mut bytes = vec![0x00, 0x01, 0x3B];
    bytes.extend_from_slice(&vorbis_comment());
    let mut stream = BitReader::new(bytes);
    let si = Unknown::from(&mut stream).unwrap();
    assert_eq!(si.data.len(), 315);
}

#[test]
fn demuxer_rejects_bad_magic_after_four_bytes() {
    let mut data = b"fLaX".to_vec();
    data.extend_from_slice(&block(0x80, &stream_info_payload()));
    let mut demuxer = Demuxer::new(data);
    assert_eq!(demuxer.run(), Err(FlacError::BadMagic));
    assert_eq!(demuxer.into_reader().position(), 32);
}

#[test]
fn demuxer_requires_stream_info_first() {
    let data = stream(&[block(0x84, &vorbis_comment())]);
    assert_eq!(Demuxer::new(data).run(), Err(FlacError::StreamInfoMissing));
}

#[test]
fn demuxer_rejects_second_stream_info() {
    let data = stream(&[block(0x00, &stream_info_payload()), block(0x80, &stream_info_payload())]);
    assert_eq!(Demuxer::new(data).run(), Err(FlacError::DuplicateStreamInfo));
}

#[test]
fn demuxer_rejects_reserved_block_type() {
    let data = stream(&[block(0x00, &stream_info_payload()), block(0xFF, &[1, 2, 3])]);
    assert_eq!(Demuxer::new(data).run(), Err(FlacError::InvalidMetadataType));
}

#[test]
fn demuxer_reports_truncated_metadata() {
    let mut data = stream(&[block(0x00, &stream_info_payload()), block(0x84, &vorbis_comment())]);
    data.truncate(data.len() - 1);
    assert_eq!(Demuxer::new(data).run(), Err(FlacError::TruncatedMetadata));
    assert_eq!(Demuxer::new(b"fL".to_vec()).run(), Err(FlacError::TruncatedMetadata));
}

#[test]
fn demuxer_rejects_stream_info_of_wrong_length() {
    let mut payload = stream_info_payload();
    payload.push(0);
    let data = stream(&[block(0x80, &payload)]);
    assert_eq!(Demuxer::new(data).run(), Err(FlacError::InvalidStreamInfo));
}

#[test]
fn demuxer_rejects_zero_sample_rate() {
    let mut payload = stream_info_payload();
    payload[10] = 0;
    payload[11] = 0;
    payload[12] &= 0x0F;
    let data = stream(&[block(0x80, &payload)]);
    assert_eq!(Demuxer::new(data).run(), Err(FlacError::InvalidStreamInfo));
}

#[test]
fn stream_info_reinitialize_clears_every_field() {
    let mut si = canonical();
    si.reinitialize();
    assert_eq!(si, StreamInfo::initialize());
    assert_eq!(si.signature, MD5([0; 16]));
    assert!(MD5(SIGNATURE) != MD5([0; 16]));
}

#[test]
fn metadata_reinitialize_empties_the_block() {
    let mut stream = BitReader::new(block(0x84, &vorbis_comment()));
    let mut metadata = Metadata::initialize();
    transfer(&mut stream, &mut metadata).unwrap();
    metadata.reinitialize();
    assert_eq!(metadata.ty, Ty::Unknown);
    assert_eq!(metadata.data.len(), 0);
}

#[test]
fn stream_info_of_wrong_length_stops_after_the_length() {
    let mut bytes = vec![0x00, 0x00, 0x21];
    bytes.extend_from_slice(&stream_info_payload());
    let mut stream = BitReader::new(bytes);
    let mut stream_info = StreamInfo::initialize();
    assert_eq!(StreamInfo::transfer(&mut stream, &mut stream_info), Err(FlacError::InvalidStreamInfo));
    assert_eq!(stream.position(), 24);
    assert_eq!(stream_info, StreamInfo::initialize());
}
