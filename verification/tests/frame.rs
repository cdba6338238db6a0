use std::io::Read;
use std::io::Seek;
use std::io::SeekFrom;
use std::io::Write;

use bincode::Options;
use bklog::error::Fault;
use bklog::frame::Frame;

fn crc32(bytes: &[u8]) -> u32 {
    crc::Crc::<u32>::new(&crc::CRC_32_ISCSI).checksum(bytes)
}

fn codec() -> impl Options {
    bincode::DefaultOptions::new()
        .reject_trailing_bytes()
        .with_native_endian()
        .with_fixint_encoding()
}

fn stored(length: u32, data: &[u8], checksum: u32) -> Vec<u8> {
    [&length.to_ne_bytes()[..], data, &checksum.to_ne_bytes()[..]].concat()
}

#[test]
fn test_from_entry() {
    let test = (1u32, 2u32);
    let frame = Frame::from_entry(codec().serialize(&test).unwrap());

    let len = (frame.len() as u32).to_ne_bytes();
    let a = test.0.to_ne_bytes();
    let b = test.1.to_ne_bytes();

    let checksum = crc32(&[len, a, b].concat());

    assert_eq!(frame.len(), 16);
    assert_eq!(frame.data(), [a, b].concat());
    assert_eq!(frame.checksum(), checksum);
}

#[test]
fn test_from_bytes() {
    let len = 16u32.to_ne_bytes();
    let a = 1u32.to_ne_bytes();
    let b = 2u32.to_ne_bytes();

    let checksum = crc32(&[len, a, b].concat());
    let checkbuf = checksum.to_ne_bytes();

    let buffer = [len, a, b, checkbuf].concat();
    let mut file = tempfile::tempfile().unwrap();

    file.write_all(&buffer)
        .expect("Write to temporary file should not have failed");

    let mut bytes = Vec::new();
    file.seek(SeekFrom::Start(0)).unwrap();
    file.read_to_end(&mut bytes).unwrap();

    let frame = Frame::from_file_at(&bytes, 0)
        .expect("Given the data, it should have deserialized without issues at this point");

    assert_eq!(frame.len(), 16);
    assert_eq!(frame.data(), [a, b].concat());
    assert_eq!(frame.checksum(), checksum);
}

#[test]
fn checksum_is_the_known_crc32_iscsi() {
    // The check value of CRC-32/ISCSI over "123456789" is 0xe3069283.
    assert_eq!(crc32(b"123456789"), 0xe306_9283);
    let frame = Frame::from_entry(b"56789".to_vec());
    let covered = [&13u32.to_ne_bytes()[..], b"56789"].concat();
    assert_eq!(frame.checksum(), crc32(&covered));
    assert!(frame.checksum() != crc32(b"56789"));
}

#[test]
fn empty_entry_makes_a_frame_of_eight_bytes() {
    let frame = Frame::from_entry(Vec::new());
    assert_eq!(frame.len(), 8);
    assert_eq!(frame.data(), &[] as &[u8]);
    assert_eq!(frame.checksum(), crc32(&8u32.to_ne_bytes()));
    assert_eq!(frame.verify_checksum(), Ok(()));
}

#[test]
fn frame_from_entry_verifies() {
    let frame = Frame::from_entry(vec![9, 8, 7]);
    assert_eq!(frame.verify_checksum(), Ok(()));
}

#[test]
fn mismatch_reports_stored_and_computed_checksum() {
    let data = [3u8, 1, 4, 1, 5];
    let good = crc32(&[&13u32.to_ne_bytes()[..], &data[..]].concat());
    let bytes = stored(13, &data, good ^ 1);
    let frame = Frame::from_file_at(&bytes, 0).unwrap();
    assert_eq!(frame.verify_checksum(), Err((good ^ 1, good)));
}

#[test]
fn every_flipped_data_bit_is_detected() {
    let data = [0x10u8, 0x20, 0x30, 0x40, 0x50, 0x60, 0x70, 0x80];
    let good = crc32(&[&16u32.to_ne_bytes()[..], &data[..]].concat());
    for byte in 0..data.len() {
        for bit in 0..8 {
            let mut bad = data;
            bad[byte] ^= 1 << bit;
            let frame = Frame::from_file_at(&stored(16, &bad, good), 0).unwrap();
            match frame.verify_checksum() {
                Err((expected, actual)) => {
                    assert_eq!(expected, good);
                    assert_ne!(expected, actual);
                }
                Ok(()) => panic!("flip of bit {bit} in byte {byte} passed"),
            }
        }
    }
}

#[test]
fn every_flipped_length_bit_is_detected() {
    let data = [0x10u8, 0x20, 0x30, 0x40, 0x50, 0x60, 0x70, 0x80];
    let good = crc32(&[&16u32.to_ne_bytes()[..], &data[..]].concat());
    let mut region = stored(16, &data, good);
    region.extend_from_slice(&[0u8; 64]);
    for bit in 0..32 {
        let mut bad = region.clone();
        let length = 16u32 ^ (1 << bit);
        bad[..4].copy_from_slice(&length.to_ne_bytes());
        match Frame::from_file_at(&bad, 0) {
            Ok(frame) => match frame.verify_checksum() {
                Err((expected, actual)) => assert_ne!(expected, actual),
                Ok(()) => panic!("flip of length bit {bit} passed"),
            },
            Err(fault) => {
                assert!(fault == Fault::InvalidData || fault == Fault::UnexpectedEof);
            }
        }
    }
}

#[test]
fn frame_is_read_at_an_offset() {
    let data = [1u8, 2, 3];
    let sum = crc32(&[&11u32.to_ne_bytes()[..], &data[..]].concat());
    let region = [&[0xee; 5][..], &stored(11, &data, sum)[..], &[0xdd; 3][..]].concat();
    let frame = Frame::from_file_at(&region, 5).unwrap();
    assert_eq!(frame.len(), 11);
    assert_eq!(frame.data(), &data[..]);
    assert_eq!(frame.checksum(), sum);
    assert_eq!(frame.verify_checksum(), Ok(()));
}

#[test]
fn frame_that_ends_with_the_region_is_read() {
    let region = stored(9, &[0x42], 77);
    let frame = Frame::from_file_at(&region, 0).unwrap();
    assert_eq!(frame.data(), &[0x42u8][..]);
    assert_eq!(frame.checksum(), 77);
}

#[test]
fn length_field_past_the_end_is_a_short_read() {
    let region = [0u8; 16];
    assert_eq!(Frame::from_file_at(&region, 13), Err(Fault::UnexpectedEof));
    assert_eq!(Frame::from_file_at(&region, 16), Err(Fault::UnexpectedEof));
    assert_eq!(Frame::from_file_at(&region, u64::MAX), Err(Fault::UnexpectedEof));
}

#[test]
fn length_below_the_overhead_is_invalid() {
    for length in 0u32..8 {
        let region = [&length.to_ne_bytes()[..], &[0u8; 12][..]].concat();
        assert_eq!(Frame::from_file_at(&region, 0), Err(Fault::InvalidData));
    }
    assert_eq!(Frame::from_file_at(&[0u8; 64], 8), Err(Fault::InvalidData));
}

#[test]
fn frame_past_the_end_is_a_short_read() {
    let mut region = stored(12, &[1, 2, 3, 4], 0);
    region.pop();
    assert_eq!(Frame::from_file_at(&region, 0), Err(Fault::UnexpectedEof));
    let huge = [&u32::MAX.to_ne_bytes()[..], &[0u8; 12][..]].concat();
    assert_eq!(Frame::from_file_at(&huge, 0), Err(Fault::UnexpectedEof));
}

#[test]
fn frame_is_written_as_length_data_checksum() {
    let frame = Frame::from_entry(vec![0xaa, 0xbb, 0xcc]);
    let mut region = vec![0x11u8; 20];
    assert_eq!(frame.write_at(&mut region, 4), Ok(()));
    let expected = [
        &[0x11u8; 4][..],
        &11u32.to_ne_bytes()[..],
        &[0xaa, 0xbb, 0xcc][..],
        &frame.checksum().to_ne_bytes()[..],
        &[0x11u8; 5][..],
    ]
    .concat();
    assert_eq!(region, expected);
}

#[test]
fn frame_written_is_read_back() {
    let frame = Frame::from_entry(vec![5, 6, 7, 8, 9]);
    let mut region = vec![0u8; 32];
    frame.write_at(&mut region, 10).unwrap();
    assert_eq!(Frame::from_file_at(&region, 10), Ok(frame));
}

#[test]
fn frame_is_not_written_past_the_end() {
    let frame = Frame::from_entry(vec![1, 2, 3, 4]);
    let mut region = vec![0x33u8; 16];
    assert_eq!(frame.write_at(&mut region, 5), Err(Fault::WriteZero));
    assert_eq!(region, vec![0x33u8; 16]);
    assert_eq!(frame.write_at(&mut region, 4), Ok(()));
}

#[test]
fn into_data_hands_out_the_payload() {
    let frame = Frame::from_entry(vec![4, 3, 2, 1]);
    assert_eq!(frame.into_data(), vec![4, 3, 2, 1]);
}

#[test]
fn deserialize_applies_the_decoder_to_the_payload() {
    let decode = |bytes: Vec<u8>| {
        codec()
            .deserialize::<(u32, u32)>(&bytes)
            .map_err(|e| e.to_string())
    };
    let frame = Frame::from_entry(codec().serialize(&(7u32, 11u32)).unwrap());
    assert_eq!(frame.deserialize(&decode), Ok((7, 11)));

    let short = Frame::from_entry(vec![1, 2, 3]);
    assert!(short.deserialize(&decode).is_err());

    let long = Frame::from_entry(vec![0; 9]);
    assert!(long.deserialize(&decode).is_err());
}

#[test]
fn encoding_round_trips() {
    let values: [(u32, u64, i16, bool); 3] =
        [(0, 0, 0, false), (1, u64::MAX, -1, true), (u32::MAX, 42, i16::MIN, true)];
    for value in values {
        let bytes = codec().serialize(&value).unwrap();
        assert_eq!(bytes.len(), 4 + 8 + 2 + 1);
        let back: (u32, u64, i16, bool) = codec().deserialize(&bytes).unwrap();
        assert_eq!(back, value);
    }
    let text = String::from("backlog");
    let bytes = codec().serialize(&text).unwrap();
    let back: String = codec().deserialize(&bytes).unwrap();
    assert_eq!(back, text);
}
