use bytes::{Bytes, BytesMut};
use systems_programming::codec::{buffer_len, payload_len, CodecError, LengthPrefixedCodec, MAX_FRAME};
use systems_programming::endian::{read_endian, write_endian, Endian, ReadError};
use systems_programming::record::{Length, RecordHeader, Tag};

#[test]
fn round_trip_every_header() {
    for bits in 0..=u16::MAX {
        let header = RecordHeader::unpack(bits);
        assert_eq!(header.pack(), bits, "lost bits on {bits:#018b}");
    }
}

#[test]
fn layout_is_length_compressed_tag() {
    let header = RecordHeader {
        type_tag: Tag::new(0b111).unwrap(),
        compressed: true,
        length: Length::new(0b10_1111).unwrap(),
    };

    assert_eq!(header.pack(), 0b0000_0101_1111_0111);
}

#[test]
fn roundtrip_and_partial() {
    let mut buf = BytesMut::new();
    LengthPrefixedCodec {}
        .encode(Bytes::from_static(b"\xff\xfe not utf8"), &mut buf)
        .unwrap();

    // one byte short -> no frame yet, buffer untouched
    let mut partial = buf.split_to(buf.len() - 1);
    assert!(
        LengthPrefixedCodec {}
            .decode(&mut partial)
            .unwrap()
            .is_none()
    );

    partial.unsplit(buf);
    assert_eq!(
        LengthPrefixedCodec {}
            .decode(&mut partial)
            .unwrap()
            .unwrap(),
        &b"\xff\xfe not utf8"[..]
    );
    assert!(partial.is_empty());
}

// Further cases: edge values, every error, each law on concrete values.

#[test]
fn tag_and_length_refuse_values_that_do_not_fit() {
    assert!(Tag::new(15).is_some());
    assert!(Tag::new(16).is_none());
    assert_eq!(Tag::new(9).unwrap().get(), 9);
    assert!(Length::new(2047).is_some());
    assert!(Length::new(2048).is_none());
    assert_eq!(Length::new(1000).unwrap().get(), 1000);
}

#[test]
fn unpack_splits_the_fields() {
    let header = RecordHeader::unpack(0b0000_0101_1111_0111);
    assert_eq!(header.type_tag.get(), 0b111);
    assert!(header.compressed);
    assert_eq!(header.length.get(), 0b10_1111);
    let top = RecordHeader::unpack(u16::MAX);
    assert_eq!(top.type_tag.get(), 15);
    assert_eq!(top.length.get(), 2047);
}

#[test]
fn encode_writes_a_big_endian_length() {
    let mut buf = BytesMut::new();
    LengthPrefixedCodec {}
        .encode(Bytes::from_static(b"abc"), &mut buf)
        .unwrap();
    assert_eq!(&buf[..], &[0, 0, 0, 3, b'a', b'b', b'c'][..]);
}

#[test]
fn codec_refuses_oversized_payloads_and_frames() {
    let mut buf = BytesMut::new();
    let big = Bytes::from(vec![0u8; MAX_FRAME + 1]);
    assert_eq!(
        LengthPrefixedCodec {}.encode(big, &mut buf),
        Err(CodecError::PayloadTooLarge(MAX_FRAME + 1))
    );
    assert!(buf.is_empty());

    let mut src = BytesMut::from(&[0x00u8, 0x40, 0x00, 0x01][..]);
    assert_eq!(
        LengthPrefixedCodec {}.decode(&mut src),
        Err(CodecError::FrameTooLarge(0x0040_0001))
    );
}

#[test]
fn decode_leaves_the_next_frame_in_place() {
    let mut src = BytesMut::from(&[0u8, 0, 0, 1, b'x', 0, 0, 0, 2, b'y'][..]);
    let first = LengthPrefixedCodec {}.decode(&mut src).unwrap().unwrap();
    assert_eq!(&first[..], b"x");
    assert_eq!(&src[..], &[0u8, 0, 0, 2, b'y'][..]);
    assert!(LengthPrefixedCodec {}.decode(&mut src).unwrap().is_none());
    assert_eq!(src.len(), 5);
}

#[test]
fn little_endian_record_layout() {
    let bits = 12.12f64.to_bits();
    let le = write_endian(Endian::Little, (12, -12, bits));
    let expected_le = [
        0x0C, 0x00, 0x00, 0x00, // u32 12
        0xF4, 0xFF, 0xFF, 0xFF, 0xFF, 0xFF, 0xFF, 0xFF, // i64 -12, two's complement
        0x3D, 0x0A, 0xD7, 0xA3, 0x70, 0x3D, 0x28, 0x40, // f64 12.12
    ];
    assert_eq!(le, expected_le);
    let (vals, pos) = read_endian(Endian::Little, &le).unwrap();
    assert_eq!(vals, (12, -12, bits));
    assert_eq!(f64::from_bits(vals.2), 12.12);
    assert_eq!(pos, 20);
}

#[test]
fn big_endian_record_round_trips_and_differs() {
    let nums = (u32::MAX, i64::MIN, f64::NAN.to_bits());
    let be = write_endian(Endian::Big, nums);
    let le = write_endian(Endian::Little, nums);
    assert_ne!(le, be);
    assert_eq!(&be[..4], &[0xFF, 0xFF, 0xFF, 0xFF]);
    assert_eq!(&be[4..12], &[0x80, 0, 0, 0, 0, 0, 0, 0]);
    assert_eq!(read_endian(Endian::Big, &be).unwrap(), (nums, 20));
    assert_eq!(read_endian(Endian::Little, &le).unwrap(), (nums, 20));
}

#[test]
fn short_buffer_is_unexpected_eof() {
    assert_eq!(read_endian(Endian::Big, &[0u8; 19]), Err(ReadError::UnexpectedEof));
    assert_eq!(read_endian(Endian::Little, &[]), Err(ReadError::UnexpectedEof));
}

#[test]
fn lengths_of_buffers_and_payloads() {
    let mut buf = BytesMut::new();
    assert_eq!(buffer_len(&buf), 0);
    LengthPrefixedCodec {}
        .encode(Bytes::from_static(b"abc"), &mut buf)
        .unwrap();
    assert_eq!(buffer_len(&buf), 7);
    assert_eq!(payload_len(&Bytes::from_static(b"abcd")), 4);
}
