use psas_telemetry::messages::{read_header, read_seqn_body, Header, ReadError, SIZE_OF_HEADER};
use psas_telemetry::raw::{read_raw, FieldType, RawValue};

#[test]
fn header_size_is_twelve() {
    assert_eq!(SIZE_OF_HEADER, 12);
}

#[test]
fn header_writes_big_endian_fields() {
    let h = Header { fourcc: *b"SEQN", timestamp: 0x0102_0304_0506, size: 0x0708 };
    let mut buf = vec![0xaa];
    h.write(&mut buf);
    assert_eq!(buf, vec![0xaa, b'S', b'E', b'Q', b'N', 1, 2, 3, 4, 5, 6, 7, 8]);
}

#[test]
fn header_write_keeps_low_bits() {
    let h = Header { fourcc: *b"ABCD", timestamp: 0xffee_0102_0304_0506, size: 0x1_0203 };
    let mut buf = Vec::new();
    h.write(&mut buf);
    assert_eq!(buf, vec![b'A', b'B', b'C', b'D', 1, 2, 3, 4, 5, 6, 2, 3]);
    let back = read_header(&buf).unwrap();
    assert_eq!(back, Header { fourcc: *b"ABCD", timestamp: 0x0102_0304_0506, size: 0x0203 });
}

#[test]
fn header_roundtrip() {
    let h = Header { fourcc: *b"RNHP", timestamp: 0xffff_ffff_ffff, size: 0xffff };
    let mut buf = Vec::new();
    h.write(&mut buf);
    assert_eq!(buf.len(), SIZE_OF_HEADER);
    assert_eq!(read_header(&buf), Ok(h));
}

#[test]
fn read_header_reads_first_twelve_bytes() {
    let bytes = [b'V', b'E', b'R', b'S', 0, 0, 0, 1, 0, 2, 0, 3, 99, 98];
    let h = read_header(&bytes).unwrap();
    assert_eq!(h.fourcc, *b"VERS");
    assert_eq!(h.timestamp, 0x1_0002);
    assert_eq!(h.size, 3);
}

#[test]
fn read_header_short_input_is_eof() {
    let bytes = [b'V', b'E', b'R', b'S', 0, 0, 0, 1, 0, 2, 0];
    assert_eq!(read_header(&bytes), Err(ReadError::UnexpectedEof));
    assert_eq!(read_header(&[]), Err(ReadError::UnexpectedEof));
}

#[test]
fn seqn_body_is_big_endian_u32() {
    assert_eq!(read_seqn_body(&vec![0, 0, 0, 190]), 190);
    assert_eq!(read_seqn_body(&vec![1, 2, 3, 4, 5]), 0x0102_0304);
}

#[test]
fn read_raw_unpacks_fields_in_order() {
    let layout = [
        FieldType::U8,
        FieldType::U16,
        FieldType::I16,
        FieldType::U32,
        FieldType::I32,
        FieldType::U64,
        FieldType::I64,
    ];
    let mut body = vec![0x7f];
    body.extend_from_slice(&[0x12, 0x34]);
    body.extend_from_slice(&[0xff, 0xfe]);
    body.extend_from_slice(&[0xde, 0xad, 0xbe, 0xef]);
    body.extend_from_slice(&[0x80, 0, 0, 0]);
    body.extend_from_slice(&[0, 0, 0, 0, 0, 0, 1, 0]);
    body.extend_from_slice(&[0xff; 8]);
    body.push(0x55);
    let values = read_raw(&layout, body);
    assert_eq!(
        values,
        vec![
            RawValue::U8(0x7f),
            RawValue::U16(0x1234),
            RawValue::I16(-2),
            RawValue::U32(0xdead_beef),
            RawValue::I32(i32::MIN),
            RawValue::U64(256),
            RawValue::I64(-1),
        ]
    );
}

#[test]
fn read_raw_empty_layout() {
    assert_eq!(read_raw(&[], vec![1, 2, 3]), Vec::new());
}
