use fit_to_json::error::DecodeError;
use fit_to_json::segment::{decode_body, Field, Record};
use fit_to_json::stream::{checksum, decode_chain, decode_stream};
use fit_to_json::value::{decode_value, read_raw, BaseType, Scalar, Value};

fn sum(bytes: &[u8]) -> u8 {
    bytes.iter().fold(0u8, |a, b| a.wrapping_add(*b))
}

fn segment(body: &[u8]) -> Vec<u8> {
    let n = body.len();
    let mut v = vec![5u8, 1, (n & 0xFF) as u8, (n >> 8) as u8];
    let h = sum(&v);
    v.push(h);
    v.extend_from_slice(body);
    let c = sum(&v);
    v.push(c);
    v
}

/// Definition of type 0 (little endian) with fields 1:uint8, 2:uint16, 3:uint32,
/// then one data frame of seven bytes.
fn three_field_body(big: bool, data: [u8; 7]) -> Vec<u8> {
    let mut b = vec![0x80u8, if big { 1 } else { 0 }, 3, 1, 1, 2, 2, 2, 4, 3, 4, 6];
    b.push(0x00);
    b.extend_from_slice(&data);
    b
}

#[test]
fn fields_take_consecutive_offsets_little_endian() {
    let buf = segment(&three_field_body(false, [0x11, 0x22, 0x33, 0x44, 0x55, 0x66, 0x77]));
    let d = decode_stream(&buf).unwrap();
    assert_eq!(d.consumed, buf.len());
    assert_eq!(d.warning, None);
    let r = &d.segment.records[0];
    assert_eq!(r.type_id, 0);
    assert_eq!(r.fields.len(), 3);
    assert_eq!(r.fields[0], Field { id: 1, value: Value::Scalar(Scalar::UInt { value: 0x11, bits: 8 }) });
    assert_eq!(r.fields[1], Field { id: 2, value: Value::Scalar(Scalar::UInt { value: 0x3322, bits: 16 }) });
    assert_eq!(
        r.fields[2],
        Field { id: 3, value: Value::Scalar(Scalar::UInt { value: 0x7766_5544, bits: 32 }) }
    );
}

#[test]
fn fields_take_consecutive_offsets_big_endian() {
    let buf = segment(&three_field_body(true, [0x11, 0x22, 0x33, 0x44, 0x55, 0x66, 0x77]));
    let d = decode_stream(&buf).unwrap();
    let r = &d.segment.records[0];
    assert_eq!(r.fields[0].value, Value::Scalar(Scalar::UInt { value: 0x11, bits: 8 }));
    assert_eq!(r.fields[1].value, Value::Scalar(Scalar::UInt { value: 0x2233, bits: 16 }));
    assert_eq!(r.fields[2].value, Value::Scalar(Scalar::UInt { value: 0x4455_6677, bits: 32 }));
}

#[test]
fn sentinel_fields_are_absent() {
    let buf = segment(&three_field_body(false, [0xFF, 0xFF, 0xFF, 0xFF, 0xFF, 0xFF, 0xFF]));
    let d = decode_stream(&buf).unwrap();
    let r = &d.segment.records[0];
    for f in &r.fields {
        assert_eq!(f.value, Value::Absent);
    }
    assert_eq!(decode_value(&[0xFF], 0, 1, BaseType::UInt8, false), Ok(Value::Absent));
    assert_eq!(decode_value(&[0xFF, 0xFF], 0, 2, BaseType::UInt16, true), Ok(Value::Absent));
    assert_eq!(
        decode_value(&[0xFE], 0, 1, BaseType::UInt8, false),
        Ok(Value::Scalar(Scalar::UInt { value: 0xFE, bits: 8 }))
    );
    assert_eq!(decode_value(&[0x7F], 0, 1, BaseType::SInt8, false), Ok(Value::Absent));
    assert_eq!(decode_value(&[0, 0, 0], 0, 3, BaseType::Text, false), Ok(Value::Absent));
    assert_eq!(decode_value(&[0xFF, 0xFF], 0, 2, BaseType::Bytes, false), Ok(Value::Absent));
}

#[test]
fn signed_values_and_arrays() {
    assert_eq!(
        decode_value(&[0xFE, 0xFF], 0, 2, BaseType::SInt16, false),
        Ok(Value::Scalar(Scalar::SInt { value: -2, bits: 16 }))
    );
    assert_eq!(
        decode_value(&[0x80], 0, 1, BaseType::SInt8, false),
        Ok(Value::Scalar(Scalar::SInt { value: -128, bits: 8 }))
    );
    assert_eq!(
        decode_value(&[1, 0, 0xFF, 0xFF], 0, 4, BaseType::UInt16, false),
        Ok(Value::Array(vec![Scalar::UInt { value: 1, bits: 16 }, Scalar::Absent]))
    );
    assert_eq!(
        decode_value(&[b'h', b'i', 0], 0, 3, BaseType::Text, false),
        Ok(Value::Text(vec![b'h', b'i', 0]))
    );
    assert_eq!(read_raw(&[1, 2, 3, 4], 0, 4, false), 0x0403_0201);
    assert_eq!(read_raw(&[1, 2, 3, 4], 0, 4, true), 0x0102_0304);
    assert_eq!(read_raw(&[0xFF; 8], 0, 8, true), u64::MAX);
}

#[test]
fn width_not_dividing_window_is_rejected() {
    assert_eq!(
        decode_value(&[1, 2, 3], 0, 3, BaseType::UInt32, false),
        Err(DecodeError::FieldWidthMismatch)
    );
    let body = vec![0x80u8, 0, 1, 1, 3, 6, 0x00, 1, 2, 3];
    assert_eq!(decode_stream(&segment(&body)), Err(DecodeError::FieldWidthMismatch));
}

#[test]
fn data_before_definition_is_undefined() {
    let mut body = vec![0x80u8, 0, 1, 1, 1, 2, 0x00, 9];
    body.extend_from_slice(&[0x03, 7]);
    assert_eq!(
        decode_body(&body),
        Err(DecodeError::UndefinedFrameType { type_id: 3, offset: 8 })
    );
    assert_eq!(
        decode_stream(&segment(&[0x02, 1, 2])),
        Err(DecodeError::UndefinedFrameType { type_id: 2, offset: 0 })
    );
}

#[test]
fn truncated_stream_consumes_nothing() {
    let mut buf = vec![5u8, 1, 50, 0];
    let h = sum(&buf);
    buf.push(h);
    buf.resize(30, 0);
    assert_eq!(decode_stream(&buf), Err(DecodeError::TruncatedStream));
    assert_eq!(decode_chain(&buf), Err(DecodeError::TruncatedStream));
    assert_eq!(decode_stream(&[]), Err(DecodeError::TruncatedStream));
    assert_eq!(decode_stream(&[5, 1]), Err(DecodeError::TruncatedStream));
}

#[test]
fn corrupt_trailing_checksum_keeps_records() {
    let mut buf = segment(&three_field_body(false, [1, 2, 0, 3, 0, 0, 0]));
    let last = buf.len() - 1;
    buf[last] = buf[last].wrapping_add(1);
    let d = decode_stream(&buf).unwrap();
    assert_eq!(d.warning, Some(DecodeError::SegmentChecksumMismatch));
    assert_eq!(d.consumed, buf.len());
    assert_eq!(d.segment.records.len(), 1);
    assert_eq!(d.segment.records[0].fields[1].value, Value::Scalar(Scalar::UInt { value: 2, bits: 16 }));
}

#[test]
fn header_errors() {
    assert_eq!(decode_stream(&[4, 1, 0, 0, 5, 6]), Err(DecodeError::InvalidHeader));
    assert_eq!(decode_stream(&[5, 2, 0, 0, 7, 7]), Err(DecodeError::InvalidHeader));
    assert_eq!(decode_stream(&[5, 1, 0, 0, 9, 6]), Err(DecodeError::HeaderChecksumMismatch));
    assert_eq!(checksum(&[5, 1, 0, 0], 4), 6);
    assert_eq!(checksum(&[200, 100], 2), 44);
}

#[test]
fn chained_segments_decode_in_order() {
    let a = segment(&three_field_body(false, [1, 0, 0, 0, 0, 0, 0]));
    let b = segment(&[0x81u8, 0, 1, 9, 1, 2, 0x01, 42]);
    let c = segment(&[]);
    let mut buf = a.clone();
    buf.extend_from_slice(&b);
    buf.extend_from_slice(&c);
    let ds = decode_chain(&buf).unwrap();
    assert_eq!(ds.len(), 3);
    assert_eq!(ds[0].consumed, a.len());
    assert_eq!(ds[1].consumed, b.len());
    assert_eq!(ds[2].consumed, c.len());
    assert_eq!(ds[0].segment.records[0].fields[0].value, Value::Scalar(Scalar::UInt { value: 1, bits: 8 }));
    assert_eq!(
        ds[1].segment.records[0],
        Record {
            type_id: 1,
            kind: 1,
            fields: vec![Field { id: 9, value: Value::Scalar(Scalar::UInt { value: 42, bits: 8 }) }]
        }
    );
    assert!(ds[2].segment.records.is_empty());
    assert_eq!(decode_chain(&[]), Ok(vec![]));
}

#[test]
fn later_definition_replaces_earlier() {
    let body = vec![
        0x80u8, 0, 1, 1, 1, 2, // type 0: one uint8
        0x00, 7, //
        0x80, 0, 1, 1, 2, 4, // type 0: one uint16
        0x00, 1, 2,
    ];
    let rs = decode_body(&body).unwrap();
    assert_eq!(rs.len(), 2);
    assert_eq!(rs[0].fields[0].value, Value::Scalar(Scalar::UInt { value: 7, bits: 8 }));
    assert_eq!(rs[1].fields[0].value, Value::Scalar(Scalar::UInt { value: 0x0201, bits: 16 }));
}

#[test]
fn extended_type_and_kind_field() {
    let body = vec![
        0xFFu8, 200, 0, 2, 0xFD, 2, 4, 5, 1, 2, // type 200: kind field (uint16), field 5
        0x7F, 200, 0x34, 0x12, 9,
    ];
    let rs = decode_body(&body).unwrap();
    assert_eq!(rs.len(), 1);
    assert_eq!(rs[0].type_id, 200);
    assert_eq!(rs[0].kind, 0x1234);
    assert_eq!(rs[0].fields[1], Field { id: 5, value: Value::Scalar(Scalar::UInt { value: 9, bits: 8 }) });
    assert_eq!(decode_body(&[0xFF]), Err(DecodeError::TruncatedStream));
    assert_eq!(decode_body(&[0x80, 0, 2, 1, 1]), Err(DecodeError::TruncatedStream));
}
