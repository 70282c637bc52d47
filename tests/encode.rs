use fit_to_json::encode::{encode_data_frame, encode_definition_frame, encode_fields, encode_value};
use fit_to_json::segment::{Definition, FieldDef, Field};
use fit_to_json::stream::{decode_stream, encode_segment};
use fit_to_json::value::{decode_value, BaseType, Scalar, Value};

fn round_trip(bytes: &[u8], base: BaseType, big: bool) {
    let v = decode_value(bytes, 0, bytes.len(), base, big).unwrap();
    assert_eq!(encode_value(&v, base, big, bytes.len()), bytes.to_vec());
}

#[test]
fn values_encode_back_to_their_bytes() {
    round_trip(&[0x12, 0x34], BaseType::UInt16, false);
    round_trip(&[0x12, 0x34], BaseType::UInt16, true);
    round_trip(&[0xFF, 0xFF, 0xFF, 0xFF], BaseType::UInt32, true);
    round_trip(&[0xFE, 0xFF, 0xFF, 0xFF], BaseType::SInt32, false);
    round_trip(&[0xFF, 0xFF, 0xFF, 0x7F], BaseType::SInt32, false);
    round_trip(&[0x7F, 0xFF, 0xFF, 0xFF, 0xFF, 0xFF, 0xFF, 0xFF], BaseType::SInt64, true);
    round_trip(&[1, 2, 3, 4, 5, 6, 7, 8], BaseType::Float64, false);
    round_trip(&[1, 0xFF, 3], BaseType::Enum, false);
    round_trip(&[b'a', 0, 0], BaseType::Text, false);
    round_trip(&[0, 0], BaseType::Text, false);
    round_trip(&[0xFF, 0xFF], BaseType::Bytes, false);
    round_trip(&[1, 0, 0xFF, 0xFF, 3, 0], BaseType::SInt16, false);
}

#[test]
fn encode_value_writes_scalars() {
    assert_eq!(
        encode_value(&Value::Scalar(Scalar::SInt { value: -2, bits: 16 }), BaseType::SInt16, true, 2),
        vec![0xFF, 0xFE]
    );
    assert_eq!(encode_value(&Value::Absent, BaseType::SInt16, false, 2), vec![0xFF, 0x7F]);
    assert_eq!(encode_value(&Value::Absent, BaseType::UInt8, false, 1), vec![0xFF]);
    assert_eq!(encode_value(&Value::Absent, BaseType::Text, false, 3), vec![0, 0, 0]);
    assert_eq!(
        encode_value(&Value::Scalar(Scalar::UInt { value: 0x0102_0304, bits: 32 }), BaseType::UInt32, false, 4),
        vec![4, 3, 2, 1]
    );
}

#[test]
fn frames_encode_back_to_their_bytes() {
    let def = Definition {
        big_endian: false,
        fields: vec![
            FieldDef { id: 1, size: 1, base: BaseType::UInt8 },
            FieldDef { id: 2, size: 2, base: BaseType::UInt16 },
            FieldDef { id: 3, size: 4, base: BaseType::UInt32 },
        ],
    };
    let def_bytes = vec![0x80u8, 0, 3, 1, 1, 2, 2, 2, 4, 3, 4, 6];
    assert_eq!(encode_definition_frame(0, &def), def_bytes);
    let data_bytes = vec![0x00u8, 0x11, 0x22, 0x33, 0x44, 0x55, 0x66, 0x77];
    let mut body = def_bytes.clone();
    body.extend_from_slice(&data_bytes);
    let seg = encode_segment(1, &body).unwrap();
    let d = decode_stream(&seg).unwrap();
    assert_eq!(d.warning, None);
    let rec = &d.segment.records[0];
    assert_eq!(encode_data_frame(rec.type_id, &rec.fields, &def), data_bytes);
    assert_eq!(encode_fields(&rec.fields, &def.fields, false), data_bytes[1..].to_vec());
    let ext = encode_definition_frame(200, &Definition { big_endian: true, fields: vec![] });
    assert_eq!(ext, vec![0xFF, 200, 1, 0]);
    let data = encode_data_frame(
        200,
        &vec![Field { id: 4, value: Value::Scalar(Scalar::Enum { code: 3 }) }],
        &Definition { big_endian: true, fields: vec![FieldDef { id: 4, size: 1, base: BaseType::Enum }] },
    );
    assert_eq!(data, vec![0x7F, 200, 3]);
}

#[test]
fn segment_framing_round_trip() {
    let body = vec![0x81u8, 0, 1, 9, 1, 2, 0x01, 42];
    let seg = encode_segment(1, &body).unwrap();
    assert_eq!(seg, vec![5, 1, 8, 0, 14, 0x81, 0, 1, 9, 1, 2, 0x01, 42, 0xD5]);
    let d = decode_stream(&seg).unwrap();
    assert_eq!(d.consumed, seg.len());
    assert_eq!(d.warning, None);
    assert_eq!(d.segment.version, 1);
    assert_eq!(encode_segment(d.segment.version, &seg[5..seg.len() - 1]).unwrap(), seg);
    assert_eq!(encode_segment(1, &vec![0u8; 0x10000]), None);
    let empty = encode_segment(1, &[]).unwrap();
    assert_eq!(empty, vec![5, 1, 0, 0, 6, 12]);
}
