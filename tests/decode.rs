use std::fmt::Debug;

use micropb::decode::{DecodeError, PbReader};
use micropb::wire::{Tag, WIRE_TYPE_I32, WIRE_TYPE_I64, WIRE_TYPE_LEN, WIRE_TYPE_VARINT};

/// Runs `op` on a reader over `bytes`; a successful read must use up the input.
fn check<T, F>(expected: Result<T, DecodeError>, bytes: &[u8], op: F)
where
    T: PartialEq + Debug,
    F: FnOnce(&mut PbReader) -> Result<T, DecodeError>,
{
    let mut reader = PbReader::new(bytes);
    let res = op(&mut reader);
    assert_eq!(expected, res);
    if res.is_ok() {
        assert_eq!(reader.remaining(), 0);
    }
}

#[test]
fn varint32() {
    check(Ok(5), &[5], |r| r.decode_uint32());
    check(Ok(150), &[0x96, 0x01], |r| r.decode_uint32());
    check(Ok(0b1010000001110010101), &[0x95, 0x87, 0x14], |r| r.decode_uint32());
    // Last byte is partially truncated in the output
    check(
        Ok(0b11110000000000000000000000000001),
        &[0x81, 0x80, 0x80, 0x80, 0x7F],
        |r| r.decode_uint32(),
    );
    check(Err(DecodeError::UnexpectedEof), &[0x80], |r| r.decode_uint32());
    check(Err(DecodeError::UnexpectedEof), &[], |r| r.decode_uint32());
    check(
        Err(DecodeError::VarIntLimit(5)),
        &[0x80, 0x80, 0x80, 0x80, 0x80, 0x01],
        |r| r.decode_uint32(),
    );
}

#[test]
fn varint64() {
    check(Ok(5), &[5], |r| r.decode_uint64());
    check(Ok(150), &[0x96, 0x01], |r| r.decode_uint64());
    // Last byte is partially truncated in the output
    check(
        Ok(0b1000000000000000000000000000000000000000000000000000000000000001),
        &[0x81, 0x80, 0x80, 0x80, 0x80, 0x80, 0x80, 0x80, 0x80, 0x7F],
        |r| r.decode_uint64(),
    );
    check(Err(DecodeError::UnexpectedEof), &[0x80], |r| r.decode_uint64());
    check(Err(DecodeError::UnexpectedEof), &[], |r| r.decode_uint64());
    check(
        Err(DecodeError::VarIntLimit(10)),
        &[0x80, 0x80, 0x80, 0x80, 0x80, 0x80, 0x80, 0x80, 0x80, 0x80, 0x01],
        |r| r.decode_uint64(),
    );
}

#[test]
fn skip_varint() {
    check(Ok(()), &[5], |r| r.skip_varint());
    check(Ok(()), &[0x96, 0x01], |r| r.skip_varint());
    check(
        Ok(()),
        &[0x81, 0x80, 0x80, 0x80, 0x80, 0x80, 0x80, 0x80, 0x80, 0x7F],
        |r| r.skip_varint(),
    );
    check(Err(DecodeError::UnexpectedEof), &[0x80], |r| r.skip_varint());
    check(Err(DecodeError::UnexpectedEof), &[], |r| r.skip_varint());
    check(
        Err(DecodeError::VarIntLimit(10)),
        &[0x80, 0x80, 0x80, 0x80, 0x80, 0x80, 0x80, 0x80, 0x80, 0x80, 0x01],
        |r| r.skip_varint(),
    );
}

#[test]
fn int_decode() {
    check(Ok(5), &[5], |r| r.decode_int32());
    check(Ok(5), &[5], |r| r.decode_int64());
    // int32 is decoded as varint64, so big varints get cast down to 32 bits
    check(
        Ok(0b00000000000000000000000000000001),
        &[0x81, 0x80, 0x80, 0x80, 0x80, 0x80, 0x80, 0x80, 0x80, 0x7F],
        |r| r.decode_int32(),
    );
    check(
        Ok(0b100000000000000000000000000000000000000000000000000000000000001),
        &[0x81, 0x80, 0x80, 0x80, 0x80, 0x80, 0x80, 0x80, 0xC0, 0x00],
        |r| r.decode_int64(),
    );
    check(
        Ok(-2),
        &[0xFE, 0xFF, 0xFF, 0xFF, 0xFF, 0xFF, 0xFF, 0xFF, 0xFF, 0x01],
        |r| r.decode_int32(),
    );
    check(
        Ok(-2),
        &[0xFE, 0xFF, 0xFF, 0xFF, 0xFF, 0xFF, 0xFF, 0xFF, 0xFF, 0x01],
        |r| r.decode_int64(),
    );
}

#[test]
fn sint32() {
    check(Ok(0), &[0], |r| r.decode_sint32());
    check(Ok(-1), &[1], |r| r.decode_sint32());
    check(Ok(1), &[2], |r| r.decode_sint32());
    check(Ok(-2), &[3], |r| r.decode_sint32());
    check(Ok(0x7FFFFFFF), &[0xFE, 0xFF, 0xFF, 0xFF, 0x7F], |r| r.decode_sint32());
    check(Ok(-0x80000000), &[0xFF, 0xFF, 0xFF, 0xFF, 0x7F], |r| r.decode_sint32());
    check(
        Err(DecodeError::VarIntLimit(5)),
        &[0x80, 0x80, 0x80, 0x80, 0x80, 0x01],
        |r| r.decode_sint32(),
    );
}

#[test]
fn sint64() {
    check(Ok(0), &[0], |r| r.decode_sint64());
    check(Ok(-1), &[1], |r| r.decode_sint64());
    check(
        Ok(0x7FFFFFFFFFFFFFFF),
        &[0xFE, 0xFF, 0xFF, 0xFF, 0xFF, 0xFF, 0xFF, 0xFF, 0xFF, 0x7F],
        |r| r.decode_sint64(),
    );
    check(
        Ok(-0x8000000000000000),
        &[0xFF, 0xFF, 0xFF, 0xFF, 0xFF, 0xFF, 0xFF, 0xFF, 0xFF, 0x7F],
        |r| r.decode_sint64(),
    );
    check(
        Err(DecodeError::VarIntLimit(10)),
        &[0x80, 0x80, 0x80, 0x80, 0x80, 0x80, 0x80, 0x80, 0x80, 0x80, 0x01],
        |r| r.decode_sint64(),
    );
}

#[test]
fn bool() {
    check(Ok(false), &[0], |r| r.decode_bool());
    check(Ok(true), &[1], |r| r.decode_bool());
    check(Ok(true), &[0x3], |r| r.decode_bool());
    check(Err(DecodeError::VarIntLimit(1)), &[0x80], |r| r.decode_bool());
}

#[test]
fn fixed() {
    check(Err(DecodeError::UnexpectedEof), &[0], |r| r.decode_fixed32());
    check(Err(DecodeError::UnexpectedEof), &[0x01, 0x43, 0x22], |r| r.decode_fixed32());
    check(Ok(0xF4983212), &[0x12, 0x32, 0x98, 0xF4], |r| r.decode_fixed32());
    check(
        Err(DecodeError::UnexpectedEof),
        &[0x01, 0x43, 0x22, 0x32, 0x9A, 0xBB, 0x3C],
        |r| r.decode_fixed64(),
    );
    check(
        Ok(0x9950AA3BF4983212),
        &[0x12, 0x32, 0x98, 0xF4, 0x3B, 0xAA, 0x50, 0x99],
        |r| r.decode_fixed64(),
    );
}

#[test]
fn sfixed() {
    check(Err(DecodeError::UnexpectedEof), &[0x01, 0x43, 0x22], |r| r.decode_sfixed32());
    check(Ok(-0x0B67CDEE), &[0x12, 0x32, 0x98, 0xF4], |r| r.decode_sfixed32());
    check(
        Err(DecodeError::UnexpectedEof),
        &[0x01, 0x43, 0x22, 0x32, 0x9A, 0xBB, 0x3C],
        |r| r.decode_sfixed64(),
    );
}

#[test]
fn float() {
    check(Err(DecodeError::UnexpectedEof), &[0x01, 0x43, 0x22], |r| {
        r.decode_fixed32().map(f32::from_bits)
    });
    check(Ok(-29.03456), &[0xC7, 0x46, 0xE8, 0xC1], |r| {
        r.decode_fixed32().map(f32::from_bits)
    });
    check(
        Err(DecodeError::UnexpectedEof),
        &[0x01, 0x43, 0x22, 0x32, 0x9A, 0xBB, 0x3C],
        |r| r.decode_fixed64().map(f64::from_bits),
    );
    check(
        Ok(26.029345233467545),
        &[0x5E, 0x09, 0x52, 0x2B, 0x83, 0x07, 0x3A, 0x40],
        |r| r.decode_fixed64().map(f64::from_bits),
    );
}

#[test]
fn decode_tag() {
    check(Ok(Tag { field_num: 5, wire_type: 4 }), &[0x2C], |r| r.decode_tag());
    check(Ok(Tag { field_num: 59, wire_type: 7 }), &[0xDF, 0x03], |r| r.decode_tag());
}

#[test]
fn skip() {
    let mut tag = Tag { field_num: 1, wire_type: WIRE_TYPE_VARINT };
    check(Ok(()), &[0x81, 0x80, 0x80, 0x80, 0x7F], |r| r.skip_wire_value(&tag));

    tag.wire_type = WIRE_TYPE_I64;
    check(
        Ok(()),
        &[0x12, 0x45, 0xE4, 0x90, 0x9C, 0xA1, 0xF5, 0xFF],
        |r| r.skip_wire_value(&tag),
    );
    check(
        Err(DecodeError::UnexpectedEof),
        &[0x12, 0x45, 0xE4, 0x90, 0x9C],
        |r| r.skip_wire_value(&tag),
    );

    tag.wire_type = WIRE_TYPE_I32;
    check(Ok(()), &[0x9C, 0xA1, 0xF5, 0xFF], |r| r.skip_wire_value(&tag));
    check(Err(DecodeError::UnexpectedEof), &[0xF5, 0xFF], |r| r.skip_wire_value(&tag));

    tag.wire_type = WIRE_TYPE_LEN;
    check(Ok(()), &[0x03, 0xEE, 0xAB, 0x56], |r| r.skip_wire_value(&tag));
    check(
        Ok(()),
        &[0x85, 0x00, 0x01, 0x02, 0x03, 0x04, 0x05],
        |r| r.skip_wire_value(&tag),
    );
    check(Err(DecodeError::UnexpectedEof), &[0x03, 0xAB, 0x56], |r| r.skip_wire_value(&tag));

    tag.wire_type = 3;
    check(Err(DecodeError::Deprecation), &[], |r| r.skip_wire_value(&tag));
    tag.wire_type = 4;
    check(Err(DecodeError::Deprecation), &[], |r| r.skip_wire_value(&tag));
    tag.wire_type = 10;
    check(Err(DecodeError::BadWireType(10)), &[], |r| r.skip_wire_value(&tag));
}

#[test]
fn lib_tag() {
    let tag = Tag::from_parts(5, 4);
    assert_eq!(tag.varint(), 0x2C);
    assert_eq!(tag.field_num(), 5);
    assert_eq!(tag.wire_type(), 4);

    let tag = Tag::from_parts(0, 0);
    assert_eq!(tag.varint(), 0);
    assert_eq!(tag.field_num(), 0);
    assert_eq!(tag.wire_type(), 0);
}

#[test]
fn tag() {
    let tag = Tag::from_parts(5, 4);
    assert_eq!(tag.varint(), 0x2C);
    assert_eq!(tag.field_num(), 5);
    assert_eq!(tag.wire_type(), 4);

    let tag = Tag::from_parts(0, 0);
    assert_eq!(tag.varint(), 0);
    assert_eq!(tag.field_num(), 0);
    assert_eq!(tag.wire_type(), 0);
}
