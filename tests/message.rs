use micropb::container::BoundedVec;
use micropb::decode::{DecodeError, PbReader, Sint32, Uint32};
use micropb::encode::{sizeof_len_record, sizeof_tag, PbEncoder, PbWrite};
use micropb::field::{decode_len_delimited, decode_message, FieldDecode, FieldEncode};
use micropb::wire::{Tag, WIRE_TYPE_LEN};

/// A message with no fields.
#[derive(Debug, Default, PartialEq)]
struct Empty;

impl FieldDecode for Empty {
    fn decode_field<'a>(&mut self, _tag: Tag, _reader: &mut PbReader<'a>) -> Result<bool, DecodeError> {
        Ok(false)
    }
}

/// A message whose field 1 is an `Empty` with explicit presence.
#[derive(Debug, Default)]
struct Nested {
    basic: Empty,
    has_basic: bool,
}

impl FieldDecode for Nested {
    fn decode_field<'a>(&mut self, tag: Tag, reader: &mut PbReader<'a>) -> Result<bool, DecodeError> {
        if tag.field_num() == 1 {
            decode_len_delimited(&mut self.basic, reader)?;
            self.has_basic = true;
            return Ok(true);
        }
        Ok(false)
    }
}

impl FieldEncode for Nested {
    fn encode_field<W: PbWrite>(&self, encoder: &mut PbEncoder<W>) -> Result<(), W::Error> {
        if self.has_basic {
            encoder.encode_tag(Tag::from_parts(1, WIRE_TYPE_LEN))?;
            encoder.encode_varint32(0)?;
        }
        Ok(())
    }

    fn compute_field_size(&self) -> usize {
        if self.has_basic {
            sizeof_tag(Tag::from_parts(1, WIRE_TYPE_LEN)) + sizeof_len_record(0)
        } else {
            0
        }
    }
}

/// A message whose `int32` field 1 is stored in 8 bits and whose `uint32`
/// field 3 is stored in 8 bits, both with explicit presence.
#[derive(Debug, Default)]
struct BasicTypes {
    int32_num: i8,
    uint32_num: u8,
    has_int32_num: bool,
    has_uint32_num: bool,
}

impl BasicTypes {
    fn int32_num(&self) -> Option<&i8> {
        if self.has_int32_num { Some(&self.int32_num) } else { None }
    }

    fn uint32_num(&self) -> Option<&u8> {
        if self.has_uint32_num { Some(&self.uint32_num) } else { None }
    }
}

impl FieldDecode for BasicTypes {
    fn decode_field<'a>(&mut self, tag: Tag, reader: &mut PbReader<'a>) -> Result<bool, DecodeError> {
        match tag.field_num() {
            1 => {
                self.int32_num = reader.decode_int32()? as i8;
                self.has_int32_num = true;
                Ok(true)
            }
            3 => {
                self.uint32_num = reader.decode_uint32()? as u8;
                self.has_uint32_num = true;
                Ok(true)
            }
            _ => Ok(false),
        }
    }
}

#[test]
fn decode_int_overflow() {
    let mut basic = BasicTypes::default();
    let bytes = [0x03, 0x08, 0x96, 0x01]; // field 1
    let mut reader = PbReader::new(&bytes);
    decode_len_delimited(&mut basic, &mut reader).unwrap();
    assert_eq!(basic.int32_num(), Some(&-106)); // 150 overflows i8

    let bytes = [0x03, 0x18, 0x96, 0x02]; // field 3
    let mut reader = PbReader::new(&bytes);
    decode_len_delimited(&mut basic, &mut reader).unwrap();
    assert_eq!(basic.uint32_num(), Some(&22)); // 278 overflows u8
}

#[test]
fn encode_imported() {
    let mut nested = Nested::default();
    nested.has_basic = true;
    assert_eq!(nested.compute_field_size(), 2);

    let mut encoder = PbEncoder::new(vec![]);
    nested.encode_field(&mut encoder).unwrap();
    assert_eq!(encoder.into_writer(), &[0x0A, 0]);
}

#[test]
fn decode_imported() {
    let mut nested = Nested::default();
    let bytes = [0x0A, 0];
    let mut reader = PbReader::new(&bytes);
    let len = reader.remaining();
    decode_message(&mut nested, &mut reader, len).unwrap();
    assert!(nested.has_basic);
    assert_eq!(nested.basic, Empty);
}

#[test]
fn unknown_fields_are_skipped() {
    // Field 1 alone.
    let mut alone = BasicTypes::default();
    let bytes = [0x08, 0x05];
    let mut reader = PbReader::new(&bytes);
    decode_message(&mut alone, &mut reader, 2).unwrap();

    // Unknown fields of each wire type, then field 1.
    let mut with_unknown = BasicTypes::default();
    let bytes = [
        0x10, 0x96, 0x01, // field 2, varint
        0x21, 1, 2, 3, 4, 5, 6, 7, 8, // field 4, i64
        0x2A, 0x02, 0xAA, 0xBB, // field 5, len
        0x35, 1, 2, 3, 4, // field 6, i32
        0x08, 0x05,
    ];
    let mut reader = PbReader::new(&bytes);
    decode_message(&mut with_unknown, &mut reader, bytes.len()).unwrap();
    assert_eq!(with_unknown.int32_num(), alone.int32_num());
    assert_eq!(with_unknown.int32_num(), Some(&5));
    assert_eq!(reader.remaining(), 0);
}

#[test]
fn message_budget() {
    // The budget ends inside the value of field 1.
    let mut basic = BasicTypes::default();
    let bytes = [0x08, 0x96, 0x01];
    let mut reader = PbReader::new(&bytes);
    assert_eq!(decode_message(&mut basic, &mut reader, 2), Err(DecodeError::UnexpectedEof));
    // The budget is longer than the input.
    let mut reader = PbReader::new(&bytes);
    assert_eq!(decode_message(&mut basic, &mut reader, 4), Err(DecodeError::UnexpectedEof));
    // Groups are refused.
    let bytes = [0x13];
    let mut reader = PbReader::new(&bytes);
    assert_eq!(decode_message(&mut basic, &mut reader, 1), Err(DecodeError::Deprecation));
}

#[test]
fn skip_bytes() {
    let bytes = [1, 2, 3];
    let mut reader = PbReader::new(&bytes);
    assert_eq!(reader.skip_bytes(2), Ok(()));
    assert_eq!(reader.remaining(), 1);
    assert_eq!(reader.skip_bytes(2), Err(DecodeError::UnexpectedEof));
}

#[test]
fn strings_and_bytes() {
    let bytes = [2, b'h', b'i'];
    let mut reader = PbReader::new(&bytes);
    let mut s = String::from(">");
    reader.decode_string(&mut s).unwrap();
    assert_eq!(s, ">hi");

    let bytes = [2, 0xC3, 0x28];
    let mut reader = PbReader::new(&bytes);
    let mut s = String::new();
    assert_eq!(reader.decode_string(&mut s), Err(DecodeError::Utf8));
    assert_eq!(s, "");

    let bytes = [3, 1, 2];
    let mut reader = PbReader::new(&bytes);
    let mut v: Vec<u8> = Vec::new();
    assert_eq!(reader.decode_bytes(&mut v), Err(DecodeError::UnexpectedEof));

    let bytes = [3, 1, 2, 3];
    let mut reader = PbReader::new(&bytes);
    let mut v: Vec<u8> = vec![9];
    reader.decode_bytes(&mut v).unwrap();
    assert_eq!(v, vec![9, 1, 2, 3]);

    let mut reader = PbReader::new(&bytes);
    let mut b: BoundedVec<u8> = BoundedVec::new(2);
    assert_eq!(reader.decode_bytes(&mut b), Err(DecodeError::Capacity));

    let bytes = [0x85, 0x00, 1, 2, 3, 4, 5];
    let mut reader = PbReader::new(&bytes);
    assert_eq!(reader.decode_len_slice(), Ok(&[1u8, 2, 3, 4, 5][..]));
    assert_eq!(reader.remaining(), 0);
}

#[test]
fn map_entries() {
    let bytes = [0x04, 0x08, 0x01, 0x10, 0x02];
    let mut reader = PbReader::new(&bytes);
    assert_eq!(reader.decode_map_elem(&Uint32, &Sint32), Ok(Some((1, 1))));
    assert_eq!(reader.remaining(), 0);

    // Missing value: the entry is dropped.
    let bytes = [0x02, 0x08, 0x01];
    let mut reader = PbReader::new(&bytes);
    assert_eq!(reader.decode_map_elem(&Uint32, &Uint32), Ok(None));
    assert_eq!(reader.remaining(), 0);

    // An unknown field inside the entry is skipped; a repeated key replaces
    // the earlier one.
    let bytes = [0x0B, 0x08, 0x01, 0x1D, 1, 2, 3, 4, 0x08, 0x05, 0x10, 0x02];
    let mut reader = PbReader::new(&bytes);
    assert_eq!(reader.decode_map_elem(&Uint32, &Uint32), Ok(Some((5, 2))));

    // A group inside the entry is refused.
    let bytes = [0x01, 0x1B];
    let mut reader = PbReader::new(&bytes);
    assert_eq!(reader.decode_map_elem(&Uint32, &Uint32), Err(DecodeError::Deprecation));
}

#[test]
fn packed_edge_cases() {
    // An empty payload succeeds even into a container with no room.
    let bytes = [0u8];
    let mut reader = PbReader::new(&bytes);
    let mut out: BoundedVec<u32> = BoundedVec::new(0);
    assert_eq!(reader.decode_packed(&mut out, &Uint32), Ok(()));
    assert_eq!(reader.remaining(), 0);

    // An element that fails to read reports its own error, not the full container.
    let bytes = [1u8, 0x80];
    let mut reader = PbReader::new(&bytes);
    let mut out: BoundedVec<u32> = BoundedVec::new(0);
    assert_eq!(reader.decode_packed(&mut out, &Uint32), Err(DecodeError::UnexpectedEof));
}

#[test]
fn error_positions() {
    // A short fixed-width read leaves the reader where it was.
    let bytes = [1u8, 2, 3];
    let mut reader = PbReader::new(&bytes);
    assert_eq!(reader.decode_fixed32(), Err(DecodeError::UnexpectedEof));
    assert_eq!(reader.remaining(), 3);

    // A rejected wire type consumes nothing.
    let mut reader = PbReader::new(&bytes);
    assert_eq!(reader.skip_wire_value(&Tag { field_num: 1, wire_type: 3 }), Err(DecodeError::Deprecation));
    assert_eq!(reader.remaining(), 3);
    assert_eq!(reader.skip_wire_value(&Tag { field_num: 1, wire_type: 6 }), Err(DecodeError::BadWireType(6)));
    assert_eq!(reader.remaining(), 3);

    // A varint that is too long leaves the reader just past its limit.
    let bytes = [0x80u8, 0x80, 0x80, 0x80, 0x80, 0x80, 7];
    let mut reader = PbReader::new(&bytes);
    assert_eq!(reader.decode_uint32(), Err(DecodeError::VarIntLimit(5)));
    assert_eq!(reader.remaining(), 2);
    let mut r1 = PbReader::new(&bytes);
    let mut r2 = PbReader::new(&bytes);
    assert!(r1.decode_int32().is_ok());
    assert!(r2.decode_uint64().is_ok());
    assert_eq!(r1.remaining(), r2.remaining());

    // A record whose payload is short leaves the reader just past its length.
    let bytes = [5u8, 1, 2];
    let mut reader = PbReader::new(&bytes);
    assert_eq!(reader.decode_len_slice(), Err(DecodeError::UnexpectedEof));
    assert_eq!(reader.remaining(), 2);
}

#[test]
fn empty_message_and_bad_first_tag() {
    let mut basic = BasicTypes::default();
    let bytes = [0x00u8];
    let mut reader = PbReader::new(&bytes);
    assert_eq!(decode_len_delimited(&mut basic, &mut reader), Ok(()));
    let bytes = [0x01u8, 0x80];
    let mut reader = PbReader::new(&bytes);
    assert_eq!(decode_len_delimited(&mut basic, &mut reader), Err(DecodeError::UnexpectedEof));
}
