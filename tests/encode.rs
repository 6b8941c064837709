use micropb::container::{BoundedVec, PbVec};
use micropb::decode::{
    Bool, DecodeError, Fixed32, Fixed64, Int32, Int64, PbReader, Sfixed32, Sfixed64, Sint32, Sint64,
    Uint32, Uint64,
};
use micropb::encode::{
    implicit_field_size, packed_size, sizeof_int32, sizeof_len_record, sizeof_sint32, sizeof_sint64,
    sizeof_tag, sizeof_varint32, sizeof_varint64, zigzag32, zigzag64, PbEncoder, SizeCounter,
    WireEncode,
};
use micropb::presence::{Hazzer, ImplicitPresence};
use micropb::wire::{Tag, WIRE_TYPE_LEN, WIRE_TYPE_VARINT};

fn encoded<F>(f: F) -> Vec<u8>
where
    F: FnOnce(&mut PbEncoder<Vec<u8>>),
{
    let mut enc = PbEncoder::new(Vec::new());
    f(&mut enc);
    enc.into_writer()
}

#[test]
fn encode_varints() {
    assert_eq!(encoded(|e| e.encode_varint32(0).unwrap()), vec![0]);
    assert_eq!(encoded(|e| e.encode_varint32(150).unwrap()), vec![0x96, 0x01]);
    assert_eq!(
        encoded(|e| e.encode_varint32(u32::MAX).unwrap()),
        vec![0xFF, 0xFF, 0xFF, 0xFF, 0x0F]
    );
    assert_eq!(
        encoded(|e| e.encode_varint64(0x8000_0000_0000_0001).unwrap()),
        vec![0x81, 0x80, 0x80, 0x80, 0x80, 0x80, 0x80, 0x80, 0x80, 0x01]
    );
    assert_eq!(
        encoded(|e| e.encode_int32(-2).unwrap()),
        vec![0xFE, 0xFF, 0xFF, 0xFF, 0xFF, 0xFF, 0xFF, 0xFF, 0xFF, 0x01]
    );
    assert_eq!(encoded(|e| e.encode_int64(5).unwrap()), vec![5]);
    assert_eq!(encoded(|e| e.encode_bool(true).unwrap()), vec![1]);
    assert_eq!(encoded(|e| e.encode_bool(false).unwrap()), vec![0]);
}

#[test]
fn encode_zigzag() {
    assert_eq!(zigzag32(0), 0);
    assert_eq!(zigzag32(-1), 1);
    assert_eq!(zigzag32(1), 2);
    assert_eq!(zigzag32(-2), 3);
    assert_eq!(zigzag32(i32::MAX), 0xFFFF_FFFE);
    assert_eq!(zigzag32(i32::MIN), 0xFFFF_FFFF);
    assert_eq!(zigzag64(i64::MIN), u64::MAX);
    assert_eq!(encoded(|e| e.encode_sint32(-2).unwrap()), vec![0x03]);
    assert_eq!(
        encoded(|e| e.encode_sint32(-0x8000_0000).unwrap()),
        vec![0xFF, 0xFF, 0xFF, 0xFF, 0x0F]
    );
    assert_eq!(encoded(|e| e.encode_sint64(-1).unwrap()), vec![0x01]);
}

#[test]
fn encode_fixed() {
    assert_eq!(
        encoded(|e| e.encode_fixed32(0xF498_3212).unwrap()),
        vec![0x12, 0x32, 0x98, 0xF4]
    );
    assert_eq!(
        encoded(|e| e.encode_fixed64(0x9950_AA3B_F498_3212).unwrap()),
        vec![0x12, 0x32, 0x98, 0xF4, 0x3B, 0xAA, 0x50, 0x99]
    );
    assert_eq!(
        encoded(|e| e.encode_sfixed32(-0x0B67_CDEE).unwrap()),
        vec![0x12, 0x32, 0x98, 0xF4]
    );
    assert_eq!(encoded(|e| e.encode_sfixed64(-1).unwrap()), vec![0xFF; 8]);
}

#[test]
fn encode_tag_and_records() {
    assert_eq!(encoded(|e| e.encode_tag(Tag::from_parts(5, 4)).unwrap()), vec![0x2C]);
    assert_eq!(encoded(|e| e.encode_tag(Tag::from_parts(59, 7)).unwrap()), vec![0xDF, 0x03]);
    assert_eq!(encoded(|e| e.encode_string("hi").unwrap()), vec![2, b'h', b'i']);
    assert_eq!(encoded(|e| e.encode_bytes(&[7, 8, 9]).unwrap()), vec![3, 7, 8, 9]);
    assert_eq!(encoded(|e| e.encode_bytes(&[]).unwrap()), vec![0]);
}

#[test]
fn string_field_presence() {
    // Implicit presence: the empty string is not written at all.
    assert_eq!(encoded(|e| e.encode_implicit_string(1, "").unwrap()), Vec::<u8>::new());
    // Explicit presence set: tag and an empty record.
    assert_eq!(
        encoded(|e| {
            e.encode_tag(Tag::from_parts(1, WIRE_TYPE_LEN)).unwrap();
            e.encode_string("").unwrap();
        }),
        vec![0x0A, 0x00]
    );
    assert_eq!(encoded(|e| e.encode_implicit_string(1, "a").unwrap()), vec![0x0A, 1, b'a']);
}

#[test]
fn implicit_fields_at_default() {
    let bytes = encoded(|e| {
        e.encode_implicit_field(&Uint32, 1, 0).unwrap();
        e.encode_implicit_field(&Sint64, 2, 0).unwrap();
        e.encode_implicit_field(&Bool, 3, false).unwrap();
        e.encode_implicit_field(&Fixed32, 4, 0).unwrap();
    });
    assert!(bytes.is_empty());
    assert_eq!(implicit_field_size(&Uint32, 1, 0), 0);
    let bytes = encoded(|e| e.encode_implicit_field(&Uint32, 1, 150).unwrap());
    assert_eq!(bytes, vec![0x08, 0x96, 0x01]);
    assert_eq!(implicit_field_size(&Uint32, 1, 150), 3);
}

#[test]
fn sizes_match_encoding() {
    for v in [0u64, 1, 127, 128, 150, 16383, 16384, u32::MAX as u64, u64::MAX] {
        assert_eq!(sizeof_varint64(v), encoded(|e| e.encode_varint64(v).unwrap()).len());
    }
    for v in [0u32, 127, 128, u32::MAX] {
        assert_eq!(sizeof_varint32(v), encoded(|e| e.encode_varint32(v).unwrap()).len());
    }
    for v in [0i32, -1, 1, i32::MIN, i32::MAX] {
        assert_eq!(sizeof_int32(v), encoded(|e| e.encode_int32(v).unwrap()).len());
        assert_eq!(sizeof_sint32(v), encoded(|e| e.encode_sint32(v).unwrap()).len());
    }
    assert_eq!(sizeof_int32(-1), 10);
    assert_eq!(sizeof_sint32(-1), 1);
    assert_eq!(sizeof_sint64(i64::MIN), 10);
    assert_eq!(sizeof_tag(Tag::from_parts(16, WIRE_TYPE_VARINT)), 2);
    assert_eq!(sizeof_len_record(3), 4);
    assert_eq!(sizeof_len_record(200), 202);
    assert_eq!(Uint64.value_size(300), 2);
    assert_eq!(Fixed64.value_size(1), 8);
}

#[test]
fn packed_round_trip() {
    let vals = [1u32, 150, 0, u32::MAX];
    let bytes = encoded(|e| e.encode_packed(&Uint32, &vals).unwrap());
    assert_eq!(bytes, vec![9, 1, 0x96, 0x01, 0, 0xFF, 0xFF, 0xFF, 0xFF, 0x0F]);
    assert_eq!(packed_size(&Uint32, &vals), 9);

    let mut reader = PbReader::new(&bytes);
    let mut out: Vec<u32> = Vec::new();
    reader.decode_packed(&mut out, &Uint32).unwrap();
    assert_eq!(out, vals.to_vec());
    assert_eq!(reader.remaining(), 0);

    let svals = [-3i32, 0, 7];
    let bytes = encoded(|e| e.encode_packed(&Sfixed32, &svals).unwrap());
    assert_eq!(bytes.len(), 13);
    let mut reader = PbReader::new(&bytes);
    let mut out: Vec<i32> = Vec::new();
    reader.decode_packed(&mut out, &Sfixed32).unwrap();
    assert_eq!(out, svals.to_vec());
}

#[test]
fn packed_errors() {
    // The payload ends inside its second element.
    let bytes = [2u8, 0x05, 0x80];
    let mut reader = PbReader::new(&bytes);
    let mut out: Vec<u32> = Vec::new();
    assert_eq!(reader.decode_packed(&mut out, &Uint32), Err(DecodeError::UnexpectedEof));

    // A bounded container refuses the third element.
    let bytes = [3u8, 1, 2, 3];
    let mut reader = PbReader::new(&bytes);
    let mut out: BoundedVec<u32> = BoundedVec::new(2);
    assert_eq!(reader.decode_packed(&mut out, &Uint32), Err(DecodeError::Capacity));
    assert_eq!(out.as_slice(), &[1, 2]);
}

#[test]
fn scalar_round_trips() {
    for v in [0u32, 1, 150, u32::MAX] {
        let b = encoded(|e| Uint32.encode_value(e, v).unwrap());
        assert_eq!(PbReader::new(&b).decode_uint32(), Ok(v));
        let b = encoded(|e| Fixed32.encode_value(e, v).unwrap());
        assert_eq!(PbReader::new(&b).decode_fixed32(), Ok(v));
    }
    for v in [0u64, 1, u64::MAX, 0x8000_0000_0000_0000] {
        let b = encoded(|e| Uint64.encode_value(e, v).unwrap());
        assert_eq!(PbReader::new(&b).decode_uint64(), Ok(v));
        let b = encoded(|e| Fixed64.encode_value(e, v).unwrap());
        assert_eq!(PbReader::new(&b).decode_fixed64(), Ok(v));
    }
    for v in [0i32, -1, 1, -2, i32::MIN, i32::MAX] {
        let b = encoded(|e| Int32.encode_value(e, v).unwrap());
        assert_eq!(PbReader::new(&b).decode_int32(), Ok(v));
        let b = encoded(|e| Sint32.encode_value(e, v).unwrap());
        assert_eq!(PbReader::new(&b).decode_sint32(), Ok(v));
        let b = encoded(|e| Sfixed32.encode_value(e, v).unwrap());
        assert_eq!(PbReader::new(&b).decode_sfixed32(), Ok(v));
    }
    for v in [0i64, -1, 1, i64::MIN, i64::MAX] {
        let b = encoded(|e| Int64.encode_value(e, v).unwrap());
        assert_eq!(PbReader::new(&b).decode_int64(), Ok(v));
        let b = encoded(|e| Sint64.encode_value(e, v).unwrap());
        assert_eq!(PbReader::new(&b).decode_sint64(), Ok(v));
        let b = encoded(|e| Sfixed64.encode_value(e, v).unwrap());
        assert_eq!(PbReader::new(&b).decode_sfixed64(), Ok(v));
    }
    for v in [true, false] {
        let b = encoded(|e| Bool.encode_value(e, v).unwrap());
        assert_eq!(PbReader::new(&b).decode_bool(), Ok(v));
    }
    let t = Tag::from_parts(1234, 5);
    let b = encoded(|e| e.encode_tag(t).unwrap());
    assert_eq!(PbReader::new(&b).decode_tag(), Ok(t));
}

#[test]
fn tag_from_parts_keeps_low_bits() {
    let tag = Tag::from_parts(0x2000_0001, 2);
    assert_eq!(tag.field_num(), 1);
    assert_eq!(tag.wire_type(), 2);
    assert_eq!(tag.varint(), 0x0A);
    let tag = Tag::from_parts(0x1FFF_FFFF, 7);
    assert_eq!(tag.field_num(), 0x1FFF_FFFF);
    assert_eq!(tag.varint(), u32::MAX);
}

#[test]
fn bounded_vec_capacity() {
    let mut v: BoundedVec<u8> = BoundedVec::new(3);
    assert_eq!(v.capacity(), 3);
    assert!(v.pb_write_slice(&[1, 2]).is_ok());
    assert!(v.pb_write_slice(&[3, 4]).is_err());
    assert_eq!(v.as_slice(), &[1, 2]);
    assert!(v.pb_push(3).is_ok());
    assert!(v.pb_push(4).is_err());
    assert_eq!(v.pb_len(), 3);
    v.pb_clear();
    assert_eq!(v.pb_len(), 0);
}

#[test]
fn explicit_fields() {
    // A present field is written even when it holds the default.
    assert_eq!(encoded(|e| e.encode_explicit_field(&Uint32, 1, Some(0)).unwrap()), vec![0x08, 0x00]);
    assert_eq!(encoded(|e| e.encode_explicit_field(&Bool, 2, Some(false)).unwrap()), vec![0x10, 0x00]);
    assert_eq!(
        encoded(|e| e.encode_explicit_field(&Fixed32, 3, Some(1)).unwrap()),
        vec![0x1D, 1, 0, 0, 0]
    );
    assert!(encoded(|e| e.encode_explicit_field(&Uint32, 1, None).unwrap()).is_empty());
}

#[test]
fn hazzer_bits() {
    let mut h = Hazzer::new();
    assert!(!h.is_set(0));
    assert!(!h.is_set(63));
    h.set(3);
    h.set(63);
    assert!(h.is_set(3));
    assert!(h.is_set(63));
    assert!(!h.is_set(2));
    let v = 7u32;
    assert_eq!(h.get(3, &v), Some(&7));
    assert_eq!(h.get(4, &v), None);
    h.clear(3);
    assert!(!h.is_set(3));
    assert!(h.is_set(63));
}

#[test]
fn implicit_presence() {
    assert!(!0u32.pb_is_present());
    assert!(5u32.pb_is_present());
    assert!(!0i64.pb_is_present());
    assert!((-1i32).pb_is_present());
    assert!(!false.pb_is_present());
    assert!(true.pb_is_present());
    assert!(!"".pb_is_present());
    assert!("x".pb_is_present());
    let empty: &[u8] = &[];
    assert!(!empty.pb_is_present());
    assert!([1u8][..].pb_is_present());
    assert!((&7u64).pb_is_present());
}

fn write_sample<W: micropb::encode::PbWrite>(e: &mut PbEncoder<W>) -> Result<(), W::Error> {
    e.encode_implicit_field(&Uint32, 1, 150)?;
    e.encode_implicit_field(&Sint32, 2, 0)?;
    e.encode_explicit_field(&Int64, 3, Some(-1))?;
    e.encode_implicit_string(4, "text")?;
    e.encode_packed(&Fixed64, &[1, 2])?;
    Ok(())
}

#[test]
fn counting_writer_matches_bytes() {
    let mut bytes = PbEncoder::new(Vec::new());
    write_sample(&mut bytes).unwrap();
    let bytes = bytes.into_writer();

    let mut counter = PbEncoder::new(SizeCounter::new());
    write_sample(&mut counter).unwrap();
    assert_eq!(counter.as_writer().size(), bytes.len());
    assert_eq!(bytes.len(), 3 + 11 + 6 + 17);
}
