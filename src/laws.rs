//! Laws that relate the encoder, the decoder and the tag operations.
use vstd::prelude::*;
use vstd::utf8::{decode_utf8, encode_utf8, encode_utf8_decode_utf8, encode_utf8_valid_utf8, valid_utf8};

use crate::decode::{
    entry_fields, len_slice_at, packed_at, packed_into, skip_at, tag_at, DecodeError, Outcome,
    WireDecode,
};
use crate::encode::{
    explicit_field_bytes, implicit_field_bytes, len_delimited, lemma_uint32_round_trip, packed_bytes, tag_bytes, WireEncode,
};
use crate::container::fits;
use crate::presence::ImplicitPresence;
use crate::varint::{varint_bytes, zigzag_decode, zigzag_encode};
use crate::wire::{field_num_bound, Tag};

verus! {

/// A tag built from a field number below `2^29` and a wire type up to 7 gives
/// both back, and so does its packed form `field_num * 8 + wire_type`.
pub proof fn lemma_tag_parts(field_num: u32, wire_type: u8)
    requires
        field_num < field_num_bound(),
        wire_type <= 7,
    ensures
        field_num as int % field_num_bound() == field_num,
        (Tag { field_num, wire_type }).packed() / 8 == field_num,
        (Tag { field_num, wire_type }).packed() % 8 == wire_type,
{
}

/// ZigZag decoding undoes ZigZag encoding, for every integer.
pub proof fn lemma_zigzag_round_trip(n: int)
    ensures
        zigzag_decode(zigzag_encode(n)) == n,
        zigzag_encode(n) >= 0,
{
}

/// A tag that was written reads back as the same tag, taking exactly its bytes.
pub proof fn lemma_tag_round_trip(t: Tag, rest: Seq<u8>)
    requires
        t.wf(),
    ensures
        tag_at(tag_bytes(t) + rest) == Ok::<(Tag, nat), DecodeError>((t, tag_bytes(t).len())),
{
    let u = t.packed() as u32;
    lemma_uint32_round_trip(u, rest);
    assert(u / 8 == t.field_num && u % 8 == t.wire_type);
}

/// A length-delimited record reads back as its payload, taking exactly its
/// bytes.
pub proof fn lemma_len_delimited_round_trip(b: Seq<u8>, rest: Seq<u8>)
    requires
        b.len() <= u32::MAX,
    ensures
        len_slice_at(len_delimited(b) + rest) == Ok::<(Seq<u8>, nat), DecodeError>(
            (b, len_delimited(b).len()),
        ),
{
    let s = len_delimited(b) + rest;
    let n = varint_bytes(b.len()).len();
    lemma_uint32_round_trip(b.len() as u32, b + rest);
    assert(s =~= varint_bytes(b.len()) + (b + rest));
    assert(s.skip(n as int) =~= b + rest);
    assert((b + rest).take(b.len() as int) =~= b);
}

/// A string that was written as a length-delimited record reads back as
/// valid UTF-8 that decodes to the same characters.
pub proof fn lemma_string_round_trip(chars: Seq<char>, rest: Seq<u8>)
    requires
        encode_utf8(chars).len() <= u32::MAX,
    ensures
        len_slice_at(len_delimited(encode_utf8(chars)) + rest) matches Ok((b, n)) && valid_utf8(b)
            && decode_utf8(b) == chars && n == len_delimited(encode_utf8(chars)).len(),
{
    lemma_len_delimited_round_trip(encode_utf8(chars), rest);
    encode_utf8_valid_utf8(chars);
    encode_utf8_decode_utf8(chars);
}

/// A packed payload that was written reads back as the same values.
pub proof fn lemma_packed_round_trip<K: WireEncode>(vals: Seq<K::Value>)
    ensures
        packed_at::<K>(packed_bytes::<K>(vals)) == Ok::<Seq<K::Value>, DecodeError>(vals),
    decreases vals.len(),
{
    if vals.len() > 0 {
        let tail = vals.drop_first();
        let b = packed_bytes::<K>(vals);
        K::lemma_round_trip(vals[0], packed_bytes::<K>(tail));
        let n = K::value_bytes(vals[0]).len();
        K::lemma_value_len(b);
        assert(b.skip(n as int) =~= packed_bytes::<K>(tail));
        lemma_packed_round_trip::<K>(tail);
        assert(b == K::value_bytes(vals[0]) + packed_bytes::<K>(tail));
        assert(K::value_at(b) == Ok::<(K::Value, nat), DecodeError>((vals[0], n)));
        assert(b.len() > 0);
        assert(seq![vals[0]] + tail =~= vals);
        assert(packed_at::<K>(b) == Ok::<Seq<K::Value>, DecodeError>(seq![vals[0]] + tail));
    } else {
        assert(packed_bytes::<K>(vals) == Seq::<u8>::empty());
        assert(vals =~= Seq::<K::Value>::empty());
    }
}

/// A packed payload whose elements all read, going into a container with
/// room for all of them, appends exactly those elements and succeeds.
pub proof fn lemma_packed_into_room<D: WireDecode>(s: Seq<u8>, cap: Option<nat>, len: nat)
    requires
        packed_at::<D>(s) is Ok,
        fits(cap, len + packed_at::<D>(s)->Ok_0.len()),
    ensures
        packed_into::<D>(s, cap, len) == (packed_at::<D>(s)->Ok_0, None::<DecodeError>),
    decreases s.len(),
{
    if s.len() > 0 {
        let (v, n) = D::value_at(s)->Ok_0;
        let es = packed_at::<D>(s)->Ok_0;
        let t = packed_at::<D>(s.skip(n as int))->Ok_0;
        assert(es == seq![v] + t);
        lemma_packed_into_room::<D>(s.skip(n as int), cap, len + 1);
    } else {
        assert(packed_at::<D>(s)->Ok_0 =~= Seq::<D::Value>::empty());
    }
}

/// Packed values that were written read back, into a container with room for
/// them, as the same values with no error.
pub proof fn lemma_packed_round_trip_into<K: WireEncode>(vals: Seq<K::Value>, cap: Option<nat>, len: nat)
    requires
        fits(cap, len + vals.len()),
    ensures
        packed_into::<K>(packed_bytes::<K>(vals), cap, len) == (vals, None::<DecodeError>),
{
    lemma_packed_round_trip::<K>(vals);
    lemma_packed_into_room::<K>(packed_bytes::<K>(vals), cap, len);
}

/// Reading a map entry passes over a field it does not know: a field that
/// is neither key nor value, whose value a skip by its wire type passes over
/// exactly, leaves the outcome as if it were not there.
pub proof fn lemma_unknown_field_skipped<K: WireDecode, V: WireDecode>(
    t: Tag,
    value: Seq<u8>,
    rest: Seq<u8>,
    key: Option<K::Value>,
    val: Option<V::Value>,
)
    requires
        t.wf(),
        t.field_num != 1,
        t.field_num != 2,
        skip_at(value + rest, t.wire_type) == Ok::<((), nat), DecodeError>(((), value.len())),
    ensures
        entry_fields::<K, V>(tag_bytes(t) + value + rest, key, val) == entry_fields::<K, V>(rest, key, val),
{
    let s = tag_bytes(t) + value + rest;
    let n = tag_bytes(t).len();
    lemma_tag_round_trip(t, value + rest);
    assert(s =~= tag_bytes(t) + (value + rest));
    assert(s.skip(n as int) =~= value + rest);
    assert(s.skip((n + value.len()) as int) =~= rest);
}

/// The bytes of a run of fields, each a tag followed by its value's bytes.
pub open spec fn fields_bytes(fields: Seq<(Tag, Seq<u8>)>) -> Seq<u8>
    decreases fields.len(),
{
    if fields.len() == 0 {
        Seq::empty()
    } else {
        tag_bytes(fields[0].0) + fields[0].1 + fields_bytes(fields.drop_first())
    }
}

/// Any number of unknown fields, of any wire types, in front of the rest of
/// a map entry leave the outcome as if only the rest were there.
pub proof fn lemma_unknown_fields_skipped<K: WireDecode, V: WireDecode>(
    fields: Seq<(Tag, Seq<u8>)>,
    rest: Seq<u8>,
    key: Option<K::Value>,
    val: Option<V::Value>,
)
    requires
        forall|i: int|
            0 <= i < fields.len() ==> (#[trigger] fields[i]).0.wf() && fields[i].0.field_num != 1
                && fields[i].0.field_num != 2,
        forall|i: int, more: Seq<u8>|
            0 <= i < fields.len() ==> #[trigger] skip_at(fields[i].1 + more, fields[i].0.wire_type)
                == Ok::<((), nat), DecodeError>(((), fields[i].1.len())),
    ensures
        entry_fields::<K, V>(fields_bytes(fields) + rest, key, val) == entry_fields::<K, V>(rest, key, val),
    decreases fields.len(),
{
    if fields.len() > 0 {
        let f = fields[0];
        let tail = fields.drop_first();
        let more = fields_bytes(tail) + rest;
        assert(skip_at(f.1 + more, f.0.wire_type) == Ok::<((), nat), DecodeError>(((), f.1.len())));
        lemma_unknown_field_skipped::<K, V>(f.0, f.1, more, key, val);
        assert(fields_bytes(fields) + rest =~= tag_bytes(f.0) + f.1 + more);
        assert forall|i: int, m: Seq<u8>| 0 <= i < tail.len() implies #[trigger] skip_at(tail[i].1 + m, tail[i].0.wire_type)
            == Ok::<((), nat), DecodeError>(((), tail[i].1.len())) by {
            assert(tail[i] == fields[i + 1]);
        }
        assert forall|i: int| 0 <= i < tail.len() implies (#[trigger] tail[i]).0.wf() && tail[i].0.field_num != 1
            && tail[i].0.field_num != 2 by {
            assert(tail[i] == fields[i + 1]);
        }
        lemma_unknown_fields_skipped::<K, V>(tail, rest, key, val);
    } else {
        assert(fields_bytes(fields) + rest =~= rest);
    }
}

/// Reading `count` fields by their tags, passing over each value with a skip
/// by its wire type (`decode_tag`, then `skip_wire_value`): how many bytes that
/// takes, or the first error.
pub open spec fn skip_fields_at(s: Seq<u8>, count: nat) -> Outcome<()>
    decreases count,
{
    if count == 0 {
        Ok(((), 0))
    } else {
        match tag_at(s) {
            Ok((t, n)) => match skip_at(s.skip(n as int), t.wire_type) {
                Ok((u, m)) => match skip_fields_at(s.skip((n + m) as int), (count - 1) as nat) {
                    Ok((u2, k)) => Ok(((), n + m + k)),
                    Err(e) => Err(e),
                },
                Err(e) => Err(e),
            },
            Err(e) => Err(e),
        }
    }
}

/// Passing over any number of fields of any wire types, tag by tag, takes
/// exactly their bytes: a reader is then where a reader over the rest alone
/// starts, so what it reads next is the same.
pub proof fn lemma_skip_fields(fields: Seq<(Tag, Seq<u8>)>, rest: Seq<u8>)
    requires
        forall|i: int| 0 <= i < fields.len() ==> (#[trigger] fields[i]).0.wf(),
        forall|i: int, more: Seq<u8>|
            0 <= i < fields.len() ==> #[trigger] skip_at(fields[i].1 + more, fields[i].0.wire_type)
                == Ok::<((), nat), DecodeError>(((), fields[i].1.len())),
    ensures
        skip_fields_at(fields_bytes(fields) + rest, fields.len()) == Ok::<((), nat), DecodeError>(
            ((), fields_bytes(fields).len()),
        ),
        (fields_bytes(fields) + rest).skip(fields_bytes(fields).len() as int) == rest,
    decreases fields.len(),
{
    let all = fields_bytes(fields) + rest;
    if fields.len() > 0 {
        let f = fields[0];
        let tail = fields.drop_first();
        let more = fields_bytes(tail) + rest;
        assert(all =~= tag_bytes(f.0) + (f.1 + more));
        lemma_tag_round_trip(f.0, f.1 + more);
        let n = tag_bytes(f.0).len();
        assert(all.skip(n as int) =~= f.1 + more);
        assert(skip_at(f.1 + more, f.0.wire_type) == Ok::<((), nat), DecodeError>(((), f.1.len())));
        assert(all.skip((n + f.1.len()) as int) =~= more);
        assert forall|i: int, m: Seq<u8>| 0 <= i < tail.len() implies #[trigger] skip_at(tail[i].1 + m, tail[i].0.wire_type)
            == Ok::<((), nat), DecodeError>(((), tail[i].1.len())) by {
            assert(tail[i] == fields[i + 1]);
        }
        assert forall|i: int| 0 <= i < tail.len() implies (#[trigger] tail[i]).0.wf() by {
            assert(tail[i] == fields[i + 1]);
        }
        lemma_skip_fields(tail, rest);
        assert(fields_bytes(fields).len() == n + f.1.len() + fields_bytes(tail).len());
    }
    assert(all.skip(fields_bytes(fields).len() as int) =~= rest);
}

/// The same, for a field written by one of the library's encoders.
pub proof fn lemma_unknown_encoded_field_skipped<E: WireEncode, K: WireDecode, V: WireDecode>(
    t: Tag,
    v: E::Value,
    rest: Seq<u8>,
    key: Option<K::Value>,
    val: Option<V::Value>,
)
    requires
        t.wf(),
        t.field_num != 1,
        t.field_num != 2,
        t.wire_type == E::wire_type_spec(),
    ensures
        entry_fields::<K, V>(tag_bytes(t) + E::value_bytes(v) + rest, key, val) == entry_fields::<
            K,
            V,
        >(rest, key, val),
{
    E::lemma_skip(v, rest);
    lemma_unknown_field_skipped::<K, V>(t, E::value_bytes(v), rest, key, val);
}

/// A field that was written reads back as its tag, then its value, each
/// taking exactly its own bytes.
pub proof fn lemma_field_round_trip<K: WireEncode>(field_num: u32, v: K::Value, rest: Seq<u8>)
    requires
        field_num < field_num_bound(),
    ensures
        ({
            let t = Tag { field_num, wire_type: K::wire_type_spec() };
            let b = explicit_field_bytes::<K>(field_num, Some(v)) + rest;
            &&& tag_at(b) == Ok::<(Tag, nat), DecodeError>((t, tag_bytes(t).len()))
            &&& K::value_at(b.skip(tag_bytes(t).len() as int)) == Ok::<(K::Value, nat), DecodeError>(
                (v, K::value_bytes(v).len()),
            )
        }),
{
    let t = Tag { field_num, wire_type: K::wire_type_spec() };
    let b = explicit_field_bytes::<K>(field_num, Some(v)) + rest;
    K::lemma_wire_type_bound();
    lemma_tag_round_trip(t, K::value_bytes(v) + rest);
    assert(b =~= tag_bytes(t) + (K::value_bytes(v) + rest));
    assert(b.skip(tag_bytes(t).len() as int) =~= K::value_bytes(v) + rest);
    K::lemma_round_trip(v, rest);
}

/// A field with implicit presence whose value is its type's default writes
/// nothing at all.
pub proof fn lemma_default_suppressed<K: WireEncode>(field_num: u32, v: K::Value)
    where K::Value: ImplicitPresence,
    requires
        v.pb_is_default(),
    ensures
        implicit_field_bytes::<K>(field_num, v) == Seq::<u8>::empty(),
{
}

} // verus!
