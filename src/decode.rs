//! Reading the wire format from a borrowed byte slice.
use vstd::arithmetic::div_mod::lemma_small_mod;
use vstd::arithmetic::power2::{lemma2_to64, lemma2_to64_rest, lemma_pow2_strictly_increases};
use vstd::prelude::*;
use vstd::string::StringSliceAdditionalSpecFns;
use vstd::utf8::{decode_utf8, encode_utf8, encode_utf8_decode_utf8, valid_utf8};

use crate::container::{fits, PbString, PbVec};
use crate::varint::{
    lemma_or_shifted, lemma_varint_len_bounds, lemma_varint_value_bound, lemma_varint_value_push,
    pow32, pow64, varint_at, varint_len, varint_len_from, varint_value, zigzag_decode,
};
use crate::wire::{Tag, WIRE_TYPE_I32, WIRE_TYPE_I64, WIRE_TYPE_LEN, WIRE_TYPE_VARINT};

verus! {

/// Why a read from the wire failed.
#[derive(Debug, Clone, Copy, PartialEq, Eq, Structural)]
pub enum DecodeError {
    /// The continuation bit was still set after this many bytes.
    VarIntLimit(u8),
    /// The input ended inside a value.
    UnexpectedEof,
    /// Wire type 3 or 4: groups are not supported.
    Deprecation,
    /// A wire type that proto3 does not define.
    BadWireType(u8),
    /// A string field that is not UTF-8.
    Utf8,
    /// A container refused another element.
    Capacity,
}

/// Each operation of the reader is described by what it makes of the bytes
/// still to be read: a value and how many bytes it took, or an error.
pub type Outcome<T> = Result<(T, nat), DecodeError>;

pub open spec fn map_outcome<A, B>(o: Outcome<A>, f: spec_fn(A) -> B) -> Outcome<B> {
    match o {
        Ok((v, n)) => Ok((f(v), n)),
        Err(e) => Err(e),
    }
}

/// A varint read as `uint32`: up to five bytes, low 32 bits kept.
pub open spec fn uint32_at(s: Seq<u8>) -> Outcome<u32> {
    map_outcome(varint_at(s, 5), |v: nat| (v % pow32()) as u32)
}

/// A varint read as `uint64`: up to ten bytes, low 64 bits kept.
pub open spec fn uint64_at(s: Seq<u8>) -> Outcome<u64> {
    map_outcome(varint_at(s, 10), |v: nat| (v % pow64()) as u64)
}

/// `int64`: the 64-bit varint taken as two's complement.
pub open spec fn int64_at(s: Seq<u8>) -> Outcome<i64> {
    map_outcome(uint64_at(s), |u: u64| u as i64)
}

/// `int32`: read as a 64-bit varint (a negative value is sign-extended to ten
/// bytes on the wire), then narrowed by truncation.
pub open spec fn int32_at(s: Seq<u8>) -> Outcome<i32> {
    map_outcome(uint64_at(s), |u: u64| u as i64 as i32)
}

/// `sint32`: a 32-bit varint in ZigZag form.
pub open spec fn sint32_at(s: Seq<u8>) -> Outcome<i32> {
    map_outcome(uint32_at(s), |u: u32| zigzag_decode(u as int) as i32)
}

/// `sint64`: a 64-bit varint in ZigZag form.
pub open spec fn sint64_at(s: Seq<u8>) -> Outcome<i64> {
    map_outcome(uint64_at(s), |u: u64| zigzag_decode(u as int) as i64)
}

/// `bool` takes exactly one byte; a set continuation bit is refused.
pub open spec fn bool_at(s: Seq<u8>) -> Outcome<bool> {
    if s.len() == 0 {
        Err(DecodeError::UnexpectedEof)
    } else if s[0] >= 0x80 {
        Err(DecodeError::VarIntLimit(1))
    } else {
        Ok((s[0] != 0, 1))
    }
}

/// Four bytes read as a little-endian number.
pub open spec fn le32(s: Seq<u8>) -> nat {
    s[0] as nat + s[1] as nat * 0x100 + s[2] as nat * 0x1_0000 + s[3] as nat * 0x100_0000
}

/// Eight bytes read as a little-endian number.
pub open spec fn le64(s: Seq<u8>) -> nat {
    le32(s) + le32(s.skip(4)) * 0x1_0000_0000
}

/// `fixed32`: four bytes, little-endian.
pub open spec fn fixed32_at(s: Seq<u8>) -> Outcome<u32> {
    if s.len() < 4 {
        Err(DecodeError::UnexpectedEof)
    } else {
        Ok((le32(s) as u32, 4))
    }
}

/// `fixed64`: eight bytes, little-endian.
pub open spec fn fixed64_at(s: Seq<u8>) -> Outcome<u64> {
    if s.len() < 8 {
        Err(DecodeError::UnexpectedEof)
    } else {
        Ok((le64(s) as u64, 8))
    }
}

/// `sfixed32`: a `fixed32` taken as two's complement.
pub open spec fn sfixed32_at(s: Seq<u8>) -> Outcome<i32> {
    map_outcome(fixed32_at(s), |u: u32| u as i32)
}

/// `sfixed64`: a `fixed64` taken as two's complement.
pub open spec fn sfixed64_at(s: Seq<u8>) -> Outcome<i64> {
    map_outcome(fixed64_at(s), |u: u64| u as i64)
}

/// A tag: a `uint32` varint whose low three bits are the wire type.
pub open spec fn tag_at(s: Seq<u8>) -> Outcome<Tag> {
    map_outcome(uint32_at(s), |u: u32| Tag { field_num: u / 8, wire_type: (u % 8) as u8 })
}

/// The next `size` bytes.
pub open spec fn slice_at(s: Seq<u8>, size: nat) -> Outcome<Seq<u8>> {
    if s.len() < size {
        Err(DecodeError::UnexpectedEof)
    } else {
        Ok((s.take(size as int), size))
    }
}

/// A length-delimited record: a `uint32` length, then that many bytes.
pub open spec fn len_slice_at(s: Seq<u8>) -> Outcome<Seq<u8>> {
    match uint32_at(s) {
        Ok((len, n)) => match slice_at(s.skip(n as int), len as nat) {
            Ok((b, m)) => Ok((b, n + m)),
            Err(e) => Err(e),
        },
        Err(e) => Err(e),
    }
}

/// A varint passed over without its value: at most ten bytes.
pub open spec fn skip_varint_at(s: Seq<u8>) -> Outcome<()> {
    map_outcome(varint_at(s, 10), |v: nat| ())
}

/// How many bytes the value of a field with wire type `w` takes.
pub open spec fn skip_at(s: Seq<u8>, w: u8) -> Outcome<()> {
    if w == WIRE_TYPE_VARINT {
        skip_varint_at(s)
    } else if w == WIRE_TYPE_I64 {
        map_outcome(slice_at(s, 8), |b: Seq<u8>| ())
    } else if w == WIRE_TYPE_LEN {
        map_outcome(len_slice_at(s), |b: Seq<u8>| ())
    } else if w == 3 || w == 4 {
        Err(DecodeError::Deprecation)
    } else if w == WIRE_TYPE_I32 {
        map_outcome(slice_at(s, 4), |b: Seq<u8>| ())
    } else {
        Err(DecodeError::BadWireType(w))
    }
}

/// A result that holds a slice, with the slice seen as its bytes.
pub open spec fn view_bytes(r: Result<&[u8], DecodeError>) -> Result<Seq<u8>, DecodeError> {
    match r {
        Ok(b) => Ok(b@),
        Err(e) => Err(e),
    }
}

/// Relies on `core::str::from_utf8`: it accepts exactly the valid UTF-8
/// byte sequences, and the `str` it returns is those same bytes.
#[verifier::external_body]
fn utf8_str(b: &[u8]) -> (r: Option<&str>)
    ensures
        r is Some <==> valid_utf8(b@),
        r matches Some(t) ==> t.spec_bytes() == b@,
{
    core::str::from_utf8(b).ok()
}

/// One way to read a value of a field: the varint kinds, ZigZag, fixed-width.
/// Packed fields and map entries are read element by element with one of them.
pub trait WireDecode {
    type Value;

    /// What the value at the start of `s` is, and how many bytes it takes.
    spec fn value_at(s: Seq<u8>) -> Outcome<Self::Value>;

    /// A value that was read took at least one byte.
    proof fn lemma_value_len(s: Seq<u8>)
        ensures
            Self::value_at(s) matches Ok((v, n)) ==> 0 < n <= s.len(),
    ;

    fn decode_value<'a>(&self, reader: &mut PbReader<'a>) -> (r: Result<Self::Value, DecodeError>)
        requires
            old(reader).wf(),
        ensures
            old(reader).reads(final(reader), r, Self::value_at(old(reader).rest())),
    ;
}

/// The elements of a packed payload, read one after another to its end.
pub open spec fn packed_at<D: WireDecode>(s: Seq<u8>) -> Result<Seq<D::Value>, DecodeError>
    decreases s.len(),
{
    if s.len() == 0 {
        Ok(Seq::empty())
    } else {
        match D::value_at(s) {
            Ok((v, n)) => if 0 < n <= s.len() {
                match packed_at::<D>(s.skip(n as int)) {
                    Ok(t) => Ok(seq![v] + t),
                    Err(e) => Err(e),
                }
            } else {
                Err(DecodeError::UnexpectedEof)
            },
            Err(e) => Err(e),
        }
    }
}

/// Reading a packed payload into a container that already holds `len`
/// elements and holds at most `cap`: the elements appended, and the error that
/// stopped the read, if any. Each element is read, then appended, so a full
/// container stops the read at the first element that does not fit.
pub open spec fn packed_into<D: WireDecode>(s: Seq<u8>, cap: Option<nat>, len: nat) -> (
    Seq<D::Value>,
    Option<DecodeError>,
)
    decreases s.len(),
{
    if s.len() == 0 {
        (Seq::empty(), None)
    } else {
        match D::value_at(s) {
            Ok((v, n)) => if !(0 < n <= s.len()) {
                (Seq::empty(), Some(DecodeError::UnexpectedEof))
            } else if !fits(cap, len + 1) {
                (Seq::empty(), Some(DecodeError::Capacity))
            } else {
                let t = packed_into::<D>(s.skip(n as int), cap, len + 1);
                (seq![v] + t.0, t.1)
            },
            Err(e) => (Seq::empty(), Some(e)),
        }
    }
}

/// The result that a read which stopped on `err` returns.
pub open spec fn result_of(err: Option<DecodeError>) -> Result<(), DecodeError> {
    match err {
        Some(e) => Err(e),
        None => Ok(()),
    }
}

/// The fields of a map entry's payload, read to its end: field 1 is the key,
/// field 2 the value (a later one replaces an earlier one), others are skipped.
pub open spec fn entry_fields<K: WireDecode, V: WireDecode>(
    s: Seq<u8>,
    key: Option<K::Value>,
    val: Option<V::Value>,
) -> Result<(Option<K::Value>, Option<V::Value>), DecodeError>
    decreases s.len(),
{
    if s.len() == 0 {
        Ok((key, val))
    } else {
        match tag_at(s) {
            Ok((t, n)) => {
                let body = s.skip(n as int);
                let step: Outcome<(Option<K::Value>, Option<V::Value>)> = if t.field_num == 1 {
                    map_outcome(K::value_at(body), |k: K::Value| (Some(k), val))
                } else if t.field_num == 2 {
                    map_outcome(V::value_at(body), |v: V::Value| (key, Some(v)))
                } else {
                    map_outcome(skip_at(body, t.wire_type), |u: ()| (key, val))
                };
                match step {
                    Ok(((k2, v2), m)) => if 0 < n && n + m <= s.len() {
                        entry_fields::<K, V>(s.skip((n + m) as int), k2, v2)
                    } else {
                        Err(DecodeError::UnexpectedEof)
                    },
                    Err(e) => Err(e),
                }
            },
            Err(e) => Err(e),
        }
    }
}

/// A map entry yields a pair only when it held both a key and a value.
pub open spec fn entry_pair<K, V>(f: (Option<K>, Option<V>)) -> Option<(K, V)> {
    match f {
        (Some(k), Some(v)) => Some((k, v)),
        _ => None,
    }
}

/// A cursor over a borrowed byte slice.
#[derive(Debug)]
pub struct PbReader<'a> {
    buf: &'a [u8],
    idx: usize,
}

impl<'a> PbReader<'a> {
    /// The cursor lies within the slice.
    pub closed spec fn wf(&self) -> bool {
        self.idx <= self.buf@.len()
    }

    /// The whole slice that the reader was made on.
    pub closed spec fn input(&self) -> Seq<u8> {
        self.buf@
    }

    /// How many bytes of the input have been read.
    pub closed spec fn pos(&self) -> nat {
        self.idx as nat
    }

    /// The bytes still to be read are the input after the bytes already read,
    /// so a reader whose position only grows reads a suffix of what was left.
    pub proof fn lemma_rest_after_pos(&self)
        requires
            self.wf(),
        ensures
            self.pos() <= self.input().len(),
            self.rest() == self.input().skip(self.pos() as int),
    {
    }

    /// The bytes that are still to be read.
    pub closed spec fn rest(&self) -> Seq<u8> {
        self.buf@.subrange(self.idx as int, self.buf@.len() as int)
    }

    /// `next` is this reader after an operation that returned `r`, where
    /// `expect` describes the operation on the bytes still to be read: on
    /// success the value is returned and its bytes are consumed.
    pub open spec fn reads<T>(&self, next: &Self, r: Result<T, DecodeError>, expect: Outcome<T>) -> bool {
        &&& next.wf()
        &&& next.input() == self.input()
        &&& match expect {
            Ok((v, n)) => r == Ok::<T, DecodeError>(v) && next.rest() == self.rest().skip(n as int),
            Err(e) => r == Err::<T, DecodeError>(e) && self.pos() <= next.pos(),
        }
    }

    /// A failed operation left the reader where it was.
    pub open spec fn unmoved_on_error<T>(&self, next: &Self, r: Result<T, DecodeError>) -> bool {
        r is Err ==> next.rest() == self.rest()
    }

    /// Where a failed read of a varint of at most `limit` bytes leaves the
    /// reader: at the end of the input when it ran out, just past the first
    /// `limit` bytes when the varint was longer.
    pub open spec fn varint_error_at<T>(&self, next: &Self, r: Result<T, DecodeError>, limit: nat) -> bool {
        &&& r == Err::<T, DecodeError>(DecodeError::UnexpectedEof) ==> next.rest().len() == 0
        &&& r matches Err(DecodeError::VarIntLimit(_)) ==> self.rest().len() >= limit && next.rest()
            == self.rest().skip(limit as int)
    }

    /// Where a failed read of a length-delimited record leaves the reader: as a
    /// failed varint read when the length failed, else just past the length.
    pub open spec fn len_slice_error_at<T>(&self, next: &Self, r: Result<T, DecodeError>) -> bool {
        match uint32_at(self.rest()) {
            Ok((len, n)) => r is Err ==> next.rest() == self.rest().skip(n as int),
            Err(_) => self.varint_error_at(next, r, 5),
        }
    }

    pub fn new(buf: &'a [u8]) -> (r: Self)
        ensures
            r.wf(),
            r.input() == buf@,
            r.rest() == buf@,
    {
        let r = PbReader { buf, idx: 0 };
        assert(r.rest() =~= buf@);
        r
    }

    pub fn remaining(&self) -> (r: usize)
        requires
            self.wf(),
        ensures
            r == self.rest().len(),
    {
        self.buf.len() - self.idx
    }

    fn get_byte(&mut self) -> (r: Result<u8, DecodeError>)
        requires
            old(self).wf(),
        ensures
            final(self).wf(),
            final(self).input() == old(self).input(),
            old(self).rest().len() == 0 ==> r == Err::<u8, DecodeError>(DecodeError::UnexpectedEof)
                && final(self).rest() == old(self).rest(),
            old(self).rest().len() > 0 ==> r == Ok::<u8, DecodeError>(old(self).rest()[0])
                && final(self).rest() == old(self).rest().drop_first(),
            old(self).pos() <= final(self).pos(),
            r is Ok ==> final(self).pos() == old(self).pos() + 1,
    {
        if self.remaining() == 0 {
            return Err(DecodeError::UnexpectedEof);
        }
        let b = self.buf[self.idx];
        self.idx = self.idx + 1;
        assert(self.rest() =~= old(self).rest().drop_first());
        Ok(b)
    }

    /// Reads a varint of at most `limit` bytes, keeping its low 64 bits.
    fn decode_varint(&mut self, limit: u8) -> (r: Result<u64, DecodeError>)
        requires
            old(self).wf(),
            1 <= limit <= 10,
        ensures
            final(self).wf(),
            final(self).input() == old(self).input(),
            match varint_at(old(self).rest(), limit as nat) {
                Ok((v, n)) => r == Ok::<u64, DecodeError>((v % pow64()) as u64)
                    && final(self).rest() == old(self).rest().skip(n as int),
                Err(e) => r == Err::<u64, DecodeError>(e),
            },
            old(self).varint_error_at(final(self), r, limit as nat),
            old(self).pos() <= final(self).pos(),
    {
        let ghost s = self.rest();
        let b = self.get_byte()?;
        let mut varint: u64 = (b & 0x7F) as u64;
        proof {
            assert(b & 0x7F == b % 128) by (bit_vector);
            assert(b & 0x80 == 0 <==> b < 0x80) by (bit_vector);
            assert(s.take(1).drop_first() =~= Seq::<u8>::empty());
            assert(varint_value(Seq::<u8>::empty()) == 0);
            lemma_small_mod(varint_value(s.take(1)), pow64());
        }
        if b & 0x80 == 0 {
            assert(self.rest() =~= s.skip(1));
            return Ok(varint);
        }
        let mut bitpos: u64 = 7;
        let mut i: u8 = 1;
        while i < limit
            invariant
                1 <= i <= limit <= 10,
                bitpos == 7 * i,
                i <= s.len(),
                s == old(self).rest(),
                self.wf(),
                self.input() == old(self).input(),
                self.pos() == old(self).pos() + i,
                self.rest() == s.skip(i as int),
                varint_len_from(s, 0, limit as nat) == varint_len_from(s, i as nat, limit as nat),
                varint as int == varint_value(s.take(i as int)) % pow64(),
            decreases limit - i,
        {
            let ghost prev = varint;
            let b = match self.get_byte() {
                Ok(b) => b,
                Err(e) => {
                    assert(i == s.len());
                    return Err(e);
                },
            };
            let c = (b & 0x7F) as u64;
            proof {
                assert(b & 0x7F == b % 128) by (bit_vector);
                assert(b & 0x80 == 0 <==> b < 0x80) by (bit_vector);
                assert(s[i as int] == b);
                assert(s.take(i as int + 1) =~= s.take(i as int).push(b));
                lemma_varint_value_push(s.take(i as int), b);
                lemma_varint_value_bound(s.take(i as int));
                lemma2_to64();
                lemma_pow2_strictly_increases((7 * i) as nat, 64);
                lemma_small_mod(varint_value(s.take(i as int)), pow64());
                lemma_or_shifted(prev, c, bitpos);
            }
            varint = varint | (c << bitpos);
            if b & 0x80 == 0 {
                assert(self.rest() =~= s.skip(i as int + 1));
                assert(varint_len_from(s, i as nat, limit as nat) == Ok::<nat, DecodeError>((i + 1) as nat));
                assert(varint as int == varint_value(s.take(i as int + 1)) % pow64());
                return Ok(varint);
            }
            bitpos = bitpos + 7;
            i = i + 1;
            assert(self.rest() =~= s.skip(i as int));
        }
        Err(DecodeError::VarIntLimit(limit))
    }

    pub fn decode_uint32(&mut self) -> (r: Result<u32, DecodeError>)
        requires
            old(self).wf(),
        ensures
            old(self).reads(final(self), r, uint32_at(old(self).rest())),
            old(self).varint_error_at(final(self), r, 5),
    {
        let r = self.decode_varint(5);
        proof {
            if let Ok(v) = r {
                assert(v as u32 == v % 0x1_0000_0000) by (bit_vector);
                lemma_varint_len_bounds(old(self).rest(), 0, 5);
                let n = varint_len(old(self).rest(), 5)->Ok_0;
                lemma_varint_value_bound(old(self).rest().take(n as int));
                lemma_pow2_strictly_increases((7 * n) as nat, 64);
                lemma2_to64();
                lemma2_to64_rest();
            }
        }
        match r {
            Ok(v) => Ok(v as u32),
            Err(e) => Err(e),
        }
    }

    pub fn decode_uint64(&mut self) -> (r: Result<u64, DecodeError>)
        requires
            old(self).wf(),
        ensures
            old(self).reads(final(self), r, uint64_at(old(self).rest())),
            old(self).varint_error_at(final(self), r, 10),
    {
        self.decode_varint(10)
    }

    pub fn decode_int64(&mut self) -> (r: Result<i64, DecodeError>)
        requires
            old(self).wf(),
        ensures
            old(self).reads(final(self), r, int64_at(old(self).rest())),
            old(self).varint_error_at(final(self), r, 10),
    {
        match self.decode_uint64() {
            Ok(u) => Ok(u as i64),
            Err(e) => Err(e),
        }
    }

    pub fn decode_int32(&mut self) -> (r: Result<i32, DecodeError>)
        requires
            old(self).wf(),
        ensures
            old(self).reads(final(self), r, int32_at(old(self).rest())),
            old(self).varint_error_at(final(self), r, 10),
    {
        match self.decode_int64() {
            Ok(u) => Ok(u as i32),
            Err(e) => Err(e),
        }
    }

    pub fn decode_sint32(&mut self) -> (r: Result<i32, DecodeError>)
        requires
            old(self).wf(),
        ensures
            old(self).reads(final(self), r, sint32_at(old(self).rest())),
            old(self).varint_error_at(final(self), r, 5),
    {
        match self.decode_uint32() {
            Ok(u) => {
                assert(u & 1 <= 1) by (bit_vector);
                let m = -((u & 1) as i32);
                let r = ((u >> 1) as i32) ^ m;
                proof {
                    lemma_zigzag_decode32(u, m);
                }
                Ok(r)
            },
            Err(e) => Err(e),
        }
    }

    pub fn decode_sint64(&mut self) -> (r: Result<i64, DecodeError>)
        requires
            old(self).wf(),
        ensures
            old(self).reads(final(self), r, sint64_at(old(self).rest())),
            old(self).varint_error_at(final(self), r, 10),
    {
        match self.decode_uint64() {
            Ok(u) => {
                assert(u & 1 <= 1) by (bit_vector);
                let m = -((u & 1) as i64);
                let r = ((u >> 1) as i64) ^ m;
                proof {
                    lemma_zigzag_decode64(u, m);
                }
                Ok(r)
            },
            Err(e) => Err(e),
        }
    }

    pub fn decode_bool(&mut self) -> (r: Result<bool, DecodeError>)
        requires
            old(self).wf(),
        ensures
            old(self).reads(final(self), r, bool_at(old(self).rest())),
            r == Err::<bool, DecodeError>(DecodeError::UnexpectedEof) ==> final(self).rest() == old(self).rest(),
            r == Err::<bool, DecodeError>(DecodeError::VarIntLimit(1)) ==> final(self).rest() == old(self).rest().skip(1),
    {
        let b = self.get_byte()?;
        assert(b & 0x80 != 0 <==> b >= 0x80) by (bit_vector);
        if b & 0x80 != 0 {
            return Err(DecodeError::VarIntLimit(1));
        }
        Ok(b != 0)
    }

    fn get_slice(&mut self, size: usize) -> (r: Result<&'a [u8], DecodeError>)
        requires
            old(self).wf(),
        ensures
            old(self).reads(final(self), view_bytes(r), slice_at(old(self).rest(), size as nat)),
            old(self).unmoved_on_error(final(self), r),
    {
        if self.remaining() < size {
            return Err(DecodeError::UnexpectedEof);
        }
        let total = self.buf.len();
        assert(self.rest().len() == total - self.idx);
        let idx = self.idx;
        self.idx = self.idx + size;
        let r = vstd::slice::slice_subrange(self.buf, idx, idx + size);
        assert(r@ =~= old(self).rest().take(size as int));
        assert(self.rest() =~= old(self).rest().skip(size as int));
        Ok(r)
    }

    /// Takes the next `size` bytes.
    pub fn decode_slice(&mut self, size: usize) -> (r: Result<&'a [u8], DecodeError>)
        requires
            old(self).wf(),
        ensures
            old(self).reads(final(self), view_bytes(r), slice_at(old(self).rest(), size as nat)),
            old(self).unmoved_on_error(final(self), r),
    {
        self.get_slice(size)
    }

    /// Passes over the next `size` bytes.
    pub fn skip_bytes(&mut self, size: usize) -> (r: Result<(), DecodeError>)
        requires
            old(self).wf(),
        ensures
            old(self).reads(final(self), r, map_outcome(slice_at(old(self).rest(), size as nat), |b: Seq<u8>| ())),
            old(self).unmoved_on_error(final(self), r),
    {
        match self.get_slice(size) {
            Ok(_) => Ok(()),
            Err(e) => Err(e),
        }
    }

    pub fn decode_fixed32(&mut self) -> (r: Result<u32, DecodeError>)
        requires
            old(self).wf(),
        ensures
            old(self).reads(final(self), r, fixed32_at(old(self).rest())),
            old(self).unmoved_on_error(final(self), r),
    {
        let b = self.get_slice(4)?;
        Ok((b[0] as u32) + (b[1] as u32) * 0x100 + (b[2] as u32) * 0x1_0000 + (b[3] as u32)
            * 0x100_0000)
    }

    pub fn decode_fixed64(&mut self) -> (r: Result<u64, DecodeError>)
        requires
            old(self).wf(),
        ensures
            old(self).reads(final(self), r, fixed64_at(old(self).rest())),
            old(self).unmoved_on_error(final(self), r),
    {
        let b = self.get_slice(8)?;
        let lo = (b[0] as u64) + (b[1] as u64) * 0x100 + (b[2] as u64) * 0x1_0000 + (b[3] as u64)
            * 0x100_0000;
        let hi = (b[4] as u64) + (b[5] as u64) * 0x100 + (b[6] as u64) * 0x1_0000 + (b[7] as u64)
            * 0x100_0000;
        assert(b@.skip(4)[0] == b@[4] && b@.skip(4)[1] == b@[5] && b@.skip(4)[2] == b@[6]
            && b@.skip(4)[3] == b@[7]);
        Ok(lo + hi * 0x1_0000_0000)
    }

    pub fn decode_sfixed32(&mut self) -> (r: Result<i32, DecodeError>)
        requires
            old(self).wf(),
        ensures
            old(self).reads(final(self), r, sfixed32_at(old(self).rest())),
            old(self).unmoved_on_error(final(self), r),
    {
        match self.decode_fixed32() {
            Ok(u) => Ok(u as i32),
            Err(e) => Err(e),
        }
    }

    pub fn decode_sfixed64(&mut self) -> (r: Result<i64, DecodeError>)
        requires
            old(self).wf(),
        ensures
            old(self).reads(final(self), r, sfixed64_at(old(self).rest())),
            old(self).unmoved_on_error(final(self), r),
    {
        match self.decode_fixed64() {
            Ok(u) => Ok(u as i64),
            Err(e) => Err(e),
        }
    }

    pub fn decode_tag(&mut self) -> (r: Result<Tag, DecodeError>)
        requires
            old(self).wf(),
        ensures
            old(self).reads(final(self), r, tag_at(old(self).rest())),
            r matches Ok(t) ==> t.wf(),
            old(self).varint_error_at(final(self), r, 5),
    {
        let u = self.decode_uint32()?;
        Ok(Tag::from_varint(u))
    }

    pub fn decode_len_slice(&mut self) -> (r: Result<&'a [u8], DecodeError>)
        requires
            old(self).wf(),
        ensures
            old(self).reads(final(self), view_bytes(r), len_slice_at(old(self).rest())),
            old(self).len_slice_error_at(final(self), r),
    {
        let len = self.decode_uint32()?;
        let ghost mid = self.rest();
        let r = self.get_slice(len as usize);
        proof {
            lemma_varint_len_bounds(old(self).rest(), 0, 5);
            if let Ok((v, n)) = uint32_at(old(self).rest()) {
                assert(old(self).rest().skip(n as int) == mid);
                if let Ok((b, m)) = slice_at(mid, len as nat) {
                    assert(mid.skip(m as int) =~= old(self).rest().skip((n + m) as int));
                }
            }
        }
        r
    }

    /// Reads a length-delimited UTF-8 string and appends it to `string`.
    pub fn decode_string<S: PbString>(&mut self, string: &mut S) -> (r: Result<(), DecodeError>)
        requires
            old(self).wf(),
        ensures
            final(self).wf(),
            final(self).input() == old(self).input(),
            final(string).max_len() == old(string).max_len(),
            r is Err ==> final(string).chars() == old(string).chars(),
            match len_slice_at(old(self).rest()) {
                Ok((b, n)) => {
                    let room = fits(
                        old(string).max_len(),
                        encode_utf8(old(string).chars()).len() + b.len(),
                    );
                    &&& final(self).rest() == old(self).rest().skip(n as int)
                    &&& !valid_utf8(b) ==> r == Err::<(), DecodeError>(DecodeError::Utf8)
                    &&& valid_utf8(b) && room ==> r is Ok && final(string).chars() == old(
                        string,
                    ).chars() + decode_utf8(b)
                    &&& valid_utf8(b) && !room ==> r == Err::<(), DecodeError>(DecodeError::Capacity)
                },
                Err(e) => r == Err::<(), DecodeError>(e),
            },
    {
        let slice = self.decode_len_slice()?;
        match utf8_str(slice) {
            Some(t) => {
                proof {
                    encode_utf8_decode_utf8(t@);
                }
                match string.pb_write_str(t) {
                    Ok(()) => Ok(()),
                    Err(_) => Err(DecodeError::Capacity),
                }
            },
            None => Err(DecodeError::Utf8),
        }
    }

    /// Reads a length-delimited run of bytes and appends it to `bytes`.
    pub fn decode_bytes<S: PbVec<u8>>(&mut self, bytes: &mut S) -> (r: Result<(), DecodeError>)
        requires
            old(self).wf(),
        ensures
            final(self).wf(),
            final(self).input() == old(self).input(),
            final(bytes).max_len() == old(bytes).max_len(),
            r is Err ==> final(bytes).elems() == old(bytes).elems(),
            match len_slice_at(old(self).rest()) {
                Ok((b, n)) => {
                    let room = fits(old(bytes).max_len(), old(bytes).elems().len() + b.len());
                    &&& final(self).rest() == old(self).rest().skip(n as int)
                    &&& room ==> r is Ok && final(bytes).elems() == old(bytes).elems() + b
                    &&& !room ==> r == Err::<(), DecodeError>(DecodeError::Capacity)
                },
                Err(e) => r == Err::<(), DecodeError>(e),
            },
    {
        let slice = self.decode_len_slice()?;
        match bytes.pb_write_slice(slice) {
            Ok(()) => Ok(()),
            Err(_) => Err(DecodeError::Capacity),
        }
    }

    /// Reads a packed repeated field: a length-delimited payload whose elements
    /// are read with `decoder` until it is used up, each appended to `vec`.
    /// Elements appended before an error stay.
    pub fn decode_packed<D: WireDecode, S: PbVec<D::Value>>(&mut self, vec: &mut S, decoder: &D) -> (r: Result<(), DecodeError>)
        where D::Value: Copy,
        requires
            old(self).wf(),
        ensures
            final(self).wf(),
            final(self).input() == old(self).input(),
            final(vec).max_len() == old(vec).max_len(),
            match len_slice_at(old(self).rest()) {
                Ok((b, n)) => {
                    let run = packed_into::<D>(b, old(vec).max_len(), old(vec).elems().len());
                    &&& final(self).rest() == old(self).rest().skip(n as int)
                    &&& final(vec).elems() == old(vec).elems() + run.0
                    &&& r == result_of(run.1)
                },
                Err(e) => r == Err::<(), DecodeError>(e) && final(vec).elems() == old(vec).elems(),
            },
    {
        let slice = self.decode_len_slice()?;
        let mut reader = PbReader::new(slice);
        let ghost cap = old(vec).max_len();
        let ghost l0 = old(vec).elems().len();
        let ghost done: Seq<D::Value> = Seq::empty();
        while reader.remaining() > 0
            invariant
                self.wf(),
                self.input() == old(self).input(),
                len_slice_at(old(self).rest()) matches Ok((b, n)) && b == slice@
                    && self.rest() == old(self).rest().skip(n as int),
                reader.wf(),
                vec.elems() == old(vec).elems() + done,
                vec.max_len() == cap,
                cap == old(vec).max_len(),
                l0 == old(vec).elems().len(),
                packed_into::<D>(slice@, cap, l0) == ({
                    let t = packed_into::<D>(reader.rest(), cap, l0 + done.len());
                    (done + t.0, t.1)
                }),
            decreases reader.rest().len(),
        {
            let ghost before = reader.rest();
            proof {
                D::lemma_value_len(before);
            }
            let val = match decoder.decode_value(&mut reader) {
                Ok(v) => v,
                Err(e) => {
                    assert(done + Seq::<D::Value>::empty() =~= done);
                    return Err(e);
                },
            };
            match vec.pb_push(val) {
                Ok(()) => {},
                Err(_) => {
                    assert(done + Seq::<D::Value>::empty() =~= done);
                    return Err(DecodeError::Capacity);
                },
            }
            proof {
                let t = packed_into::<D>(reader.rest(), cap, l0 + done.len() + 1);
                assert(done + (seq![val] + t.0) =~= done.push(val) + t.0);
                done = done.push(val);
            }
        }
        assert(done + Seq::<D::Value>::empty() =~= done);
        Ok(())
    }

    /// Reads one map entry. The pair comes back only when the entry held both
    /// a key and a value; an entry that lacks one is dropped without an error.
    pub fn decode_map_elem<K: WireDecode, V: WireDecode>(&mut self, key_decoder: &K, val_decoder: &V) -> (r: Result<Option<(K::Value, V::Value)>, DecodeError>)
        requires
            old(self).wf(),
        ensures
            final(self).wf(),
            final(self).input() == old(self).input(),
            match len_slice_at(old(self).rest()) {
                Ok((b, n)) => {
                    &&& final(self).rest() == old(self).rest().skip(n as int)
                    &&& match entry_fields::<K, V>(b, None, None) {
                        Ok(f) => r == Ok::<Option<(K::Value, V::Value)>, DecodeError>(entry_pair(f)),
                        Err(e) => r == Err::<Option<(K::Value, V::Value)>, DecodeError>(e),
                    }
                },
                Err(e) => r == Err::<Option<(K::Value, V::Value)>, DecodeError>(e),
            },
    {
        let slice = self.decode_len_slice()?;
        let mut reader = PbReader::new(slice);
        let mut key: Option<K::Value> = None;
        let mut val: Option<V::Value> = None;
        while reader.remaining() > 0
            invariant
                self.wf(),
                self.input() == old(self).input(),
                len_slice_at(old(self).rest()) matches Ok((b, n)) && b == slice@
                    && self.rest() == old(self).rest().skip(n as int),
                reader.wf(),
                entry_fields::<K, V>(slice@, None, None) == entry_fields::<K, V>(reader.rest(), key, val),
            decreases reader.rest().len(),
        {
            let ghost s = reader.rest();
            proof {
                lemma_varint_len_bounds(s, 0, 5);
            }
            let tag = match reader.decode_tag() {
                Ok(t) => t,
                Err(e) => return Err(e),
            };
            let ghost n = tag_at(s)->Ok_0.1;
            let ghost body = reader.rest();
            if tag.field_num == 1 {
                proof {
                    K::lemma_value_len(body);
                }
                match key_decoder.decode_value(&mut reader) {
                    Ok(k) => key = Some(k),
                    Err(e) => return Err(e),
                }
            } else if tag.field_num == 2 {
                proof {
                    V::lemma_value_len(body);
                }
                match val_decoder.decode_value(&mut reader) {
                    Ok(v) => val = Some(v),
                    Err(e) => return Err(e),
                }
            } else {
                proof {
                    lemma_skip_len(body, tag.wire_type);
                }
                match reader.skip_wire_value(&tag) {
                    Ok(()) => {},
                    Err(e) => return Err(e),
                }
            }
            proof {
                let m = (body.len() - reader.rest().len()) as nat;
                assert(reader.rest() =~= s.skip((n + m) as int));
            }
        }
        match (key, val) {
            (Some(k), Some(v)) => Ok(Some((k, v))),
            _ => Ok(None),
        }
    }

    /// Passes over one varint of at most ten bytes.
    pub fn skip_varint(&mut self) -> (r: Result<(), DecodeError>)
        requires
            old(self).wf(),
        ensures
            old(self).reads(final(self), r, skip_varint_at(old(self).rest())),
            old(self).varint_error_at(final(self), r, 10),
    {
        match self.decode_varint(10) {
            Ok(_) => Ok(()),
            Err(e) => Err(e),
        }
    }

    /// Passes over the value of a field whose tag is `tag`.
    pub fn skip_wire_value(&mut self, tag: &Tag) -> (r: Result<(), DecodeError>)
        requires
            old(self).wf(),
        ensures
            old(self).reads(final(self), r, skip_at(old(self).rest(), tag.wire_type)),
            tag.wire_type == WIRE_TYPE_VARINT ==> old(self).varint_error_at(final(self), r, 10),
            tag.wire_type == WIRE_TYPE_LEN ==> old(self).len_slice_error_at(final(self), r),
            tag.wire_type != WIRE_TYPE_VARINT && tag.wire_type != WIRE_TYPE_LEN ==> old(self).unmoved_on_error(final(self), r),
    {
        let w = tag.wire_type;
        if w == WIRE_TYPE_VARINT {
            self.skip_varint()
        } else if w == WIRE_TYPE_I64 {
            match self.get_slice(8) {
                Ok(_) => Ok(()),
                Err(e) => Err(e),
            }
        } else if w == WIRE_TYPE_LEN {
            match self.decode_len_slice() {
                Ok(_) => Ok(()),
                Err(e) => Err(e),
            }
        } else if w == 3 || w == 4 {
            Err(DecodeError::Deprecation)
        } else if w == WIRE_TYPE_I32 {
            match self.get_slice(4) {
                Ok(_) => Ok(()),
                Err(e) => Err(e),
            }
        } else {
            Err(DecodeError::BadWireType(w))
        }
    }
}


/// `uint32`: a varint of up to five bytes.
#[derive(Debug, Clone, Copy)]
pub struct Uint32;

impl WireDecode for Uint32 {
    type Value = u32;

    open spec fn value_at(s: Seq<u8>) -> Outcome<u32> {
        uint32_at(s)
    }

    proof fn lemma_value_len(s: Seq<u8>) {
        lemma_varint_len_bounds(s, 0, 5);
    }

    fn decode_value<'a>(&self, reader: &mut PbReader<'a>) -> (r: Result<u32, DecodeError>) {
        reader.decode_uint32()
    }
}

/// `uint64`: a varint of up to ten bytes.
#[derive(Debug, Clone, Copy)]
pub struct Uint64;

impl WireDecode for Uint64 {
    type Value = u64;

    open spec fn value_at(s: Seq<u8>) -> Outcome<u64> {
        uint64_at(s)
    }

    proof fn lemma_value_len(s: Seq<u8>) {
        lemma_varint_len_bounds(s, 0, 10);
    }

    fn decode_value<'a>(&self, reader: &mut PbReader<'a>) -> (r: Result<u64, DecodeError>) {
        reader.decode_uint64()
    }
}

/// `int32`: a 64-bit varint narrowed to 32 bits.
#[derive(Debug, Clone, Copy)]
pub struct Int32;

impl WireDecode for Int32 {
    type Value = i32;

    open spec fn value_at(s: Seq<u8>) -> Outcome<i32> {
        int32_at(s)
    }

    proof fn lemma_value_len(s: Seq<u8>) {
        lemma_varint_len_bounds(s, 0, 10);
    }

    fn decode_value<'a>(&self, reader: &mut PbReader<'a>) -> (r: Result<i32, DecodeError>) {
        reader.decode_int32()
    }
}

/// `int64`: a 64-bit varint in two's complement.
#[derive(Debug, Clone, Copy)]
pub struct Int64;

impl WireDecode for Int64 {
    type Value = i64;

    open spec fn value_at(s: Seq<u8>) -> Outcome<i64> {
        int64_at(s)
    }

    proof fn lemma_value_len(s: Seq<u8>) {
        lemma_varint_len_bounds(s, 0, 10);
    }

    fn decode_value<'a>(&self, reader: &mut PbReader<'a>) -> (r: Result<i64, DecodeError>) {
        reader.decode_int64()
    }
}

/// `sint32`: a ZigZag-encoded 32-bit varint.
#[derive(Debug, Clone, Copy)]
pub struct Sint32;

impl WireDecode for Sint32 {
    type Value = i32;

    open spec fn value_at(s: Seq<u8>) -> Outcome<i32> {
        sint32_at(s)
    }

    proof fn lemma_value_len(s: Seq<u8>) {
        lemma_varint_len_bounds(s, 0, 5);
    }

    fn decode_value<'a>(&self, reader: &mut PbReader<'a>) -> (r: Result<i32, DecodeError>) {
        reader.decode_sint32()
    }
}

/// `sint64`: a ZigZag-encoded 64-bit varint.
#[derive(Debug, Clone, Copy)]
pub struct Sint64;

impl WireDecode for Sint64 {
    type Value = i64;

    open spec fn value_at(s: Seq<u8>) -> Outcome<i64> {
        sint64_at(s)
    }

    proof fn lemma_value_len(s: Seq<u8>) {
        lemma_varint_len_bounds(s, 0, 10);
    }

    fn decode_value<'a>(&self, reader: &mut PbReader<'a>) -> (r: Result<i64, DecodeError>) {
        reader.decode_sint64()
    }
}

/// `bool`: one byte.
#[derive(Debug, Clone, Copy)]
pub struct Bool;

impl WireDecode for Bool {
    type Value = bool;

    open spec fn value_at(s: Seq<u8>) -> Outcome<bool> {
        bool_at(s)
    }

    proof fn lemma_value_len(s: Seq<u8>) {
    }

    fn decode_value<'a>(&self, reader: &mut PbReader<'a>) -> (r: Result<bool, DecodeError>) {
        reader.decode_bool()
    }
}

/// `fixed32`: four little-endian bytes.
#[derive(Debug, Clone, Copy)]
pub struct Fixed32;

impl WireDecode for Fixed32 {
    type Value = u32;

    open spec fn value_at(s: Seq<u8>) -> Outcome<u32> {
        fixed32_at(s)
    }

    proof fn lemma_value_len(s: Seq<u8>) {
    }

    fn decode_value<'a>(&self, reader: &mut PbReader<'a>) -> (r: Result<u32, DecodeError>) {
        reader.decode_fixed32()
    }
}

/// `fixed64`: eight little-endian bytes.
#[derive(Debug, Clone, Copy)]
pub struct Fixed64;

impl WireDecode for Fixed64 {
    type Value = u64;

    open spec fn value_at(s: Seq<u8>) -> Outcome<u64> {
        fixed64_at(s)
    }

    proof fn lemma_value_len(s: Seq<u8>) {
    }

    fn decode_value<'a>(&self, reader: &mut PbReader<'a>) -> (r: Result<u64, DecodeError>) {
        reader.decode_fixed64()
    }
}

/// `sfixed32`: four little-endian bytes, two's complement.
#[derive(Debug, Clone, Copy)]
pub struct Sfixed32;

impl WireDecode for Sfixed32 {
    type Value = i32;

    open spec fn value_at(s: Seq<u8>) -> Outcome<i32> {
        sfixed32_at(s)
    }

    proof fn lemma_value_len(s: Seq<u8>) {
    }

    fn decode_value<'a>(&self, reader: &mut PbReader<'a>) -> (r: Result<i32, DecodeError>) {
        reader.decode_sfixed32()
    }
}

/// `sfixed64`: eight little-endian bytes, two's complement.
#[derive(Debug, Clone, Copy)]
pub struct Sfixed64;

impl WireDecode for Sfixed64 {
    type Value = i64;

    open spec fn value_at(s: Seq<u8>) -> Outcome<i64> {
        sfixed64_at(s)
    }

    proof fn lemma_value_len(s: Seq<u8>) {
    }

    fn decode_value<'a>(&self, reader: &mut PbReader<'a>) -> (r: Result<i64, DecodeError>) {
        reader.decode_sfixed64()
    }
}

/// What a skip takes lies within the bytes it was given.
pub proof fn lemma_skip_len(s: Seq<u8>, w: u8)
    ensures
        skip_at(s, w) matches Ok((u, m)) ==> m <= s.len(),
{
    lemma_varint_len_bounds(s, 0, 10);
    lemma_varint_len_bounds(s, 0, 5);
}

/// The exec ZigZag step, `(u >> 1) ^ -(u & 1)`, is `zigzag_decode`.
proof fn lemma_zigzag_decode32(u: u32, m: i32)
    requires
        m as int == -((u & 1) as int),
    ensures
        (((u >> 1) as i32) ^ m) as int == zigzag_decode(u as int),
{
    assert(u & 1 == u % 2 && u >> 1 == u / 2) by (bit_vector);
    assert(u >> 1 < 0x8000_0000) by (bit_vector);
    let h = (u >> 1) as i32;
    assert(h ^ 0 == h && (h ^ -1i32) + h == -1) by (bit_vector);
}

proof fn lemma_zigzag_decode64(u: u64, m: i64)
    requires
        m as int == -((u & 1) as int),
    ensures
        (((u >> 1) as i64) ^ m) as int == zigzag_decode(u as int),
{
    assert(u & 1 == u % 2 && u >> 1 == u / 2) by (bit_vector);
    assert(u >> 1 < 0x8000_0000_0000_0000) by (bit_vector);
    let h = (u >> 1) as i64;
    assert(h ^ 0 == h && (h ^ -1i64) + h == -1) by (bit_vector);
}

} // verus!
