//! Writing the wire format, and the exact sizes of what is written.
use vstd::prelude::*;
use vstd::string::StringSliceAdditionalSpecFns;

use crate::container::{fits, Overflow, PbVec};
use crate::decode::{
    fixed32_at, fixed64_at, le32, le64, skip_at, skip_varint_at, uint32_at, uint64_at, Bool,
    DecodeError, Fixed32, Fixed64, Int32, Int64, Sfixed32, Sfixed64, Sint32, Sint64, Uint32, Uint64,
    WireDecode,
};
use crate::presence::ImplicitPresence;
use crate::varint::{
    lemma_varint_bytes_len, lemma_varint_round_trip, pow32, pow64, varint_bytes, zigzag_encode,
};
use vstd::arithmetic::div_mod::lemma_small_mod;
use vstd::arithmetic::power2::{lemma2_to64, lemma2_to64_rest, lemma_pow2_strictly_increases};
use crate::wire::{
    field_num_bound, Tag, WIRE_TYPE_I32, WIRE_TYPE_I64, WIRE_TYPE_LEN, WIRE_TYPE_VARINT,
};

verus! {

/// Where encoded bytes go.
pub trait PbWrite: Sized {
    type Error;

    /// Everything written so far.
    spec fn written(&self) -> Seq<u8>;

    /// How many bytes it can take in all, if it is bounded.
    spec fn max_len(&self) -> Option<nat>;

    /// Appends `data`, failing exactly when it does not fit; on failure a
    /// prefix of it may have been written.
    fn pb_write(&mut self, data: &[u8]) -> (r: Result<(), Self::Error>)
        ensures
            final(self).max_len() == old(self).max_len(),
            r is Ok <==> fits(old(self).max_len(), old(self).written().len() + data@.len()),
            r is Ok ==> final(self).written() == old(self).written() + data@,
    ;
}

impl PbWrite for Vec<u8> {
    type Error = Overflow;

    open spec fn written(&self) -> Seq<u8> {
        self@
    }

    open spec fn max_len(&self) -> Option<nat> {
        None
    }

    fn pb_write(&mut self, data: &[u8]) -> (r: Result<(), Overflow>) {
        self.pb_write_slice(data)
    }
}

/// A writer that keeps no bytes, only their number: running an encoder on it
/// computes the size of what the encoder would write.
pub struct SizeCounter {
    count: usize,
    log: Ghost<Seq<u8>>,
}

impl SizeCounter {
    #[verifier::type_invariant]
    spec fn counted(&self) -> bool {
        self.count == self.log@.len()
    }

    pub fn new() -> (r: Self)
        ensures
            r.written() == Seq::<u8>::empty(),
    {
        SizeCounter { count: 0, log: Ghost(Seq::empty()) }
    }

    /// The number of bytes written so far.
    pub fn size(&self) -> (r: usize)
        ensures
            r == self.written().len(),
    {
        proof {
            use_type_invariant(self);
        }
        self.count
    }
}

impl PbWrite for SizeCounter {
    /// The count would not fit in `usize`.
    type Error = Overflow;

    closed spec fn written(&self) -> Seq<u8> {
        self.log@
    }

    open spec fn max_len(&self) -> Option<nat> {
        Some(usize::MAX as nat)
    }

    fn pb_write(&mut self, data: &[u8]) -> (r: Result<(), Overflow>) {
        proof {
            use_type_invariant(&*self);
        }
        if data.len() > usize::MAX - self.count {
            return Err(Overflow);
        }
        let count = self.count + data.len();
        let log = Ghost(self.log@ + data@);
        *self = SizeCounter { count, log };
        Ok(())
    }
}

/// The bytes of `u` as fixed-width little-endian.
pub open spec fn le_bytes(u: nat, width: nat) -> Seq<u8>
    decreases width,
{
    if width == 0 {
        Seq::empty()
    } else {
        seq![(u % 256) as u8] + le_bytes(u / 256, (width - 1) as nat)
    }
}

/// The bytes of a tag.
pub open spec fn tag_bytes(t: Tag) -> Seq<u8> {
    varint_bytes(t.packed() as nat)
}

/// An `int32` goes on the wire sign-extended to 64 bits.
pub open spec fn int32_bytes(v: i32) -> Seq<u8> {
    varint_bytes((v as i64 as u64) as nat)
}

pub open spec fn int64_bytes(v: i64) -> Seq<u8> {
    varint_bytes((v as u64) as nat)
}

/// A length prefix, then the bytes.
pub open spec fn len_delimited(b: Seq<u8>) -> Seq<u8> {
    varint_bytes(b.len()) + b
}

pub open spec fn bool_bytes(v: bool) -> Seq<u8> {
    varint_bytes(if v {
        1
    } else {
        0
    })
}

/// One way to write a value of a field; the counterpart of `WireDecode`.
pub trait WireEncode: WireDecode {
    /// The bytes that `v` is written as.
    spec fn value_bytes(v: Self::Value) -> Seq<u8>;

    /// The wire type that goes in the tag of a field of this kind.
    spec fn wire_type_spec() -> u8;

    fn wire_type(&self) -> (r: u8)
        ensures
            r == Self::wire_type_spec(),
            r <= 7,
    ;

    proof fn lemma_wire_type_bound()
        ensures
            Self::wire_type_spec() <= 7,
    ;

    /// What was written reads back as the same value, and the read takes
    /// exactly the bytes that were written.
    proof fn lemma_round_trip(v: Self::Value, rest: Seq<u8>)
        ensures
            Self::value_at(Self::value_bytes(v) + rest) == Ok::<(Self::Value, nat), DecodeError>(
                (v, Self::value_bytes(v).len()),
            ),
    ;

    /// Skipping by the wire type passes over exactly the value's bytes.
    proof fn lemma_skip(v: Self::Value, rest: Seq<u8>)
        ensures
            skip_at(Self::value_bytes(v) + rest, Self::wire_type_spec()) == Ok::<((), nat), DecodeError>(
                ((), Self::value_bytes(v).len()),
            ),
    ;

    fn encode_value<W: PbWrite>(&self, encoder: &mut PbEncoder<W>, v: Self::Value) -> (r: Result<(), W::Error>)
        ensures
            old(encoder).emits(final(encoder), r, Self::value_bytes(v)),
    ;

    /// The number of bytes that `encode_value` writes for `v`.
    fn value_size(&self, v: Self::Value) -> (r: usize)
        ensures
            r == Self::value_bytes(v).len(),
            r <= 10,
    ;
}

/// The payload of a packed field: the values' bytes one after another.
pub open spec fn packed_bytes<K: WireEncode>(vals: Seq<K::Value>) -> Seq<u8>
    decreases vals.len(),
{
    if vals.len() == 0 {
        Seq::empty()
    } else {
        K::value_bytes(vals[0]) + packed_bytes::<K>(vals.drop_first())
    }
}

/// One more value adds its bytes at the end of the payload.
pub proof fn lemma_packed_bytes_push<K: WireEncode>(vals: Seq<K::Value>, v: K::Value)
    ensures
        packed_bytes::<K>(vals.push(v)) == packed_bytes::<K>(vals) + K::value_bytes(v),
    decreases vals.len(),
{
    if vals.len() == 0 {
        assert(vals.push(v).drop_first() =~= Seq::<K::Value>::empty());
        assert(vals.push(v)[0] == v);
        assert(packed_bytes::<K>(vals) == Seq::<u8>::empty());
        assert(packed_bytes::<K>(Seq::<K::Value>::empty()) == Seq::<u8>::empty());
        assert(K::value_bytes(v) + Seq::<u8>::empty() =~= Seq::<u8>::empty() + K::value_bytes(v));
    } else {
        assert(vals.push(v).drop_first() =~= vals.drop_first().push(v));
        assert(vals.push(v)[0] == vals[0]);
        lemma_packed_bytes_push::<K>(vals.drop_first(), v);
        assert(K::value_bytes(vals[0]) + (packed_bytes::<K>(vals.drop_first()) + K::value_bytes(v))
            =~= K::value_bytes(vals[0]) + packed_bytes::<K>(vals.drop_first()) + K::value_bytes(v));
    }
}

/// A singular field with implicit presence: nothing for a default value,
/// else its tag and its value.
pub open spec fn implicit_field_bytes<K: WireEncode>(field_num: u32, v: K::Value) -> Seq<u8>
    where K::Value: ImplicitPresence,
{
    if v.pb_is_default() {
        Seq::empty()
    } else {
        tag_bytes(Tag { field_num, wire_type: K::wire_type_spec() }) + K::value_bytes(v)
    }
}

/// A singular field with explicit presence: its tag and value when it holds
/// one, whatever the value.
pub open spec fn explicit_field_bytes<K: WireEncode>(field_num: u32, v: Option<K::Value>) -> Seq<u8> {
    match v {
        Some(x) => tag_bytes(Tag { field_num, wire_type: K::wire_type_spec() }) + K::value_bytes(x),
        None => Seq::empty(),
    }
}

/// The number of bytes that `encode_implicit_field` writes.
pub fn implicit_field_size<K: WireEncode>(kind: &K, field_num: u32, v: K::Value) -> (r: usize)
    where K::Value: ImplicitPresence,
    requires
        field_num < field_num_bound(),
    ensures
        r == implicit_field_bytes::<K>(field_num, v).len(),
{
    if !v.pb_is_present() {
        return 0;
    }
    let tag = Tag::from_parts(field_num, kind.wire_type());
    sizeof_tag(tag) + kind.value_size(v)
}

/// The size of a packed payload, without its length prefix.
pub fn packed_size<K: WireEncode>(kind: &K, vals: &[K::Value]) -> (r: usize)
    where K::Value: Copy,
    requires
        packed_bytes::<K>(vals@).len() <= usize::MAX,
    ensures
        r == packed_bytes::<K>(vals@).len(),
{
    let mut total: usize = 0;
    let mut i: usize = 0;
    while i < vals.len()
        invariant
            i <= vals@.len(),
            packed_bytes::<K>(vals@).len() <= usize::MAX,
            total == packed_bytes::<K>(vals@.take(i as int)).len(),
        decreases vals@.len() - i,
    {
        assert(vals@.take(i as int + 1) =~= vals@.take(i as int).push(vals@[i as int]));
        proof {
            lemma_packed_prefix_len::<K>(vals@, i as int + 1);
            lemma_packed_bytes_push::<K>(vals@.take(i as int), vals@[i as int]);
        }
        total = total + kind.value_size(vals[i]);
        i = i + 1;
    }
    assert(vals@.take(i as int) =~= vals@);
    total
}

/// A prefix of the values takes no more bytes than all of them.
proof fn lemma_packed_prefix_len<K: WireEncode>(vals: Seq<K::Value>, i: int)
    requires
        0 <= i <= vals.len(),
    ensures
        packed_bytes::<K>(vals.take(i)).len() <= packed_bytes::<K>(vals).len(),
    decreases vals.len() - i,
{
    if i < vals.len() {
        lemma_packed_prefix_len::<K>(vals, i + 1);
        assert(vals.take(i + 1) =~= vals.take(i).push(vals[i]));
        lemma_packed_bytes_push::<K>(vals.take(i), vals[i]);
    } else {
        assert(vals.take(i) =~= vals);
    }
}

/// A value below `2^32` takes at most five varint bytes; below `2^64`, ten.
pub proof fn lemma_varint_fits(n: nat)
    ensures
        varint_bytes(n).len() >= 1,
        n < pow32() ==> varint_bytes(n).len() <= 5,
        n < pow64() ==> varint_bytes(n).len() <= 10,
{
    lemma2_to64();
    lemma2_to64_rest();
    lemma_pow2_strictly_increases(32, 35);
    lemma_pow2_strictly_increases(64, 70);
    lemma_varint_bytes_len(n, 5);
    lemma_varint_bytes_len(n, 10);
}

/// A `uint32` varint reads back as written.
pub proof fn lemma_uint32_round_trip(v: u32, rest: Seq<u8>)
    ensures
        uint32_at(varint_bytes(v as nat) + rest) == Ok::<(u32, nat), DecodeError>(
            (v, varint_bytes(v as nat).len()),
        ),
        skip_varint_at(varint_bytes(v as nat) + rest) == Ok::<((), nat), DecodeError>(
            ((), varint_bytes(v as nat).len()),
        ),
{
    lemma_varint_fits(v as nat);
    lemma_varint_round_trip(v as nat, rest, 5);
    lemma_varint_round_trip(v as nat, rest, 10);
    lemma_small_mod(v as nat, pow32());
}

/// A `uint64` varint reads back as written.
pub proof fn lemma_uint64_round_trip(v: u64, rest: Seq<u8>)
    ensures
        uint64_at(varint_bytes(v as nat) + rest) == Ok::<(u64, nat), DecodeError>(
            (v, varint_bytes(v as nat).len()),
        ),
        skip_varint_at(varint_bytes(v as nat) + rest) == Ok::<((), nat), DecodeError>(
            ((), varint_bytes(v as nat).len()),
        ),
{
    lemma_varint_fits(v as nat);
    lemma_varint_round_trip(v as nat, rest, 10);
    lemma_small_mod(v as nat, pow64());
}

/// Four little-endian bytes read back as the number they were written from.
pub proof fn lemma_fixed32_round_trip(v: u32, rest: Seq<u8>)
    ensures
        fixed32_at(le_bytes(v as nat, 4) + rest) == Ok::<(u32, nat), DecodeError>((v, 4)),
        le_bytes(v as nat, 4).len() == 4,
{
    reveal_with_fuel(le_bytes, 5);
    let s = le_bytes(v as nat, 4) + rest;
    let w = v as u64;
    assert(w % 256 + (w / 256) % 256 * 0x100 + (w / 256 / 256) % 256 * 0x1_0000 + (w / 256 / 256 / 256)
        % 256 * 0x100_0000 == w) by (bit_vector)
        requires
            w < 0x1_0000_0000,
    ;
    assert(le32(s) == v);
}

/// Eight little-endian bytes read back as the number they were written from.
pub proof fn lemma_fixed64_round_trip(v: u64, rest: Seq<u8>)
    ensures
        fixed64_at(le_bytes(v as nat, 8) + rest) == Ok::<(u64, nat), DecodeError>((v, 8)),
        le_bytes(v as nat, 8).len() == 8,
{
    reveal_with_fuel(le_bytes, 9);
    let s = le_bytes(v as nat, 8) + rest;
    let lo = v % 0x1_0000_0000;
    let hi = v / 0x1_0000_0000;
    assert(v / 256 / 256 / 256 / 256 == hi && v == lo + hi * 0x1_0000_0000) by (bit_vector)
        requires
            lo == v % 0x1_0000_0000,
            hi == v / 0x1_0000_0000,
    ;
    assert(lo % 256 + (lo / 256) % 256 * 0x100 + (lo / 256 / 256) % 256 * 0x1_0000 + (lo / 256 / 256 / 256)
        % 256 * 0x100_0000 == lo) by (bit_vector)
        requires
            lo < 0x1_0000_0000,
    ;
    assert(hi % 256 + (hi / 256) % 256 * 0x100 + (hi / 256 / 256) % 256 * 0x1_0000 + (hi / 256 / 256 / 256)
        % 256 * 0x100_0000 == hi) by (bit_vector)
        requires
            hi < 0x1_0000_0000,
    ;
    assert(v % 256 == lo % 256 && v / 256 % 256 == lo / 256 % 256 && v / 256 / 256 % 256 == lo / 256 / 256 % 256
        && v / 256 / 256 / 256 % 256 == lo / 256 / 256 / 256 % 256) by (bit_vector)
        requires
            lo == v % 0x1_0000_0000,
    ;
    assert(s.skip(4)[0] == s[4] && s.skip(4)[1] == s[5] && s.skip(4)[2] == s[6] && s.skip(4)[3] == s[7]);
    assert(le64(s) == v);
}

/// The ZigZag form of a 32-bit value.
pub fn zigzag32(v: i32) -> (r: u32)
    ensures
        r == zigzag_encode(v as int),
{
    if v >= 0 {
        (v as u32) * 2
    } else {
        ((-(v as i64)) * 2 - 1) as u32
    }
}

/// The ZigZag form of a 64-bit value.
pub fn zigzag64(v: i64) -> (r: u64)
    ensures
        r == zigzag_encode(v as int),
{
    if v >= 0 {
        (v as u64) * 2
    } else {
        ((-(v as i128)) * 2 - 1) as u64
    }
}

/// The number of bytes of the varint of `v`.
pub fn sizeof_varint64(v: u64) -> (r: usize)
    ensures
        r == varint_bytes(v as nat).len(),
        1 <= r <= 10,
{
    proof {
        lemma_varint_fits(v as nat);
    }
    let mut n: u64 = v;
    let mut len: usize = 1;
    while n >= 0x80
        invariant
            len >= 1,
            len - 1 + varint_bytes(n as nat).len() == varint_bytes(v as nat).len(),
            varint_bytes(v as nat).len() <= 10,
        decreases n,
    {
        assert(n >> 7 == n / 128) by (bit_vector);
        proof {
            lemma_varint_fits((n / 128) as nat);
        }
        n = n >> 7;
        len = len + 1;
    }
    len
}

pub fn sizeof_varint32(v: u32) -> (r: usize)
    ensures
        r == varint_bytes(v as nat).len(),
        1 <= r <= 5,
{
    proof {
        lemma_varint_fits(v as nat);
    }
    sizeof_varint64(v as u64)
}

pub fn sizeof_int32(v: i32) -> (r: usize)
    ensures
        r == int32_bytes(v).len(),
        r <= 10,
{
    sizeof_varint64(v as i64 as u64)
}

pub fn sizeof_sint32(v: i32) -> (r: usize)
    ensures
        r == varint_bytes(zigzag_encode(v as int) as nat).len(),
        r <= 10,
{
    sizeof_varint32(zigzag32(v))
}

pub fn sizeof_sint64(v: i64) -> (r: usize)
    ensures
        r == varint_bytes(zigzag_encode(v as int) as nat).len(),
        r <= 10,
{
    sizeof_varint64(zigzag64(v))
}

/// The number of bytes of a tag.
pub fn sizeof_tag(tag: Tag) -> (r: usize)
    requires
        tag.wf(),
    ensures
        r == tag_bytes(tag).len(),
        r <= 5,
{
    sizeof_varint32(tag.varint())
}

/// The number of bytes of a length-delimited record whose payload takes `len`
/// bytes: the length prefix and the payload.
pub fn sizeof_len_record(len: usize) -> (r: usize)
    requires
        len <= u32::MAX,
        varint_bytes(len as nat).len() + len <= usize::MAX,
    ensures
        r == varint_bytes(len as nat).len() + len,
{
    sizeof_varint32(len as u32) + len
}

/// Encodes values onto a writer.
pub struct PbEncoder<W> {
    writer: W,
}

impl<W: PbWrite> PbEncoder<W> {
    pub closed spec fn written(&self) -> Seq<u8> {
        self.writer.written()
    }

    pub closed spec fn max_len(&self) -> Option<nat> {
        self.writer.max_len()
    }

    pub fn new(writer: W) -> (r: Self)
        ensures
            r.written() == writer.written(),
            r.max_len() == writer.max_len(),
    {
        PbEncoder { writer }
    }

    pub fn into_writer(self) -> (r: W)
        ensures
            r.written() == self.written(),
    {
        self.writer
    }

    pub fn as_writer(&self) -> (r: &W)
        ensures
            r.written() == self.written(),
    {
        &self.writer
    }

    /// Appends `b`, succeeding whenever the writer has room for it; what the
    /// writer holds after a failure is its own affair.
    pub open spec fn emits(&self, next: &Self, r: Result<(), W::Error>, b: Seq<u8>) -> bool {
        &&& next.max_len() == self.max_len()
        &&& fits(self.max_len(), self.written().len() + b.len()) ==> r is Ok
        &&& r is Ok ==> next.written() == self.written() + b
    }

    pub fn encode_varint64(&mut self, v: u64) -> (r: Result<(), W::Error>)
        ensures
            old(self).emits(final(self), r, varint_bytes(v as nat)),
    {
        let mut buf: Vec<u8> = Vec::new();
        let mut n: u64 = v;
        while n >= 0x80
            invariant
                buf@ + varint_bytes(n as nat) == varint_bytes(v as nat),
            decreases n,
        {
            let b = ((n & 0x7F) | 0x80) as u8;
            assert(((n & 0x7F) | 0x80) as u8 == n % 128 + 128 && n >> 7 == n / 128) by (bit_vector)
                requires
                    n >= 0x80,
            ;
            let ghost old_buf = buf@;
            let ghost old_n = n;
            buf.push(b);
            n = n >> 7;
            assert(varint_bytes(old_n as nat) == seq![b] + varint_bytes(n as nat));
            assert(buf@ + varint_bytes(n as nat) =~= old_buf + (seq![b] + varint_bytes(n as nat)));
        }
        buf.push(n as u8);
        assert(buf@ =~= varint_bytes(v as nat));
        self.writer.pb_write(buf.as_slice())
    }

    pub fn encode_varint32(&mut self, v: u32) -> (r: Result<(), W::Error>)
        ensures
            old(self).emits(final(self), r, varint_bytes(v as nat)),
    {
        self.encode_varint64(v as u64)
    }
    pub fn encode_int64(&mut self, v: i64) -> (r: Result<(), W::Error>)
        ensures
            old(self).emits(final(self), r, int64_bytes(v)),
    {
        self.encode_varint64(v as u64)
    }

    /// A negative `int32` takes ten bytes: it is written sign-extended.
    pub fn encode_int32(&mut self, v: i32) -> (r: Result<(), W::Error>)
        ensures
            old(self).emits(final(self), r, int32_bytes(v)),
    {
        self.encode_varint64(v as i64 as u64)
    }

    pub fn encode_sint32(&mut self, v: i32) -> (r: Result<(), W::Error>)
        ensures
            old(self).emits(final(self), r, varint_bytes(zigzag_encode(v as int) as nat)),
    {
        self.encode_varint32(zigzag32(v))
    }

    pub fn encode_sint64(&mut self, v: i64) -> (r: Result<(), W::Error>)
        ensures
            old(self).emits(final(self), r, varint_bytes(zigzag_encode(v as int) as nat)),
    {
        self.encode_varint64(zigzag64(v))
    }

    pub fn encode_bool(&mut self, v: bool) -> (r: Result<(), W::Error>)
        ensures
            old(self).emits(final(self), r, bool_bytes(v)),
    {
        self.encode_varint64(if v { 1 } else { 0 })
    }

    /// Writes the low `width` bytes of `v`, least significant first.
    fn encode_le(&mut self, v: u64, width: usize) -> (r: Result<(), W::Error>)
        requires
            width <= 8,
        ensures
            old(self).emits(final(self), r, le_bytes(v as nat, width as nat)),
    {
        let mut buf: Vec<u8> = Vec::new();
        let mut u: u64 = v;
        let mut i: usize = 0;
        while i < width
            invariant
                i <= width,
                buf@ + le_bytes(u as nat, (width - i) as nat) == le_bytes(v as nat, width as nat),
            decreases width - i,
        {
            let ghost old_buf = buf@;
            let ghost old_u = u;
            let b = (u % 256) as u8;
            buf.push(b);
            u = u / 256;
            i = i + 1;
            assert(le_bytes(old_u as nat, (width - i + 1) as nat) == seq![b] + le_bytes(u as nat, (width - i) as nat));
            assert(buf@ + le_bytes(u as nat, (width - i) as nat) =~= old_buf + (seq![b] + le_bytes(u as nat, (width - i) as nat)));
        }
        assert(buf@ =~= le_bytes(v as nat, width as nat));
        self.writer.pb_write(buf.as_slice())
    }

    pub fn encode_fixed32(&mut self, v: u32) -> (r: Result<(), W::Error>)
        ensures
            old(self).emits(final(self), r, le_bytes(v as nat, 4)),
    {
        self.encode_le(v as u64, 4)
    }

    pub fn encode_fixed64(&mut self, v: u64) -> (r: Result<(), W::Error>)
        ensures
            old(self).emits(final(self), r, le_bytes(v as nat, 8)),
    {
        self.encode_le(v, 8)
    }

    pub fn encode_sfixed32(&mut self, v: i32) -> (r: Result<(), W::Error>)
        ensures
            old(self).emits(final(self), r, le_bytes((v as u32) as nat, 4)),
    {
        self.encode_le(v as u32 as u64, 4)
    }

    pub fn encode_sfixed64(&mut self, v: i64) -> (r: Result<(), W::Error>)
        ensures
            old(self).emits(final(self), r, le_bytes((v as u64) as nat, 8)),
    {
        self.encode_le(v as u64, 8)
    }

    pub fn encode_tag(&mut self, tag: Tag) -> (r: Result<(), W::Error>)
        requires
            tag.wf(),
        ensures
            old(self).emits(final(self), r, tag_bytes(tag)),
    {
        self.encode_varint32(tag.varint())
    }

    /// Writes a length prefix, then the bytes.
    pub fn encode_bytes(&mut self, b: &[u8]) -> (r: Result<(), W::Error>)
        requires
            b@.len() <= u32::MAX,
        ensures
            old(self).emits(final(self), r, len_delimited(b@)),
    {
        match self.encode_varint32(b.len() as u32) {
            Ok(()) => {},
            Err(e) => return Err(e),
        }
        let r = self.writer.pb_write(b);
        assert(old(self).written() + varint_bytes(b@.len()) + b@ =~= old(self).written() + len_delimited(b@));
        r
    }

    /// Writes a length prefix, then the UTF-8 bytes of `s`.
    pub fn encode_string(&mut self, s: &str) -> (r: Result<(), W::Error>)
        requires
            s.spec_bytes().len() <= u32::MAX,
        ensures
            old(self).emits(final(self), r, len_delimited(s.spec_bytes())),
    {
        self.encode_bytes(s.as_bytes())
    }

    /// Writes a packed repeated field's payload with its length prefix: the
    /// values one after another, with no tag between them.
    pub fn encode_packed<K: WireEncode>(&mut self, kind: &K, vals: &[K::Value]) -> (r: Result<(), W::Error>)
        where K::Value: Copy,
        requires
            packed_bytes::<K>(vals@).len() <= u32::MAX,
        ensures
            old(self).emits(final(self), r, len_delimited(packed_bytes::<K>(vals@))),
    {
        let len = packed_size(kind, vals);
        match self.encode_varint32(len as u32) {
            Ok(()) => {},
            Err(e) => return Err(e),
        }
        let ghost start = self.written();
        let mut i: usize = 0;
        while i < vals.len()
            invariant
                i <= vals@.len(),
                self.written() == start + packed_bytes::<K>(vals@.take(i as int)),
                self.max_len() == old(self).max_len(),
                start == old(self).written() + varint_bytes(len as nat),
                len == packed_bytes::<K>(vals@).len(),
            decreases vals@.len() - i,
        {
            proof {
                lemma_packed_prefix_len::<K>(vals@, i as int + 1);
                assert(vals@.take(i as int + 1) =~= vals@.take(i as int).push(vals@[i as int]));
                lemma_packed_bytes_push::<K>(vals@.take(i as int), vals@[i as int]);
            }
            match kind.encode_value(self, vals[i]) {
                Ok(()) => {},
                Err(e) => return Err(e),
            }
            assert(vals@.take(i as int + 1) =~= vals@.take(i as int).push(vals@[i as int]));
            proof {
                lemma_packed_bytes_push::<K>(vals@.take(i as int), vals@[i as int]);
            }
            i = i + 1;
            assert(self.written() =~= start + packed_bytes::<K>(vals@.take(i as int)));
        }
        assert(vals@.take(i as int) =~= vals@);
        assert(old(self).written() + varint_bytes(len as nat) + packed_bytes::<K>(vals@) =~= old(self).written() + len_delimited(packed_bytes::<K>(vals@)));
        Ok(())
    }

    /// Writes a singular field with implicit presence: its tag and value, or
    /// nothing at all when the value is its type's default.
    pub fn encode_implicit_field<K: WireEncode>(&mut self, kind: &K, field_num: u32, v: K::Value) -> (r: Result<(), W::Error>)
        where K::Value: ImplicitPresence,
        requires
            field_num < field_num_bound(),
        ensures
            old(self).emits(final(self), r, implicit_field_bytes::<K>(field_num, v)),
    {
        if !v.pb_is_present() {
            assert(old(self).written() + Seq::<u8>::empty() =~= old(self).written());
            return Ok(());
        }
        let w = kind.wire_type();
        let tag = Tag::from_parts(field_num, w);
        match self.encode_tag(tag) {
            Ok(()) => {},
            Err(e) => return Err(e),
        }
        let r = kind.encode_value(self, v);
        assert(old(self).written() + tag_bytes(tag) + K::value_bytes(v) =~= old(self).written() + (tag_bytes(tag) + K::value_bytes(v)));
        r
    }

    /// Writes a singular field with explicit presence: its tag and value
    /// whenever it holds one, the default included.
    pub fn encode_explicit_field<K: WireEncode>(&mut self, kind: &K, field_num: u32, v: Option<K::Value>) -> (r: Result<(), W::Error>)
        requires
            field_num < field_num_bound(),
        ensures
            old(self).emits(final(self), r, explicit_field_bytes::<K>(field_num, v)),
    {
        match v {
            None => {
                assert(old(self).written() + Seq::<u8>::empty() =~= old(self).written());
                Ok(())
            },
            Some(v) => {
                let tag = Tag::from_parts(field_num, kind.wire_type());
                match self.encode_tag(tag) {
                    Ok(()) => {},
                    Err(e) => return Err(e),
                }
                let r = kind.encode_value(self, v);
                assert(old(self).written() + tag_bytes(tag) + K::value_bytes(v) =~= old(self).written() + (tag_bytes(tag) + K::value_bytes(v)));
                r
            },
        }
    }

    /// Writes a string field with implicit presence: nothing when it is empty.
    pub fn encode_implicit_string(&mut self, field_num: u32, s: &str) -> (r: Result<(), W::Error>)
        requires
            field_num < field_num_bound(),
            s.spec_bytes().len() <= u32::MAX,
        ensures
            old(self).emits(final(self), r, if s.spec_bytes().len() == 0 {
                Seq::<u8>::empty()
            } else {
                tag_bytes(Tag { field_num, wire_type: WIRE_TYPE_LEN }) + len_delimited(s.spec_bytes())
            }),
    {
        if !s.pb_is_present() {
            assert(old(self).written() + Seq::<u8>::empty() =~= old(self).written());
            return Ok(());
        }
        let tag = Tag::from_parts(field_num, WIRE_TYPE_LEN);
        match self.encode_tag(tag) {
            Ok(()) => {},
            Err(e) => return Err(e),
        }
        let r = self.encode_string(s);
        assert(old(self).written() + tag_bytes(tag) + len_delimited(s.spec_bytes()) =~= old(self).written() + (tag_bytes(tag) + len_delimited(s.spec_bytes())));
        r
    }
}

impl WireEncode for Uint32 {
    open spec fn value_bytes(v: u32) -> Seq<u8> {
        varint_bytes(v as nat)
    }

    open spec fn wire_type_spec() -> u8 {
        WIRE_TYPE_VARINT
    }

    fn wire_type(&self) -> (r: u8) {
        WIRE_TYPE_VARINT
    }

    proof fn lemma_round_trip(v: u32, rest: Seq<u8>) {
        lemma_uint32_round_trip(v, rest);
    }

    proof fn lemma_wire_type_bound() {
    }

    proof fn lemma_skip(v: u32, rest: Seq<u8>) {
        lemma_uint32_round_trip(v, rest);
    }

    fn encode_value<W: PbWrite>(&self, encoder: &mut PbEncoder<W>, v: u32) -> (r: Result<(), W::Error>) {
        encoder.encode_varint32(v)
    }

    fn value_size(&self, v: u32) -> (r: usize) {
        sizeof_varint32(v)
    }
}

impl WireEncode for Uint64 {
    open spec fn value_bytes(v: u64) -> Seq<u8> {
        varint_bytes(v as nat)
    }

    open spec fn wire_type_spec() -> u8 {
        WIRE_TYPE_VARINT
    }

    fn wire_type(&self) -> (r: u8) {
        WIRE_TYPE_VARINT
    }

    proof fn lemma_round_trip(v: u64, rest: Seq<u8>) {
        lemma_uint64_round_trip(v, rest);
    }

    proof fn lemma_wire_type_bound() {
    }

    proof fn lemma_skip(v: u64, rest: Seq<u8>) {
        lemma_uint64_round_trip(v, rest);
    }

    fn encode_value<W: PbWrite>(&self, encoder: &mut PbEncoder<W>, v: u64) -> (r: Result<(), W::Error>) {
        encoder.encode_varint64(v)
    }

    fn value_size(&self, v: u64) -> (r: usize) {
        sizeof_varint64(v)
    }
}

impl WireEncode for Int32 {
    open spec fn value_bytes(v: i32) -> Seq<u8> {
        int32_bytes(v)
    }

    open spec fn wire_type_spec() -> u8 {
        WIRE_TYPE_VARINT
    }

    fn wire_type(&self) -> (r: u8) {
        WIRE_TYPE_VARINT
    }

    proof fn lemma_round_trip(v: i32, rest: Seq<u8>) {
        lemma_uint64_round_trip(v as i64 as u64, rest);
        assert(((v as i64 as u64) as i64) as i32 == v) by (bit_vector);
    }

    proof fn lemma_wire_type_bound() {
    }

    proof fn lemma_skip(v: i32, rest: Seq<u8>) {
        lemma_uint64_round_trip(v as i64 as u64, rest);
    }

    fn encode_value<W: PbWrite>(&self, encoder: &mut PbEncoder<W>, v: i32) -> (r: Result<(), W::Error>) {
        encoder.encode_int32(v)
    }

    fn value_size(&self, v: i32) -> (r: usize) {
        sizeof_int32(v)
    }
}

impl WireEncode for Int64 {
    open spec fn value_bytes(v: i64) -> Seq<u8> {
        int64_bytes(v)
    }

    open spec fn wire_type_spec() -> u8 {
        WIRE_TYPE_VARINT
    }

    fn wire_type(&self) -> (r: u8) {
        WIRE_TYPE_VARINT
    }

    proof fn lemma_round_trip(v: i64, rest: Seq<u8>) {
        lemma_uint64_round_trip(v as u64, rest);
        assert((v as u64) as i64 == v) by (bit_vector);
    }

    proof fn lemma_wire_type_bound() {
    }

    proof fn lemma_skip(v: i64, rest: Seq<u8>) {
        lemma_uint64_round_trip(v as u64, rest);
    }

    fn encode_value<W: PbWrite>(&self, encoder: &mut PbEncoder<W>, v: i64) -> (r: Result<(), W::Error>) {
        encoder.encode_int64(v)
    }

    fn value_size(&self, v: i64) -> (r: usize) {
        sizeof_varint64(v as u64)
    }
}

impl WireEncode for Sint32 {
    open spec fn value_bytes(v: i32) -> Seq<u8> {
        varint_bytes(zigzag_encode(v as int) as nat)
    }

    open spec fn wire_type_spec() -> u8 {
        WIRE_TYPE_VARINT
    }

    fn wire_type(&self) -> (r: u8) {
        WIRE_TYPE_VARINT
    }

    proof fn lemma_round_trip(v: i32, rest: Seq<u8>) {
        let z = zigzag_encode(v as int);
        lemma_uint32_round_trip(z as u32, rest);
    }

    proof fn lemma_wire_type_bound() {
    }

    proof fn lemma_skip(v: i32, rest: Seq<u8>) {
        let z = zigzag_encode(v as int);
        lemma_uint32_round_trip(z as u32, rest);
    }

    fn encode_value<W: PbWrite>(&self, encoder: &mut PbEncoder<W>, v: i32) -> (r: Result<(), W::Error>) {
        encoder.encode_sint32(v)
    }

    fn value_size(&self, v: i32) -> (r: usize) {
        sizeof_sint32(v)
    }
}

impl WireEncode for Sint64 {
    open spec fn value_bytes(v: i64) -> Seq<u8> {
        varint_bytes(zigzag_encode(v as int) as nat)
    }

    open spec fn wire_type_spec() -> u8 {
        WIRE_TYPE_VARINT
    }

    fn wire_type(&self) -> (r: u8) {
        WIRE_TYPE_VARINT
    }

    proof fn lemma_round_trip(v: i64, rest: Seq<u8>) {
        let z = zigzag_encode(v as int);
        lemma_uint64_round_trip(z as u64, rest);
    }

    proof fn lemma_wire_type_bound() {
    }

    proof fn lemma_skip(v: i64, rest: Seq<u8>) {
        let z = zigzag_encode(v as int);
        lemma_uint64_round_trip(z as u64, rest);
    }

    fn encode_value<W: PbWrite>(&self, encoder: &mut PbEncoder<W>, v: i64) -> (r: Result<(), W::Error>) {
        encoder.encode_sint64(v)
    }

    fn value_size(&self, v: i64) -> (r: usize) {
        sizeof_sint64(v)
    }
}

impl WireEncode for Bool {
    open spec fn value_bytes(v: bool) -> Seq<u8> {
        bool_bytes(v)
    }

    open spec fn wire_type_spec() -> u8 {
        WIRE_TYPE_VARINT
    }

    fn wire_type(&self) -> (r: u8) {
        WIRE_TYPE_VARINT
    }

    proof fn lemma_round_trip(v: bool, rest: Seq<u8>) {
        let b: u64 = if v {
            1
        } else {
            0
        };
        lemma_uint64_round_trip(b, rest);
    }

    proof fn lemma_wire_type_bound() {
    }

    proof fn lemma_skip(v: bool, rest: Seq<u8>) {
        let b: u64 = if v {
            1
        } else {
            0
        };
        lemma_uint64_round_trip(b, rest);
    }

    fn encode_value<W: PbWrite>(&self, encoder: &mut PbEncoder<W>, v: bool) -> (r: Result<(), W::Error>) {
        encoder.encode_bool(v)
    }

    fn value_size(&self, v: bool) -> (r: usize) {
        1
    }
}

impl WireEncode for Fixed32 {
    open spec fn value_bytes(v: u32) -> Seq<u8> {
        le_bytes(v as nat, 4)
    }

    open spec fn wire_type_spec() -> u8 {
        WIRE_TYPE_I32
    }

    fn wire_type(&self) -> (r: u8) {
        WIRE_TYPE_I32
    }

    proof fn lemma_round_trip(v: u32, rest: Seq<u8>) {
        lemma_fixed32_round_trip(v, rest);
    }

    proof fn lemma_wire_type_bound() {
    }

    proof fn lemma_skip(v: u32, rest: Seq<u8>) {
        lemma_fixed32_round_trip(v, rest);
    }

    fn encode_value<W: PbWrite>(&self, encoder: &mut PbEncoder<W>, v: u32) -> (r: Result<(), W::Error>) {
        encoder.encode_fixed32(v)
    }

    fn value_size(&self, v: u32) -> (r: usize) {
        proof {
            lemma_fixed32_round_trip(v, Seq::empty());
        }
        4
    }
}

impl WireEncode for Fixed64 {
    open spec fn value_bytes(v: u64) -> Seq<u8> {
        le_bytes(v as nat, 8)
    }

    open spec fn wire_type_spec() -> u8 {
        WIRE_TYPE_I64
    }

    fn wire_type(&self) -> (r: u8) {
        WIRE_TYPE_I64
    }

    proof fn lemma_round_trip(v: u64, rest: Seq<u8>) {
        lemma_fixed64_round_trip(v, rest);
    }

    proof fn lemma_wire_type_bound() {
    }

    proof fn lemma_skip(v: u64, rest: Seq<u8>) {
        lemma_fixed64_round_trip(v, rest);
    }

    fn encode_value<W: PbWrite>(&self, encoder: &mut PbEncoder<W>, v: u64) -> (r: Result<(), W::Error>) {
        encoder.encode_fixed64(v)
    }

    fn value_size(&self, v: u64) -> (r: usize) {
        proof {
            lemma_fixed64_round_trip(v, Seq::empty());
        }
        8
    }
}

impl WireEncode for Sfixed32 {
    open spec fn value_bytes(v: i32) -> Seq<u8> {
        le_bytes((v as u32) as nat, 4)
    }

    open spec fn wire_type_spec() -> u8 {
        WIRE_TYPE_I32
    }

    fn wire_type(&self) -> (r: u8) {
        WIRE_TYPE_I32
    }

    proof fn lemma_round_trip(v: i32, rest: Seq<u8>) {
        lemma_fixed32_round_trip(v as u32, rest);
        assert((v as u32) as i32 == v) by (bit_vector);
    }

    proof fn lemma_wire_type_bound() {
    }

    proof fn lemma_skip(v: i32, rest: Seq<u8>) {
        lemma_fixed32_round_trip(v as u32, rest);
    }

    fn encode_value<W: PbWrite>(&self, encoder: &mut PbEncoder<W>, v: i32) -> (r: Result<(), W::Error>) {
        encoder.encode_sfixed32(v)
    }

    fn value_size(&self, v: i32) -> (r: usize) {
        proof {
            lemma_fixed32_round_trip(v as u32, Seq::empty());
        }
        4
    }
}

impl WireEncode for Sfixed64 {
    open spec fn value_bytes(v: i64) -> Seq<u8> {
        le_bytes((v as u64) as nat, 8)
    }

    open spec fn wire_type_spec() -> u8 {
        WIRE_TYPE_I64
    }

    fn wire_type(&self) -> (r: u8) {
        WIRE_TYPE_I64
    }

    proof fn lemma_round_trip(v: i64, rest: Seq<u8>) {
        lemma_fixed64_round_trip(v as u64, rest);
        assert((v as u64) as i64 == v) by (bit_vector);
    }

    proof fn lemma_wire_type_bound() {
    }

    proof fn lemma_skip(v: i64, rest: Seq<u8>) {
        lemma_fixed64_round_trip(v as u64, rest);
    }

    fn encode_value<W: PbWrite>(&self, encoder: &mut PbEncoder<W>, v: i64) -> (r: Result<(), W::Error>) {
        encoder.encode_sfixed64(v)
    }

    fn value_size(&self, v: i64) -> (r: usize) {
        proof {
            lemma_fixed64_round_trip(v as u64, Seq::empty());
        }
        8
    }
}

} // verus!
