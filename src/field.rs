//! The surface that generated message types implement, and the loop that
//! reads a message's fields within its byte budget.
use vstd::prelude::*;

use crate::decode::{len_slice_at, tag_at, DecodeError, PbReader};
use crate::encode::{PbEncoder, PbWrite};
use crate::wire::Tag;

verus! {

/// Per-field decoding, implemented by each message type.
pub trait FieldDecode {
    /// Reads the value of the field that `tag` introduces into the message.
    /// Returns `false`, having read nothing, when the message has no such
    /// field.
    fn decode_field<'a>(&mut self, tag: Tag, reader: &mut PbReader<'a>) -> (r: Result<bool, DecodeError>)
        requires
            old(reader).wf(),
        ensures
            final(reader).wf(),
            final(reader).input() == old(reader).input(),
            final(reader).rest().len() <= old(reader).rest().len(),
            r == Ok::<bool, DecodeError>(false) ==> final(reader).rest() == old(reader).rest(),
    ;
}

/// Per-field encoding, implemented by each message type.
pub trait FieldEncode {
    /// Writes the message's present fields in ascending field-number order.
    fn encode_field<W: PbWrite>(&self, encoder: &mut PbEncoder<W>) -> Result<(), W::Error>;

    /// The number of bytes that `encode_field` writes.
    fn compute_field_size(&self) -> usize;
}

/// Reads the fields of a message that takes the next `len` bytes: each tag is
/// offered to the message, and a field it does not know is skipped. No field
/// may run past the budget.
pub fn decode_message<'a, M: FieldDecode>(msg: &mut M, reader: &mut PbReader<'a>, len: usize) -> (r: Result<(), DecodeError>)
    requires
        old(reader).wf(),
    ensures
        final(reader).wf(),
        final(reader).input() == old(reader).input(),
        old(reader).rest().len() < len ==> r == Err::<(), DecodeError>(DecodeError::UnexpectedEof),
        old(reader).rest().len() >= len ==> final(reader).rest() == old(reader).rest().skip(len as int),
        old(reader).rest().len() >= len && len == 0 ==> r == Ok::<(), DecodeError>(()),
        old(reader).rest().len() >= len && len > 0 && tag_at(old(reader).rest().take(len as int)) is Err
            ==> r == Err::<(), DecodeError>(tag_at(old(reader).rest().take(len as int))->Err_0),
{
    let body = reader.decode_slice(len)?;
    let mut sub = PbReader::new(body);
    let ghost first = true;
    while sub.remaining() > 0
        invariant
            sub.wf(),
            body@ == old(reader).rest().take(len as int),
            first ==> sub.rest() == body@,
            !first ==> tag_at(body@) is Ok,
            reader.wf(),
            reader.input() == old(reader).input(),
            old(reader).rest().len() >= len,
            reader.rest() == old(reader).rest().skip(len as int),
        decreases sub.rest().len(),
    {
        let ghost before = sub.rest();
        proof {
            crate::varint::lemma_varint_len_bounds(before, 0, 5);
        }
        let tag = match sub.decode_tag() {
            Ok(t) => t,
            Err(e) => return Err(e),
        };
        proof {
            first = false;
        }
        assert(sub.rest().len() < before.len());
        let known = msg.decode_field(tag, &mut sub)?;
        if !known {
            proof {
                crate::decode::lemma_skip_len(sub.rest(), tag.wire_type);
            }
            sub.skip_wire_value(&tag)?;
        }
    }
    Ok(())
}

/// Reads a message that is framed by a length prefix.
pub fn decode_len_delimited<'a, M: FieldDecode>(msg: &mut M, reader: &mut PbReader<'a>) -> (r: Result<(), DecodeError>)
    requires
        old(reader).wf(),
    ensures
        final(reader).wf(),
        final(reader).input() == old(reader).input(),
        len_slice_at(old(reader).rest()) matches Err(e) ==> r == Err::<(), DecodeError>(e),
        len_slice_at(old(reader).rest()) matches Ok((b, n)) ==> final(reader).rest() == old(
            reader,
        ).rest().skip(n as int),
        len_slice_at(old(reader).rest()) matches Ok((b, n)) ==> (b.len() == 0 ==> r == Ok::<
            (),
            DecodeError,
        >(())),
        len_slice_at(old(reader).rest()) matches Ok((b, n)) ==> (b.len() > 0 && tag_at(b) is Err ==> r
            == Err::<(), DecodeError>(tag_at(b)->Err_0)),
{
    let ghost start = reader.rest();
    let len = reader.decode_uint32()?;
    let r = decode_message(msg, reader, len as usize);
    proof {
        crate::varint::lemma_varint_len_bounds(start, 0, 5);
        if let Ok((b, n)) = len_slice_at(start) {
            let m = crate::decode::uint32_at(start)->Ok_0.1;
            assert(start.skip(m as int).skip(len as int) =~= start.skip(n as int));
        }
    }
    r
}

} // verus!
