use vstd::prelude::*;

use crate::error::DnsError;
use crate::flags::{
    flags_byte2, flags_byte3, flags_in_range, flags_of, lemma_flags_round_trip, pack_flags,
    unpack_flags, Flags,
};
use crate::wire::{be16, lemma_be16_of_bytes, read_u16, splice, u16_bytes, write_u16};

verus! {

/// The fixed 12-byte header at the start of every DNS message.
#[derive(Debug, Clone, Copy, PartialEq, Eq, Structural)]
pub struct Header {
    pub id: u16,
    pub is_response: bool,
    /// Four bits wide.
    pub opcode: u8,
    pub authoritative: bool,
    pub truncated: bool,
    pub recursion_desired: bool,
    pub recursion_available: bool,
    /// Three bits wide.
    pub reserved: u8,
    /// Four bits wide.
    pub response_code: u8,
    pub question_count: u16,
    pub answer_count: u16,
    pub authority_count: u16,
    pub additional_count: u16,
}

/// The opcode of a standard query.
pub const OPCODE_QUERY: u8 = 0;

/// The response code that says an opcode is not implemented.
pub const RCODE_NOT_IMPLEMENTED: u8 = 4;

pub open spec fn header_flags(h: Header) -> Flags {
    Flags {
        is_response: h.is_response,
        opcode: h.opcode,
        authoritative: h.authoritative,
        truncated: h.truncated,
        recursion_desired: h.recursion_desired,
        recursion_available: h.recursion_available,
        reserved: h.reserved,
        response_code: h.response_code,
    }
}

/// Every sub-byte field fits its width on the wire.
pub open spec fn header_in_range(h: Header) -> bool {
    flags_in_range(header_flags(h))
}

/// The 12 bytes that encode a header.
pub open spec fn header_bytes(h: Header) -> Seq<u8> {
    u16_bytes(h.id) + seq![flags_byte2(header_flags(h)), flags_byte3(header_flags(h))]
        + u16_bytes(h.question_count) + u16_bytes(h.answer_count) + u16_bytes(h.authority_count)
        + u16_bytes(h.additional_count)
}

/// The header that the first 12 bytes of `b` encode.
pub open spec fn header_of(b: Seq<u8>) -> Header {
    let f = flags_of(b[2], b[3]);
    Header {
        id: be16(b[0], b[1]),
        is_response: f.is_response,
        opcode: f.opcode,
        authoritative: f.authoritative,
        truncated: f.truncated,
        recursion_desired: f.recursion_desired,
        recursion_available: f.recursion_available,
        reserved: f.reserved,
        response_code: f.response_code,
        question_count: be16(b[4], b[5]),
        answer_count: be16(b[6], b[7]),
        authority_count: be16(b[8], b[9]),
        additional_count: be16(b[10], b[11]),
    }
}

/// The header of the response to a query with header `q`: it keeps the id,
/// the opcode, the recursion-desired flag and the question count, expects one
/// answer per question, and answers "not implemented" to any opcode but a
/// standard query.
pub open spec fn response_header(q: Header) -> Header {
    Header {
        id: q.id,
        is_response: true,
        opcode: q.opcode,
        authoritative: false,
        truncated: false,
        recursion_desired: q.recursion_desired,
        recursion_available: false,
        reserved: 0,
        response_code: if q.opcode == OPCODE_QUERY { 0 } else { RCODE_NOT_IMPLEMENTED },
        question_count: q.question_count,
        answer_count: q.question_count,
        authority_count: 0,
        additional_count: 0,
    }
}

impl Header {
    /// Decodes a header from exactly 12 bytes. Every bit pattern is a header.
    pub fn from_buf(buf: &[u8]) -> (r: Result<Header, DnsError>)
        ensures
            buf@.len() != 12 ==> r == Err::<Header, DnsError>(DnsError::Length),
            buf@.len() == 12 ==> r == Ok::<Header, DnsError>(header_of(buf@)),
    {
        if buf.len() != 12 {
            return Err(DnsError::Length);
        }
        Ok(Header::read(buf))
    }

    /// Decodes the header in the first 12 bytes of `buf`.
    pub(crate) fn read(buf: &[u8]) -> (h: Header)
        requires
            buf@.len() >= 12,
        ensures
            h == header_of(buf@),
            header_in_range(h),
    {
        let f = unpack_flags(buf[2], buf[3]);
        Header {
            id: read_u16(buf, 0),
            is_response: f.is_response,
            opcode: f.opcode,
            authoritative: f.authoritative,
            truncated: f.truncated,
            recursion_desired: f.recursion_desired,
            recursion_available: f.recursion_available,
            reserved: f.reserved,
            response_code: f.response_code,
            question_count: read_u16(buf, 4),
            answer_count: read_u16(buf, 6),
            authority_count: read_u16(buf, 8),
            additional_count: read_u16(buf, 10),
        }
    }

    /// Encodes the header into exactly 12 bytes. A sub-byte field wider than
    /// its width is cut to its low bits.
    pub fn to_buf(&self, buf: &mut [u8]) -> (r: Result<(), DnsError>)
        ensures
            old(buf)@.len() != 12 ==> r == Err::<(), DnsError>(DnsError::Length) && final(buf)@
                == old(buf)@,
            old(buf)@.len() == 12 ==> r == Ok::<(), DnsError>(()) && final(buf)@ == header_bytes(
                *self,
            ),
    {
        if buf.len() != 12 {
            return Err(DnsError::Length);
        }
        self.write(buf);
        assert(buf@ =~= header_bytes(*self));
        Ok(())
    }

    /// Writes the 12 header bytes at the start of `buf`.
    pub(crate) fn write(&self, buf: &mut [u8])
        requires
            old(buf)@.len() >= 12,
        ensures
            final(buf)@ == splice(old(buf)@, 0, header_bytes(*self)),
    {
        let (b2, b3) = pack_flags(
            Flags {
                is_response: self.is_response,
                opcode: self.opcode,
                authoritative: self.authoritative,
                truncated: self.truncated,
                recursion_desired: self.recursion_desired,
                recursion_available: self.recursion_available,
                reserved: self.reserved,
                response_code: self.response_code,
            },
        );
        write_u16(buf, 0, self.id);
        buf[2] = b2;
        buf[3] = b3;
        write_u16(buf, 4, self.question_count);
        write_u16(buf, 6, self.answer_count);
        write_u16(buf, 8, self.authority_count);
        write_u16(buf, 10, self.additional_count);
        assert(buf@ =~= splice(old(buf)@, 0, header_bytes(*self)));
    }

    /// The header of the response to the query this header heads.
    pub fn response(&self) -> (r: Header)
        ensures
            r == response_header(*self),
    {
        Header {
            id: self.id,
            is_response: true,
            opcode: self.opcode,
            authoritative: false,
            truncated: false,
            recursion_desired: self.recursion_desired,
            recursion_available: false,
            reserved: 0,
            response_code: if self.opcode == OPCODE_QUERY { 0 } else { RCODE_NOT_IMPLEMENTED },
            question_count: self.question_count,
            answer_count: self.question_count,
            authority_count: 0,
            additional_count: 0,
        }
    }
}

/// Decoding an encoded header gives it back, for every header whose sub-byte
/// fields fit their widths.
pub proof fn lemma_header_round_trip(h: Header)
    requires
        header_in_range(h),
    ensures
        header_bytes(h).len() == 12,
        header_of(header_bytes(h)) == h,
{
    let b = header_bytes(h);
    lemma_flags_round_trip(header_flags(h));
    lemma_be16_of_bytes(h.id);
    lemma_be16_of_bytes(h.question_count);
    lemma_be16_of_bytes(h.answer_count);
    lemma_be16_of_bytes(h.authority_count);
    lemma_be16_of_bytes(h.additional_count);
    assert(b[0] == u16_bytes(h.id)[0] && b[1] == u16_bytes(h.id)[1]);
    assert(b[2] == flags_byte2(header_flags(h)) && b[3] == flags_byte3(header_flags(h)));
    assert(b[4] == u16_bytes(h.question_count)[0] && b[5] == u16_bytes(h.question_count)[1]);
    assert(b[6] == u16_bytes(h.answer_count)[0] && b[7] == u16_bytes(h.answer_count)[1]);
    assert(b[8] == u16_bytes(h.authority_count)[0] && b[9] == u16_bytes(h.authority_count)[1]);
    assert(b[10] == u16_bytes(h.additional_count)[0] && b[11] == u16_bytes(
        h.additional_count,
    )[1]);
}

/// A response keeps the query's id and question count and is marked as a
/// response.
pub proof fn lemma_response_keeps_query(q: Header)
    ensures
        response_header(q).is_response,
        response_header(q).id == q.id,
        response_header(q).question_count == q.question_count,
{
}

} // verus!
