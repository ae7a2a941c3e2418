//! The 12-byte DNS message header: six 16-bit fields in network byte order.

use vstd::prelude::*;

verus! {

use crate::error::DnsError;
use crate::error::truncated_error;
use crate::wire::be16_at;
use crate::wire::be16_bytes;
use crate::wire::lemma_be16_round_trip;
use crate::wire::read_u16;
use crate::wire::write_u16;

/// The header of a DNS message: identification, flag bits, and the entry
/// counts of the four sections that follow it, in wire order.
#[derive(Debug, Clone, Copy, PartialEq, Eq, Structural)]
pub struct DnsHeader {
    /// Packet identifier used to match queries with responses.
    pub id: u16,
    /// Flag bits (QR, Opcode, AA, TC, RD, RA, Z) and the response code in
    /// the low four bits.
    pub flags: u16,
    /// Number of entries in the question section.
    pub question_count: u16,
    /// Number of resource records in the answer section.
    pub answer_count: u16,
    /// Number of name-server records in the authority section.
    pub authority_count: u16,
    /// Number of resource records in the additional section.
    pub additional_count: u16,
}

/// The 4-bit response code carried in the low bits of the header flags.
#[derive(Debug, PartialEq, Eq, Clone, Copy, Structural)]
pub enum ResponseCode {
    /// Code 0: the query completed successfully.
    NoError,
    /// Code 1: the server could not interpret the query.
    FormatError,
    /// Code 2: the server failed internally; also the defensive default for
    /// the codes 6 through 15, which the protocol leaves unassigned.
    ServerFailure,
    /// Code 3: the queried name does not exist (NXDOMAIN).
    NameError,
    /// Code 4: the server does not support the requested operation.
    NotImplemented,
    /// Code 5: the server refused to answer for policy reasons.
    Refused,
}

/// The twelve bytes of `h` in wire order.
pub open spec fn header_bytes(h: DnsHeader) -> Seq<u8> {
    be16_bytes(h.id) + be16_bytes(h.flags) + be16_bytes(h.question_count) + be16_bytes(
        h.answer_count,
    ) + be16_bytes(h.authority_count) + be16_bytes(h.additional_count)
}

/// The header stored at offset `p` of `b` together with the offset just past
/// it, or `None` when fewer than twelve bytes remain.
pub open spec fn parse_header(b: Seq<u8>, p: int) -> Option<(DnsHeader, int)> {
    if 0 <= p && p + 12 <= b.len() {
        Some(
            (
                DnsHeader {
                    id: be16_at(b, p),
                    flags: be16_at(b, p + 2),
                    question_count: be16_at(b, p + 4),
                    answer_count: be16_at(b, p + 6),
                    authority_count: be16_at(b, p + 8),
                    additional_count: be16_at(b, p + 10),
                },
                p + 12,
            ),
        )
    } else {
        None
    }
}

/// The response code selected by the low four bits of `flags`; the values 6
/// through 15 fall back to `ServerFailure`.
pub open spec fn response_code_of(flags: u16) -> ResponseCode {
    let nibble = flags & 0x000F;
    if nibble == 0 {
        ResponseCode::NoError
    } else if nibble == 1 {
        ResponseCode::FormatError
    } else if nibble == 2 {
        ResponseCode::ServerFailure
    } else if nibble == 3 {
        ResponseCode::NameError
    } else if nibble == 4 {
        ResponseCode::NotImplemented
    } else if nibble == 5 {
        ResponseCode::Refused
    } else {
        ResponseCode::ServerFailure
    }
}

impl DnsHeader {
    /// A header with every field zero.
    pub fn new() -> (r: Self)
        ensures
            r == (DnsHeader {
                id: 0,
                flags: 0,
                question_count: 0,
                answer_count: 0,
                authority_count: 0,
                additional_count: 0,
            }),
    {
        DnsHeader {
            id: 0,
            flags: 0,
            question_count: 0,
            answer_count: 0,
            authority_count: 0,
            additional_count: 0,
        }
    }

    /// Appends the six fields as 16-bit big-endian values: always exactly
    /// twelve bytes.
    pub fn pack(&self, buffer: &mut Vec<u8>)
        ensures
            final(buffer)@ == old(buffer)@ + header_bytes(*self),
            final(buffer)@.len() == old(buffer)@.len() + 12,
    {
        write_u16(buffer, self.id);
        write_u16(buffer, self.flags);
        write_u16(buffer, self.question_count);
        write_u16(buffer, self.answer_count);
        write_u16(buffer, self.authority_count);
        write_u16(buffer, self.additional_count);
        assert(buffer@ =~= old(buffer)@ + header_bytes(*self));
    }

    /// Reads exactly twelve bytes at `pos`; fails when fewer remain.
    pub fn from_bytes(buf: &[u8], pos: usize) -> (r: Result<(Self, usize), DnsError>)
        ensures
            r is Ok <==> parse_header(buf@, pos as int) is Some,
            (r matches Ok((h, end)) ==> parse_header(buf@, pos as int) == Some(
                (h, end as int),
            )),
            (r matches Err(e) ==> e is InvalidResponse),
    {
        let (id, p1) = match read_u16(buf, pos) {
            Some(v) => v,
            None => {
                return Err(truncated_error());
            },
        };
        let (flags, p2) = match read_u16(buf, p1) {
            Some(v) => v,
            None => {
                return Err(truncated_error());
            },
        };
        let (question_count, p3) = match read_u16(buf, p2) {
            Some(v) => v,
            None => {
                return Err(truncated_error());
            },
        };
        let (answer_count, p4) = match read_u16(buf, p3) {
            Some(v) => v,
            None => {
                return Err(truncated_error());
            },
        };
        let (authority_count, p5) = match read_u16(buf, p4) {
            Some(v) => v,
            None => {
                return Err(truncated_error());
            },
        };
        let (additional_count, p6) = match read_u16(buf, p5) {
            Some(v) => v,
            None => {
                return Err(truncated_error());
            },
        };
        Ok(
            (
                DnsHeader {
                    id,
                    flags,
                    question_count,
                    answer_count,
                    authority_count,
                    additional_count,
                },
                p6,
            ),
        )
    }

    /// The response code carried in the low four bits of the flags.
    pub fn get_response_code(&self) -> (r: ResponseCode)
        ensures
            r == response_code_of(self.flags),
    {
        match self.flags & 0x000F {
            0 => ResponseCode::NoError,
            1 => ResponseCode::FormatError,
            2 => ResponseCode::ServerFailure,
            3 => ResponseCode::NameError,
            4 => ResponseCode::NotImplemented,
            5 => ResponseCode::Refused,
            _ => ResponseCode::ServerFailure,
        }
    }
}

/// Law: packing a header and then parsing the packed bytes returns the same
/// six field values, and the packed form is always exactly twelve bytes.
pub proof fn lemma_header_round_trip(h: DnsHeader, b: Seq<u8>, p: int)
    requires
        0 <= p,
        p + 12 <= b.len(),
        b.subrange(p, p + 12) == header_bytes(h),
    ensures
        header_bytes(h).len() == 12,
        parse_header(b, p) == Some((h, p + 12)),
{
    let hb = header_bytes(h);
    let s0 = be16_bytes(h.id);
    let s1 = be16_bytes(h.flags);
    let s2 = be16_bytes(h.question_count);
    let s3 = be16_bytes(h.answer_count);
    let s4 = be16_bytes(h.authority_count);
    let s5 = be16_bytes(h.additional_count);
    assert(hb =~= seq![
        s0[0], s0[1], s1[0], s1[1], s2[0], s2[1], s3[0], s3[1], s4[0], s4[1], s5[0], s5[1],
    ]);
    assert forall|i: int| 0 <= i < 12 implies b[p + i] == hb[i] by {
        assert(b.subrange(p, p + 12)[i] == b[p + i]);
    }
    assert(b.subrange(p, p + 2) =~= be16_bytes(h.id));
    assert(b.subrange(p + 2, p + 4) =~= be16_bytes(h.flags));
    assert(b.subrange(p + 4, p + 6) =~= be16_bytes(h.question_count));
    assert(b.subrange(p + 6, p + 8) =~= be16_bytes(h.answer_count));
    assert(b.subrange(p + 8, p + 10) =~= be16_bytes(h.authority_count));
    assert(b.subrange(p + 10, p + 12) =~= be16_bytes(h.additional_count));
    lemma_be16_round_trip(b, p, h.id);
    lemma_be16_round_trip(b, p + 2, h.flags);
    lemma_be16_round_trip(b, p + 4, h.question_count);
    lemma_be16_round_trip(b, p + 6, h.answer_count);
    lemma_be16_round_trip(b, p + 8, h.authority_count);
    lemma_be16_round_trip(b, p + 10, h.additional_count);
}

} // verus!
