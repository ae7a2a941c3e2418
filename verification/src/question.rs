//! Query types and the question section entry of a DNS message.

use vstd::prelude::*;

verus! {

use vstd::string::StringSliceAdditionalSpecFns;
use vstd::utf8::encode_utf8;
use crate::error::DnsError;
use crate::error::truncated_error;
use crate::name::labels_fit;
use crate::name::pack_domain_name;
use crate::name::parse_name;
use crate::name::name_wire;
use crate::name::split_labels;
use crate::name::unpack_domain_name;
use crate::name::wire_of_labels;
use crate::text::decodes_lossy;
use crate::wire::be16_at;
use crate::wire::be16_bytes;
use crate::wire::read_u16;
use crate::wire::write_u16;

/// The record types this codec understands, each with the numeric code that
/// names it on the wire.
#[derive(Debug, Clone, Copy, PartialEq, Eq, Hash, Structural)]
pub enum QueryType {
    /// IPv4 address record, code 1.
    A,
    /// IPv6 address record, code 28.
    AAAA,
    /// Canonical name record, code 5.
    CNAME,
    /// Mail exchange record, code 15.
    MX,
    /// Text record, code 16.
    TXT,
}

/// The numeric code of each supported record type.
pub open spec fn qtype_code(t: QueryType) -> u16 {
    match t {
        QueryType::A => 1,
        QueryType::AAAA => 28,
        QueryType::CNAME => 5,
        QueryType::MX => 15,
        QueryType::TXT => 16,
    }
}

/// The record type a numeric code names, when it is one of the five.
pub open spec fn qtype_of_code(value: u16) -> Option<QueryType> {
    if value == 1 {
        Some(QueryType::A)
    } else if value == 28 {
        Some(QueryType::AAAA)
    } else if value == 5 {
        Some(QueryType::CNAME)
    } else if value == 15 {
        Some(QueryType::MX)
    } else if value == 16 {
        Some(QueryType::TXT)
    } else {
        None
    }
}

/// The byte with ASCII lower-case letters raised to upper case.
pub open spec fn ascii_upper(b: u8) -> u8 {
    if 97 <= b <= 122 {
        (b - 32) as u8
    } else {
        b
    }
}

/// The byte string with every ASCII lower-case letter raised to upper case.
pub open spec fn upper_bytes(s: Seq<u8>) -> Seq<u8> {
    s.map_values(|b: u8| ascii_upper(b))
}

/// The record type a textual name selects, compared without regard to ASCII
/// case; `None` for anything but the five supported names.
pub open spec fn qtype_of_name(s: Seq<u8>) -> Option<QueryType> {
    let u = upper_bytes(s);
    if u == seq![65u8] {
        Some(QueryType::A)
    } else if u == seq![65u8, 65u8, 65u8, 65u8] {
        Some(QueryType::AAAA)
    } else if u == seq![67u8, 78u8, 65u8, 77u8, 69u8] {
        Some(QueryType::CNAME)
    } else if u == seq![77u8, 88u8] {
        Some(QueryType::MX)
    } else if u == seq![84u8, 88u8, 84u8] {
        Some(QueryType::TXT)
    } else {
        None
    }
}

impl QueryType {
    /// The numeric code of this record type on the wire.
    pub fn code(&self) -> (r: u16)
        ensures
            r == qtype_code(*self),
    {
        match self {
            QueryType::A => 1,
            QueryType::AAAA => 28,
            QueryType::CNAME => 5,
            QueryType::MX => 15,
            QueryType::TXT => 16,
        }
    }

    /// The record type named by a numeric code; fails on the codes this
    /// codec does not support.
    pub fn from_code(value: u16) -> (r: Result<Self, DnsError>)
        ensures
            r is Ok <==> qtype_of_code(value) is Some,
            (r matches Ok(t) ==> qtype_of_code(value) == Some(t)),
            (r matches Err(e) ==> e is InvalidResponse),
    {
        match value {
            1 => Ok(QueryType::A),
            28 => Ok(QueryType::AAAA),
            5 => Ok(QueryType::CNAME),
            15 => Ok(QueryType::MX),
            16 => Ok(QueryType::TXT),
            _ => Err(DnsError::InvalidResponse(String::from_str("unrecognized query type code"))),
        }
    }

    /// Parses a record type from its textual name, without regard to ASCII
    /// case; fails on anything but the five supported names.
    pub fn from_str(s: &str) -> (r: Result<Self, String>)
        ensures
            r is Ok <==> qtype_of_name(s.spec_bytes()) is Some,
            (r matches Ok(t) ==> qtype_of_name(s.spec_bytes()) == Some(t)),
    {
        let bytes = s.as_bytes();
        let mut up: Vec<u8> = Vec::new();
        let mut i: usize = 0;
        proof {
            assert(up@ =~= upper_bytes(bytes@.subrange(0, 0)));
        }
        while i < bytes.len()
            invariant
                i <= bytes@.len(),
                up@ == upper_bytes(bytes@.subrange(0, i as int)),
            decreases bytes@.len() - i,
        {
            let b = bytes[i];
            let u = if 97 <= b && b <= 122 {
                b - 32
            } else {
                b
            };
            up.push(u);
            proof {
                assert(up@ =~= upper_bytes(bytes@.subrange(0, i + 1)));
            }
            i = i + 1;
        }
        proof {
            assert(bytes@.subrange(0, bytes@.len() as int) =~= bytes@);
        }
        let ghost uu = upper_bytes(s.spec_bytes());
        if up.len() == 1 && up[0] == 65 {
            proof {
                assert(uu =~= seq![65u8]);
            }
            Ok(QueryType::A)
        } else if up.len() == 4 && up[0] == 65 && up[1] == 65 && up[2] == 65 && up[3] == 65 {
            proof {
                assert(uu =~= seq![65u8, 65u8, 65u8, 65u8]);
                assert(uu != seq![65u8]);
            }
            Ok(QueryType::AAAA)
        } else if up.len() == 5 && up[0] == 67 && up[1] == 78 && up[2] == 65 && up[3] == 77
            && up[4] == 69 {
            proof {
                assert(uu =~= seq![67u8, 78u8, 65u8, 77u8, 69u8]);
            }
            Ok(QueryType::CNAME)
        } else if up.len() == 2 && up[0] == 77 && up[1] == 88 {
            proof {
                assert(uu =~= seq![77u8, 88u8]);
                assert(uu != seq![65u8]);
            }
            Ok(QueryType::MX)
        } else if up.len() == 3 && up[0] == 84 && up[1] == 88 && up[2] == 84 {
            proof {
                assert(uu =~= seq![84u8, 88u8, 84u8]);
            }
            Ok(QueryType::TXT)
        } else {
            Err(String::from_str("unknown query type"))
        }
    }

    /// The standard textual name of this record type.
    pub fn text(&self) -> (r: &'static str)
        ensures
            r@ == qtype_text(*self),
    {
        match self {
            QueryType::A => "A",
            QueryType::AAAA => "AAAA",
            QueryType::CNAME => "CNAME",
            QueryType::MX => "MX",
            QueryType::TXT => "TXT",
        }
    }
}

/// The textual name of each record type.
pub open spec fn qtype_text(t: QueryType) -> Seq<char> {
    match t {
        QueryType::A => "A"@,
        QueryType::AAAA => "AAAA"@,
        QueryType::CNAME => "CNAME"@,
        QueryType::MX => "MX"@,
        QueryType::TXT => "TXT"@,
    }
}

/// One entry of the question section: what the query asks for.
#[derive(Debug, Clone)]
pub struct DnsQuestion {
    /// The domain name being queried, in dotted form.
    pub name: String,
    /// The type of record being requested.
    pub qtype: QueryType,
    /// The query class, 1 for the Internet class in practice.
    pub qclass: u16,
}

/// What the decoder learns about a question: its name in dotted byte form,
/// its type, and its class.
pub ghost struct QuestionModel {
    /// The domain name in dotted byte form.
    pub name: Seq<u8>,
    /// The record type asked for.
    pub qtype: QueryType,
    /// The query class.
    pub qclass: u16,
}

/// The wire form of a question whose dotted name has byte form `nb`.
pub open spec fn question_wire(nb: Seq<u8>, qtype: QueryType, qclass: u16) -> Seq<u8> {
    name_wire(nb) + be16_bytes(qtype_code(qtype)) + be16_bytes(qclass)
}

/// The question stored at offset `p` of `b` and the offset just past it:
/// a name, a type code that must be one of the five supported ones, and a
/// class.  `None` when bytes run out or the type code is unrecognized.
pub open spec fn parse_question(b: Seq<u8>, p: int) -> Option<(QuestionModel, int)> {
    match parse_name(b, p) {
        Some((nb, e)) => {
            if e + 4 <= b.len() {
                match qtype_of_code(be16_at(b, e)) {
                    Some(t) => Some(
                        (QuestionModel { name: nb, qtype: t, qclass: be16_at(b, e + 2) }, e + 4),
                    ),
                    None => None,
                }
            } else {
                None
            }
        },
        None => None,
    }
}

/// True when the decoded question `q` carries exactly what the model says:
/// the same type and class, and as its name the text of the model's bytes.
pub open spec fn question_matches(q: DnsQuestion, m: QuestionModel) -> bool {
    &&& decodes_lossy(q.name@, m.name)
    &&& q.qtype == m.qtype
    &&& q.qclass == m.qclass
}

impl DnsQuestion {
    /// Appends the wire form of this question: the encoded name, then the
    /// type code and the class, both 16-bit big-endian.  Fails exactly when
    /// the name has a label longer than 63 bytes.
    pub fn pack(&self, buffer: &mut Vec<u8>) -> (r: Result<(), String>)
        ensures
            ({
                let nb = encode_utf8(self.name@);
                &&& (r is Ok <==> labels_fit(split_labels(nb)))
                &&& (r is Ok ==> final(buffer)@ == old(buffer)@ + question_wire(
                    nb,
                    self.qtype,
                    self.qclass,
                ))
                &&& (r is Err ==> old(buffer)@.is_prefix_of(final(buffer)@))
            }),
    {
        match pack_domain_name(buffer, self.name.as_str()) {
            Ok(()) => {},
            Err(e) => {
                proof {
                    let ls = split_labels(encode_utf8(self.name@));
                    let k = choose|k: int|
                        {
                            &&& 0 <= k < ls.len()
                            &&& ls[k].len() > 63
                            &&& labels_fit(#[trigger] ls.take(k))
                            &&& buffer@ == old(buffer)@ + wire_of_labels(ls.take(k))
                        };
                    assert(buffer@.subrange(0, old(buffer)@.len() as int) =~= old(buffer)@);
                }
                return Err(e);
            },
        }
        write_u16(buffer, self.qtype.code());
        write_u16(buffer, self.qclass);
        proof {
            assert(buffer@ =~= old(buffer)@ + question_wire(
                encode_utf8(self.name@),
                self.qtype,
                self.qclass,
            ));
        }
        Ok(())
    }

    /// Reads one question at `pos`: a name with possible compression, then
    /// the type code, which must be one of the five supported ones, then the
    /// class.
    pub fn from_bytes(buf: &[u8], pos: usize) -> (r: Result<(Self, usize), DnsError>)
        ensures
            r is Ok <==> parse_question(buf@, pos as int) is Some,
            (r matches Ok((q, end)) ==> parse_question(buf@, pos as int) matches Some((m, e))
                && question_matches(q, m) && e == end),
            (r matches Err(e) ==> e is InvalidResponse),
    {
        let (name, p1) = match unpack_domain_name(buf, pos) {
            Ok(v) => v,
            Err(e) => {
                return Err(e);
            },
        };
        let (qtype_val, p2) = match read_u16(buf, p1) {
            Some(v) => v,
            None => {
                return Err(truncated_error());
            },
        };
        let qtype = match QueryType::from_code(qtype_val) {
            Ok(t) => t,
            Err(e) => {
                return Err(e);
            },
        };
        let (qclass, p3) = match read_u16(buf, p2) {
            Some(v) => v,
            None => {
                return Err(truncated_error());
            },
        };
        Ok((DnsQuestion { name, qtype, qclass }, p3))
    }
}

} // verus!
