//! Resource records: the typed payloads a response carries.
//!
//! Records are decode-only: queries carry no records, so no encode path
//! exists.  Unknown type codes are not an error; their payload is kept raw.

use vstd::prelude::*;

verus! {

use crate::error::DnsError;
use crate::error::truncated_error;
use crate::name::parse_name;
use crate::name::unpack_domain_name;
use crate::question::QueryType;
use crate::question::qtype_of_code;
use crate::text::decodes_lossy;
use crate::text::lossy_string;
use crate::wire::append_range;
use crate::wire::be16_at;
use crate::wire::be32_at;
use crate::wire::read_u16;
use crate::wire::read_u32;

/// MX record data: a preference value and the mail server's hostname.
#[derive(Debug, Clone)]
pub struct MxData {
    /// Priority of this mail server; lower numbers are preferred.
    pub preference: u16,
    /// The hostname of the mail server.
    pub exchange: String,
}

/// The typed payload of a resource record.  Unsupported record types keep
/// their raw bytes together with the original numeric type code.
#[derive(Debug, Clone)]
pub enum RData {
    /// IPv4 address payload of an A record, four octets.
    A([u8; 4]),
    /// IPv6 address payload of an AAAA record, sixteen octets.
    AAAA([u8; 16]),
    /// Target name of a CNAME record.
    CNAME(String),
    /// Preference and mail server hostname of an MX record.
    MX {
        /// Priority of this mail server; lower numbers are preferred.
        preference: u16,
        /// The hostname of the mail server.
        exchange: String,
    },
    /// Text of a TXT record: all its character-strings, concatenated.
    TXT(String),
    /// Raw payload of a record whose type this codec does not support.
    Other {
        /// The numeric record type code as received.
        rtype: u16,
        /// The raw payload bytes as received.
        data: Vec<u8>,
    },
}

/// What the decoder learns about a record's payload, at the byte level.
pub ghost enum RDataModel {
    /// The four octets of an A record.
    A(Seq<u8>),
    /// The sixteen octets of an AAAA record.
    AAAA(Seq<u8>),
    /// The target name of a CNAME record, in dotted byte form.
    CNAME(Seq<u8>),
    /// The preference and exchange name of an MX record.
    MX {
        /// Priority of the mail server.
        preference: u16,
        /// The exchange name in dotted byte form.
        exchange: Seq<u8>,
    },
    /// The concatenated character-strings of a TXT record.
    TXT(Seq<u8>),
    /// The raw payload of an unrecognized record type.
    Other {
        /// The numeric record type code.
        rtype: u16,
        /// The raw payload bytes.
        data: Seq<u8>,
    },
}

/// What the decoder learns about a whole record.
pub ghost struct RecordModel {
    /// The owner name in dotted byte form.
    pub name: Seq<u8>,
    /// The numeric record type code as received.
    pub rtype_code: u16,
    /// The record class.
    pub rclass: u16,
    /// Time-to-live in seconds.
    pub ttl: u32,
    /// The typed payload.
    pub rdata: RDataModel,
}

/// A record in the answer, authority, or additional section.
#[derive(Debug, Clone)]
pub struct ResourceRecord {
    /// The domain name this record refers to, in dotted form.
    pub name: String,
    /// The record type; when the numeric code is unrecognized this tag
    /// falls back to `A` for display, and the payload keeps the real code
    /// in its raw variant.
    pub rtype: QueryType,
    /// The record class, 1 for the Internet class in practice.
    pub rclass: u16,
    /// How many seconds this record may be cached.
    pub ttl: u32,
    /// The typed payload.
    pub data: RData,
}

/// The concatenated character-strings stored between offsets `p` and `end`:
/// each is one length byte followed by that many bytes.  Reading continues
/// while the cursor is short of `end`, even past it when a count says so;
/// `None` when a read would leave the buffer.
pub open spec fn parse_txt(b: Seq<u8>, p: int, end: int) -> Option<Seq<u8>>
    decreases (if p < end { end - p } else { 0 }),
{
    if p >= end {
        Some(Seq::empty())
    } else if 0 <= p < b.len() && p + 1 + b[p] <= b.len() {
        match parse_txt(b, p + 1 + b[p], end) {
            Some(rest) => Some(b.subrange(p + 1, p + 1 + b[p]) + rest),
            None => None,
        }
    } else {
        None
    }
}

/// The record type shown for a numeric code: the code's own type when it is
/// supported, `A` as the display fallback otherwise.
pub open spec fn display_type(code: u16) -> QueryType {
    match qtype_of_code(code) {
        Some(t) => t,
        None => QueryType::A,
    }
}

/// The payload stored at offset `p`, interpreted according to the record
/// type `code`, with `rdlen` declared bytes of payload.
pub open spec fn parse_rdata(b: Seq<u8>, p: int, rdlen: u16, code: u16) -> Option<RDataModel> {
    if code == 1 {
        if 0 <= p && p + 4 <= b.len() {
            Some(RDataModel::A(b.subrange(p, p + 4)))
        } else {
            None
        }
    } else if code == 28 {
        if 0 <= p && p + 16 <= b.len() {
            Some(RDataModel::AAAA(b.subrange(p, p + 16)))
        } else {
            None
        }
    } else if code == 5 {
        match parse_name(b, p) {
            Some((nb, _)) => Some(RDataModel::CNAME(nb)),
            None => None,
        }
    } else if code == 15 {
        if 0 <= p && p + 2 <= b.len() {
            match parse_name(b, p + 2) {
                Some((nb, _)) => Some(
                    RDataModel::MX { preference: be16_at(b, p), exchange: nb },
                ),
                None => None,
            }
        } else {
            None
        }
    } else if code == 16 {
        match parse_txt(b, p, p + rdlen) {
            Some(t) => Some(RDataModel::TXT(t)),
            None => None,
        }
    } else {
        if 0 <= p && p + rdlen <= b.len() {
            Some(RDataModel::Other { rtype: code, data: b.subrange(p, p + rdlen) })
        } else {
            None
        }
    }
}

/// The record stored at offset `p` of `b` and the offset just past its
/// declared payload region.  The region's end is the cursor's next position
/// whatever the payload parser consumed, and it may lie past the buffer.
pub open spec fn parse_record(b: Seq<u8>, p: int) -> Option<(RecordModel, int)> {
    match parse_name(b, p) {
        Some((nb, e)) => {
            if e + 10 <= b.len() {
                let code = be16_at(b, e);
                let rdlen = be16_at(b, e + 8);
                match parse_rdata(b, e + 10, rdlen, code) {
                    Some(d) => Some(
                        (
                            RecordModel {
                                name: nb,
                                rtype_code: code,
                                rclass: be16_at(b, e + 2),
                                ttl: be32_at(b, e + 4),
                                rdata: d,
                            },
                            e + 10 + rdlen,
                        ),
                    ),
                    None => None,
                }
            } else {
                None
            }
        },
        None => None,
    }
}

/// True when the decoded payload `d` carries exactly what the model says,
/// with name and text payloads as the text of the model's bytes.
pub open spec fn rdata_matches(d: RData, m: RDataModel) -> bool {
    match (d, m) {
        (RData::A(a), RDataModel::A(bytes)) => a@ == bytes,
        (RData::AAAA(a), RDataModel::AAAA(bytes)) => a@ == bytes,
        (RData::CNAME(s), RDataModel::CNAME(nb)) => decodes_lossy(s@, nb),
        (
            RData::MX { preference, exchange },
            RDataModel::MX { preference: mp, exchange: me },
        ) => preference == mp && decodes_lossy(exchange@, me),
        (RData::TXT(s), RDataModel::TXT(tb)) => decodes_lossy(s@, tb),
        (RData::Other { rtype, data }, RDataModel::Other { rtype: mc, data: mb }) => rtype == mc
            && data@ == mb,
        _ => false,
    }
}

/// True when the decoded record `r` carries exactly what the model says.
pub open spec fn record_matches(r: ResourceRecord, m: RecordModel) -> bool {
    &&& decodes_lossy(r.name@, m.name)
    &&& r.rtype == display_type(m.rtype_code)
    &&& r.rclass == m.rclass
    &&& r.ttl == m.ttl
    &&& rdata_matches(r.data, m.rdata)
}

/// Remaining character-strings, prefixed by the text already accumulated.
pub open spec fn opt_append(pre: Seq<u8>, o: Option<Seq<u8>>) -> Option<Seq<u8>> {
    match o {
        Some(t) => Some(pre + t),
        None => None,
    }
}

impl ResourceRecord {
    /// The IPv4 address of an A record, or `None` for any other payload.
    pub fn get_ipv4_address(&self) -> (r: Option<[u8; 4]>)
        ensures
            (self.data matches RData::A(a) ==> r == Some(a)),
            !(self.data is A) ==> r is None,
    {
        match &self.data {
            RData::A(addr) => Some(*addr),
            _ => None,
        }
    }

    /// The IPv6 address of an AAAA record, or `None` for any other payload.
    pub fn get_ipv6_address(&self) -> (r: Option<[u8; 16]>)
        ensures
            (self.data matches RData::AAAA(a) ==> r == Some(a)),
            !(self.data is AAAA) ==> r is None,
    {
        match &self.data {
            RData::AAAA(addr) => Some(*addr),
            _ => None,
        }
    }

    /// The preference and exchange host of an MX record, or `None` for any
    /// other payload.
    pub fn get_mx_data(&self) -> (r: Option<MxData>)
        ensures
            (self.data matches RData::MX { preference, exchange } ==> r matches Some(mx)
                && mx.preference == preference && mx.exchange@ == exchange@),
            !(self.data is MX) ==> r is None,
    {
        match &self.data {
            RData::MX { preference, exchange } => Some(
                MxData { preference: *preference, exchange: exchange.clone() },
            ),
            _ => None,
        }
    }

    /// The target of a CNAME record, or `None` for any other payload.
    pub fn get_cname(&self) -> (r: Option<&str>)
        ensures
            (self.data matches RData::CNAME(n) ==> r matches Some(s) && s@ == n@),
            !(self.data is CNAME) ==> r is None,
    {
        match &self.data {
            RData::CNAME(name) => Some(name.as_str()),
            _ => None,
        }
    }

    /// The text of a TXT record, or `None` for any other payload.
    pub fn get_txt_data(&self) -> (r: Option<&str>)
        ensures
            (self.data matches RData::TXT(t) ==> r matches Some(s) && s@ == t@),
            !(self.data is TXT) ==> r is None,
    {
        match &self.data {
            RData::TXT(text) => Some(text.as_str()),
            _ => None,
        }
    }

    /// The record class.
    pub fn get_class(&self) -> (r: u16)
        ensures
            r == self.rclass,
    {
        self.rclass
    }

    /// The type code and raw payload of an unsupported record type, or
    /// `None` for the supported ones.
    pub fn get_raw_data(&self) -> (r: Option<(u16, &[u8])>)
        ensures
            (self.data matches RData::Other { rtype, data } ==> r matches Some((c, d))
                && c == rtype && d@ == data@),
            !(self.data is Other) ==> r is None,
    {
        match &self.data {
            RData::Other { rtype, data } => Some((*rtype, data.as_slice())),
            _ => None,
        }
    }

    /// Reads one record at `pos`: the owner name, the fixed fields, then
    /// the payload, dispatched on the type code.  Whatever the payload
    /// parser consumed, the returned offset is the end of the declared
    /// payload region, computed from its length field.
    #[verifier::loop_isolation(false)]
    pub fn from_bytes(buf: &[u8], pos: usize) -> (r: Result<(Self, usize), DnsError>)
        requires
            buf@.len() + 0x1_0000 <= usize::MAX,
        ensures
            r is Ok <==> parse_record(buf@, pos as int) is Some,
            (r matches Ok((rec, end)) ==> parse_record(buf@, pos as int) matches Some((m, e))
                && record_matches(rec, m) && e == end),
            (r matches Err(e) ==> e is InvalidResponse),
    {
        let (name, p1) = match unpack_domain_name(buf, pos) {
            Ok(v) => v,
            Err(e) => {
                return Err(e);
            },
        };
        let (rtype_val, p2) = match read_u16(buf, p1) {
            Some(v) => v,
            None => {
                return Err(truncated_error());
            },
        };
        let (rclass, p3) = match read_u16(buf, p2) {
            Some(v) => v,
            None => {
                return Err(truncated_error());
            },
        };
        let (ttl, p4) = match read_u32(buf, p3) {
            Some(v) => v,
            None => {
                return Err(truncated_error());
            },
        };
        let (data_len, p5) = match read_u16(buf, p4) {
            Some(v) => v,
            None => {
                return Err(truncated_error());
            },
        };
        let data_end = p5 + (data_len as usize);
        let rdata = if rtype_val == 1 {
            if buf.len() < 4 || p5 > buf.len() - 4 {
                return Err(truncated_error());
            }
            let addr = [buf[p5], buf[p5 + 1], buf[p5 + 2], buf[p5 + 3]];
            proof {
                assert(addr@ =~= buf@.subrange(p5 as int, p5 + 4));
            }
            RData::A(addr)
        } else if rtype_val == 28 {
            if buf.len() < 16 || p5 > buf.len() - 16 {
                return Err(truncated_error());
            }
            let addr = [
                buf[p5],
                buf[p5 + 1],
                buf[p5 + 2],
                buf[p5 + 3],
                buf[p5 + 4],
                buf[p5 + 5],
                buf[p5 + 6],
                buf[p5 + 7],
                buf[p5 + 8],
                buf[p5 + 9],
                buf[p5 + 10],
                buf[p5 + 11],
                buf[p5 + 12],
                buf[p5 + 13],
                buf[p5 + 14],
                buf[p5 + 15],
            ];
            proof {
                assert(addr@ =~= buf@.subrange(p5 as int, p5 + 16));
            }
            RData::AAAA(addr)
        } else if rtype_val == 5 {
            let (cname, _cend) = match unpack_domain_name(buf, p5) {
                Ok(v) => v,
                Err(e) => {
                    return Err(e);
                },
            };
            RData::CNAME(cname)
        } else if rtype_val == 15 {
            let (preference, pm) = match read_u16(buf, p5) {
                Some(v) => v,
                None => {
                    return Err(truncated_error());
                },
            };
            let (exchange, _mend) = match unpack_domain_name(buf, pm) {
                Ok(v) => v,
                Err(e) => {
                    return Err(e);
                },
            };
            RData::MX { preference, exchange }
        } else if rtype_val == 16 {
            // One or more character-strings: a length byte, then that many
            // bytes, repeated until the cursor reaches the payload end.
            let mut text: Vec<u8> = Vec::new();
            let mut tp: usize = p5;
            while tp < data_end
                invariant
                    buf@.len() + 0x1_0000 <= usize::MAX,
                    p5 <= tp,
                    data_end <= buf@.len() + 0x1_0000,
                    parse_txt(buf@, p5 as int, data_end as int) == opt_append(
                        text@,
                        parse_txt(buf@, tp as int, data_end as int),
                    ),
                decreases
                        (if tp < data_end {
                            data_end - tp as int
                        } else {
                            0
                        }),
            {
                if tp >= buf.len() {
                    return Err(truncated_error());
                }
                let chunk_len = buf[tp] as usize;
                if chunk_len > buf.len() - (tp + 1) {
                    return Err(truncated_error());
                }
                let ghost text0 = text@;
                append_range(&mut text, buf, tp + 1, tp + 1 + chunk_len);
                proof {
                    let chunk = buf@.subrange(tp + 1, tp + 1 + chunk_len);
                    match parse_txt(buf@, tp + 1 + chunk_len, data_end as int) {
                        Some(rest) => {
                            assert(text0 + (chunk + rest) =~= (text0 + chunk) + rest);
                        },
                        None => {},
                    }
                }
                tp = tp + 1 + chunk_len;
            }
            proof {
                assert(parse_txt(buf@, tp as int, data_end as int) == Some(Seq::<u8>::empty()));
                assert(text@ + Seq::<u8>::empty() =~= text@);
            }
            RData::TXT(lossy_string(&text))
        } else {
            let data_len_us = data_len as usize;
            if data_len_us > buf.len() - p5 {
                return Err(truncated_error());
            }
            let mut raw: Vec<u8> = Vec::new();
            append_range(&mut raw, buf, p5, data_end);
            proof {
                assert(Seq::<u8>::empty() + buf@.subrange(p5 as int, data_end as int)
                    =~= buf@.subrange(p5 as int, data_end as int));
            }
            RData::Other { rtype: rtype_val, data: raw }
        };
        let rtype = match QueryType::from_code(rtype_val) {
            Ok(t) => t,
            Err(_) => QueryType::A,
        };
        Ok((ResourceRecord { name, rtype, rclass, ttl, data: rdata }, data_end))
    }
}

} // verus!
