//! The codec side of one query/response exchange.
//!
//! The transport that owns the socket lives outside this crate: it sends the
//! bytes `build_query` produces and hands whatever bytes come back to
//! `parse_response`.  Everything in between, timeouts included, is the
//! transport's concern.

use vstd::prelude::*;

verus! {

use vstd::string::StringSliceAdditionalSpecFns;
use vstd::utf8::encode_utf8;
use crate::error::DnsError;
use crate::header::DnsHeader;
use crate::header::ResponseCode;
use crate::header::header_bytes;
use crate::header::response_code_of;
use crate::message::DnsMessage;
use crate::message::message_matches;
use crate::message::parse_message;
use crate::message::questions_wire;
use crate::name::labels_fit;
use crate::name::split_labels;
use crate::question::DnsQuestion;
use crate::question::QueryType;
use crate::question::question_wire;

/// The header every query carries: a fixed identifier, the
/// recursion-desired flag, and one question.  A fixed identifier is a known
/// weakening of spoof resistance kept for compatibility; hardened callers
/// would randomize it per request.
pub open spec fn query_header() -> DnsHeader {
    DnsHeader {
        id: 1234,
        flags: 0x0100,
        question_count: 1,
        answer_count: 0,
        authority_count: 0,
        additional_count: 0,
    }
}

/// The full wire form of a query for the name with byte form `nb`: the query
/// header, then one question of the given type in the Internet class.
pub open spec fn query_wire(nb: Seq<u8>, qt: QueryType) -> Seq<u8> {
    header_bytes(query_header()) + question_wire(nb, qt, 1)
}

/// Builds the byte buffer of a query for `domain_name` with the given record
/// type.  Fails exactly when the name has a label longer than 63 bytes.
pub fn build_query(domain_name: &str, query_type: QueryType) -> (r: Result<Vec<u8>, DnsError>)
    ensures
        r is Ok <==> labels_fit(split_labels(domain_name.spec_bytes())),
        (r matches Ok(v) ==> v@ == query_wire(domain_name.spec_bytes(), query_type)),
        (r matches Err(e) ==> e is InvalidResponse),
{
    let mut message = DnsMessage::new();
    message.header.id = 1234;
    message.header.flags = 0x0100;
    message.header.question_count = 1;
    message.questions.push(
        DnsQuestion { name: String::from_str(domain_name), qtype: query_type, qclass: 1 },
    );
    proof {
        assert(message.header == query_header());
        assert(message.questions@ =~= seq![message.questions@[0]]);
    }
    let mut buffer: Vec<u8> = Vec::new();
    match message.pack(&mut buffer) {
        Ok(()) => {
            proof {
                let q = message.questions@[0];
                assert(questions_wire(message.questions@.drop_first())
                    == Seq::<u8>::empty());
                assert(questions_wire(message.questions@) =~= question_wire(
                    encode_utf8(q.name@),
                    q.qtype,
                    q.qclass,
                ));
                assert(buffer@ =~= query_wire(domain_name.spec_bytes(), query_type));
            }
            Ok(buffer)
        },
        Err(e) => Err(DnsError::InvalidResponse(e)),
    }
}

/// Decodes a response buffer and checks the server's response code: a
/// message carrying anything but `NoError` is reported as a server-signalled
/// failure with that code, not as a usable message.
pub fn parse_response(bytes: &[u8]) -> (r: Result<DnsMessage, DnsError>)
    requires
        bytes@.len() + 0x1_0000 <= usize::MAX,
    ensures
        parse_message(bytes@) is None ==> (r matches Err(e) && e is InvalidResponse),
        (parse_message(bytes@) matches Some(m) ==> (if response_code_of(m.header.flags)
            == ResponseCode::NoError {
            r matches Ok(msg) && message_matches(msg, m)
        } else {
            r == Err::<DnsMessage, DnsError>(
                DnsError::ServerReturnedError(response_code_of(m.header.flags)),
            )
        })),
{
    let message = match DnsMessage::from_bytes(bytes) {
        Ok(v) => v,
        Err(e) => {
            return Err(e);
        },
    };
    let code = message.header.get_response_code();
    match code {
        ResponseCode::NoError => Ok(message),
        _ => Err(DnsError::ServerReturnedError(code)),
    }
}

} // verus!
