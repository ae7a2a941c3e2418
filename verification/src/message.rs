//! The complete DNS message: a header followed by the question, answer,
//! authority, and additional sections, in that order, with the section
//! lengths driven entirely by the counts the header declares.

use vstd::prelude::*;

verus! {

use vstd::utf8::encode_utf8;
use crate::error::DnsError;
use crate::header::DnsHeader;
use crate::header::header_bytes;
use crate::header::parse_header;
use crate::name::labels_fit;
use crate::name::split_labels;
use crate::question::DnsQuestion;
use crate::question::QuestionModel;
use crate::question::parse_question;
use crate::question::question_matches;
use crate::question::question_wire;
use crate::record::RecordModel;
use crate::record::ResourceRecord;
use crate::record::parse_record;
use crate::record::record_matches;

/// A full DNS message.
#[derive(Debug)]
pub struct DnsMessage {
    /// Identification, flags, and the four section counts.
    pub header: DnsHeader,
    /// The questions asked.
    pub questions: Vec<DnsQuestion>,
    /// Answer records returned by the server.
    pub answers: Vec<ResourceRecord>,
    /// Authority records naming authoritative servers.
    pub authorities: Vec<ResourceRecord>,
    /// Additional records with supplementary data.
    pub additionals: Vec<ResourceRecord>,
}

/// What the decoder learns about a whole message.
pub ghost struct MessageModel {
    /// The decoded header.
    pub header: DnsHeader,
    /// The question section.
    pub questions: Seq<QuestionModel>,
    /// The answer section.
    pub answers: Seq<RecordModel>,
    /// The authority section.
    pub authorities: Seq<RecordModel>,
    /// The additional section.
    pub additionals: Seq<RecordModel>,
}

/// `n` questions in a row starting at offset `p`, with the offset just past
/// the last of them.
pub open spec fn parse_questions(b: Seq<u8>, p: int, n: nat) -> Option<(Seq<QuestionModel>, int)>
    decreases n,
{
    if n == 0 {
        Some((Seq::empty(), p))
    } else {
        match parse_question(b, p) {
            Some((q, e)) => match parse_questions(b, e, (n - 1) as nat) {
                Some((rest, e2)) => Some((seq![q] + rest, e2)),
                None => None,
            },
            None => None,
        }
    }
}

/// `n` records in a row starting at offset `p`, with the offset just past
/// the last declared payload region.
pub open spec fn parse_records(b: Seq<u8>, p: int, n: nat) -> Option<(Seq<RecordModel>, int)>
    decreases n,
{
    if n == 0 {
        Some((Seq::empty(), p))
    } else {
        match parse_record(b, p) {
            Some((rec, e)) => match parse_records(b, e, (n - 1) as nat) {
                Some((rest, e2)) => Some((seq![rec] + rest, e2)),
                None => None,
            },
            None => None,
        }
    }
}

/// The message stored in `b`: the header at offset zero, then exactly the
/// declared number of questions, answers, authority records, and additional
/// records, in that order.  Trailing bytes are ignored.
pub open spec fn parse_message(b: Seq<u8>) -> Option<MessageModel> {
    match parse_header(b, 0) {
        Some((h, p0)) => match parse_questions(b, p0, h.question_count as nat) {
            Some((qs, p1)) => match parse_records(b, p1, h.answer_count as nat) {
                Some((ans, p2)) => match parse_records(b, p2, h.authority_count as nat) {
                    Some((auth, p3)) => match parse_records(b, p3, h.additional_count as nat) {
                        Some((add, _)) => Some(
                            MessageModel {
                                header: h,
                                questions: qs,
                                answers: ans,
                                authorities: auth,
                                additionals: add,
                            },
                        ),
                        None => None,
                    },
                    None => None,
                },
                None => None,
            },
            None => None,
        },
        None => None,
    }
}

/// True when the decoded message `msg` carries exactly what the model says,
/// section by section.
pub open spec fn message_matches(msg: DnsMessage, m: MessageModel) -> bool {
    &&& msg.header == m.header
    &&& msg.questions@.len() == m.questions.len()
    &&& forall|i: int|
        0 <= i < m.questions.len() ==> question_matches(
            #[trigger] msg.questions@[i],
            m.questions[i],
        )
    &&& msg.answers@.len() == m.answers.len()
    &&& forall|i: int|
        0 <= i < m.answers.len() ==> record_matches(#[trigger] msg.answers@[i], m.answers[i])
    &&& msg.authorities@.len() == m.authorities.len()
    &&& forall|i: int|
        0 <= i < m.authorities.len() ==> record_matches(
            #[trigger] msg.authorities@[i],
            m.authorities[i],
        )
    &&& msg.additionals@.len() == m.additionals.len()
    &&& forall|i: int|
        0 <= i < m.additionals.len() ==> record_matches(
            #[trigger] msg.additionals@[i],
            m.additionals[i],
        )
}

/// The wire form of the questions, in order.
pub open spec fn questions_wire(qs: Seq<DnsQuestion>) -> Seq<u8>
    decreases qs.len(),
{
    if qs.len() == 0 {
        Seq::empty()
    } else {
        question_wire(encode_utf8(qs[0].name@), qs[0].qtype, qs[0].qclass) + questions_wire(
            qs.drop_first(),
        )
    }
}

/// True when every question's name can be encoded: no label over 63 bytes.
pub open spec fn questions_fit(qs: Seq<DnsQuestion>) -> bool {
    forall|i: int|
        0 <= i < qs.len() ==> labels_fit(split_labels(encode_utf8((#[trigger] qs[i]).name@)))
}

proof fn lemma_questions_wire_snoc(qs: Seq<DnsQuestion>, q: DnsQuestion)
    ensures
        questions_wire(qs.push(q)) == questions_wire(qs) + question_wire(
            encode_utf8(q.name@),
            q.qtype,
            q.qclass,
        ),
    decreases qs.len(),
{
    if qs.len() == 0 {
        assert(qs.push(q)[0] == q);
        assert(qs.push(q).drop_first() =~= qs);
        assert(questions_wire(qs.push(q)) =~= questions_wire(qs) + question_wire(
            encode_utf8(q.name@),
            q.qtype,
            q.qclass,
        ));
    } else {
        lemma_questions_wire_snoc(qs.drop_first(), q);
        assert(qs.push(q)[0] == qs[0]);
        assert(qs.push(q).drop_first() =~= qs.drop_first().push(q));
        assert(questions_wire(qs.push(q)) =~= questions_wire(qs) + question_wire(
            encode_utf8(q.name@),
            q.qtype,
            q.qclass,
        ));
    }
}

/// Reads `count` questions in a row starting at `pos`.
#[verifier::loop_isolation(false)]
fn read_questions(buf: &[u8], pos: usize, count: u16) -> (r: Result<
    (Vec<DnsQuestion>, usize),
    DnsError,
>)
    ensures
        r is Ok <==> parse_questions(buf@, pos as int, count as nat) is Some,
        (r matches Ok((qs, end)) ==> parse_questions(buf@, pos as int, count as nat)
            matches Some((ms, e)) && e == end && qs@.len() == count && ms.len() == count
            && (forall|j: int| 0 <= j < count ==> question_matches(#[trigger] qs@[j], ms[j]))),
        (r matches Err(e) ==> e is InvalidResponse),
{
    let mut questions: Vec<DnsQuestion> = Vec::new();
    let ghost mut models: Seq<QuestionModel> = Seq::empty();
    let mut p: usize = pos;
    let mut i: u16 = 0;
    while i < count
        invariant
            i <= count,
            questions@.len() == i,
            models.len() == i,
            forall|j: int| 0 <= j < i ==> question_matches(#[trigger] questions@[j], models[j]),
            parse_questions(buf@, pos as int, count as nat) == (match parse_questions(
                buf@,
                p as int,
                (count - i) as nat,
            ) {
                Some((rest, e)) => Some((models + rest, e)),
                None => None,
            }),
        decreases count - i,
    {
        let (q, np) = match DnsQuestion::from_bytes(buf, p) {
            Ok(v) => v,
            Err(e) => {
                return Err(e);
            },
        };
        proof {
            let m = (parse_question(buf@, p as int)->0).0;
            match parse_questions(buf@, np as int, (count - i - 1) as nat) {
                Some((rest, e)) => {
                    assert(models + (seq![m] + rest) =~= models.push(m) + rest);
                },
                None => {},
            }
            models = models.push(m);
        }
        questions.push(q);
        p = np;
        i = i + 1;
    }
    proof {
        assert(models + Seq::<QuestionModel>::empty() =~= models);
    }
    Ok((questions, p))
}

/// Reads `count` records in a row starting at `pos`.
#[verifier::loop_isolation(false)]
fn read_records(buf: &[u8], pos: usize, count: u16) -> (r: Result<
    (Vec<ResourceRecord>, usize),
    DnsError,
>)
    requires
        buf@.len() + 0x1_0000 <= usize::MAX,
    ensures
        r is Ok <==> parse_records(buf@, pos as int, count as nat) is Some,
        (r matches Ok((recs, end)) ==> parse_records(buf@, pos as int, count as nat)
            matches Some((ms, e)) && e == end && recs@.len() == count && ms.len() == count
            && (forall|j: int| 0 <= j < count ==> record_matches(#[trigger] recs@[j], ms[j]))),
        (r matches Err(e) ==> e is InvalidResponse),
{
    let mut records: Vec<ResourceRecord> = Vec::new();
    let ghost mut models: Seq<RecordModel> = Seq::empty();
    let mut p: usize = pos;
    let mut i: u16 = 0;
    while i < count
        invariant
            i <= count,
            records@.len() == i,
            models.len() == i,
            forall|j: int| 0 <= j < i ==> record_matches(#[trigger] records@[j], models[j]),
            parse_records(buf@, pos as int, count as nat) == (match parse_records(
                buf@,
                p as int,
                (count - i) as nat,
            ) {
                Some((rest, e)) => Some((models + rest, e)),
                None => None,
            }),
        decreases count - i,
    {
        let (rec, np) = match ResourceRecord::from_bytes(buf, p) {
            Ok(v) => v,
            Err(e) => {
                return Err(e);
            },
        };
        proof {
            let m = (parse_record(buf@, p as int)->0).0;
            match parse_records(buf@, np as int, (count - i - 1) as nat) {
                Some((rest, e)) => {
                    assert(models + (seq![m] + rest) =~= models.push(m) + rest);
                },
                None => {},
            }
            models = models.push(m);
        }
        records.push(rec);
        p = np;
        i = i + 1;
    }
    proof {
        assert(models + Seq::<RecordModel>::empty() =~= models);
    }
    Ok((records, p))
}

impl DnsMessage {
    /// An empty message: an all-zero header and four empty sections.
    pub fn new() -> (r: Self)
        ensures
            r.header == (DnsHeader {
                id: 0,
                flags: 0,
                question_count: 0,
                answer_count: 0,
                authority_count: 0,
                additional_count: 0,
            }),
            r.questions@ == Seq::<DnsQuestion>::empty(),
            r.answers@ == Seq::<ResourceRecord>::empty(),
            r.authorities@ == Seq::<ResourceRecord>::empty(),
            r.additionals@ == Seq::<ResourceRecord>::empty(),
    {
        DnsMessage {
            header: DnsHeader::new(),
            questions: Vec::new(),
            answers: Vec::new(),
            authorities: Vec::new(),
            additionals: Vec::new(),
        }
    }

    /// Appends the wire form of this message: the header, then each question
    /// in order.  Records are never serialized: only queries are sent, and
    /// they carry none.  Fails exactly when some question's name has a label
    /// longer than 63 bytes.
    pub fn pack(&self, buffer: &mut Vec<u8>) -> (r: Result<(), String>)
        ensures
            r is Ok <==> questions_fit(self.questions@),
            r is Ok ==> final(buffer)@ == old(buffer)@ + header_bytes(self.header)
                + questions_wire(self.questions@),
            r is Err ==> old(buffer)@.is_prefix_of(final(buffer)@),
    {
        self.header.pack(buffer);
        let ghost qs = self.questions@;
        let mut k: usize = 0;
        while k < self.questions.len()
            invariant
                qs == self.questions@,
                k <= qs.len(),
                questions_fit(qs.take(k as int)),
                buffer@ == old(buffer)@ + header_bytes(self.header) + questions_wire(
                    qs.take(k as int),
                ),
            decreases qs.len() - k,
        {
            match self.questions[k].pack(buffer) {
                Ok(()) => {},
                Err(e) => {
                    proof {
                        assert(!labels_fit(split_labels(encode_utf8(qs[k as int].name@))));
                        assert(buffer@.subrange(0, old(buffer)@.len() as int) =~= old(buffer)@);
                    }
                    return Err(e);
                },
            }
            proof {
                lemma_questions_wire_snoc(qs.take(k as int), qs[k as int]);
                assert(qs.take(k + 1) =~= qs.take(k as int).push(qs[k as int]));
                assert(buffer@ =~= old(buffer)@ + header_bytes(self.header) + questions_wire(
                    qs.take(k + 1),
                ));
            }
            k = k + 1;
        }
        proof {
            assert(qs.take(qs.len() as int) =~= qs);
        }
        Ok(())
    }

    /// Decodes a complete message: the header fixes the section counts, then
    /// exactly that many questions, answers, authority records, and
    /// additional records are read, in that order.  Bytes after the last
    /// record are ignored.
    pub fn from_bytes(bytes: &[u8]) -> (r: Result<Self, DnsError>)
        requires
            bytes@.len() + 0x1_0000 <= usize::MAX,
        ensures
            r is Ok <==> parse_message(bytes@) is Some,
            (r matches Ok(msg) ==> parse_message(bytes@) matches Some(m) && message_matches(
                msg,
                m,
            ) && msg.questions@.len() == msg.header.question_count && msg.answers@.len()
                == msg.header.answer_count && msg.authorities@.len()
                == msg.header.authority_count && msg.additionals@.len()
                == msg.header.additional_count),
            (r matches Err(e) ==> e is InvalidResponse),
    {
        let (header, p0) = match DnsHeader::from_bytes(bytes, 0) {
            Ok(v) => v,
            Err(e) => {
                return Err(e);
            },
        };
        let (questions, p1) = match read_questions(bytes, p0, header.question_count) {
            Ok(v) => v,
            Err(e) => {
                return Err(e);
            },
        };
        let (answers, p2) = match read_records(bytes, p1, header.answer_count) {
            Ok(v) => v,
            Err(e) => {
                return Err(e);
            },
        };
        let (authorities, p3) = match read_records(bytes, p2, header.authority_count) {
            Ok(v) => v,
            Err(e) => {
                return Err(e);
            },
        };
        let (additionals, _p4) = match read_records(bytes, p3, header.additional_count) {
            Ok(v) => v,
            Err(e) => {
                return Err(e);
            },
        };
        Ok(DnsMessage { header, questions, answers, authorities, additionals })
    }
}

} // verus!
