use vstd::prelude::*;

use crate::answer_record::{
    lemma_encode_answer_len, lemma_encode_answers_parse, lemma_encode_answers_snoc,
    lemma_parse_answers_encode, lemma_parse_answers_ok, spec_encode_answer, spec_encode_answers,
    spec_parse_answers, AnswerModel, DnsAnswerRecord, RData,
};
use crate::class::Class;
use crate::domain_name::{lemma_parse_name_encode, spec_parse_name, spec_wf_labels, DomainName};
use crate::errors::DnsError;
use crate::header::{
    lemma_header_decode_encode, lemma_header_encode_decode, lemma_header_from_bytes_prefix,
    DnsHeader, QRIndicator, ResponseCode,
};
use crate::question::{
    lemma_encode_questions_parse, lemma_encode_questions_snoc, lemma_parse_questions_encode,
    lemma_parse_questions_ok, spec_encode_question, spec_encode_questions, spec_parse_questions,
    DnsQuestion, QuestionModel,
};
use crate::record_type::RecordType;
use crate::wire::push_all;
use vstd::pervasive::unreached;

verus! {

/// The fixed size of the UDP datagram this codec works in: every message
/// is decoded from and encoded into exactly this many bytes.
pub const DATAGRAM_SIZE: usize = 512;

/// A complete DNS message: one header, the question section, and the
/// answer section.  The header's counts and the section lengths are kept
/// in lock step (see [`DnsMessage::wf`]).
#[derive(Debug, PartialEq, Eq)]
pub struct DnsMessage {
    pub header: DnsHeader,
    pub questions: Vec<DnsQuestion>,
    pub answers: Vec<DnsAnswerRecord>,
}

/// What a message holds, mathematically.
pub ghost struct MessageModel {
    pub header: DnsHeader,
    pub questions: Seq<QuestionModel>,
    pub answers: Seq<AnswerModel>,
}

impl View for DnsMessage {
    type V = MessageModel;

    open spec fn view(&self) -> MessageModel {
        MessageModel {
            header: self.header,
            questions: self.questions@.map_values(|q: DnsQuestion| q@),
            answers: self.answers@.map_values(|a: DnsAnswerRecord| a@),
        }
    }
}

/// The meaningful wire bytes of a message, before zero padding: header,
/// then questions, then answers.
pub open spec fn spec_message_content(m: MessageModel) -> Seq<u8> {
    m.header.spec_to_bytes() + spec_encode_questions(m.questions) + spec_encode_answers(m.answers)
}

/// `n` zero bytes.
pub open spec fn spec_zeros(n: int) -> Seq<u8> {
    Seq::new(n as nat, |i: int| 0u8)
}

/// The full 512-byte datagram a message serializes to: its content,
/// zero-padded to the fixed size.
pub open spec fn spec_message_bytes(m: MessageModel) -> Seq<u8> {
    spec_message_content(m) + spec_zeros(512 - spec_message_content(m).len())
}

/// What decoding a 512-byte datagram yields: the header at offset 0, then
/// exactly as many questions as the header declares, then exactly as many
/// answers, each section consuming from where the previous one stopped.
/// Bytes after the last answer are ignored.
pub open spec fn spec_parse_message(b: Seq<u8>) -> Result<MessageModel, DnsError> {
    if b.len() < 12 {
        Err(DnsError::TooShort)
    } else {
        let header = DnsHeader::spec_from_bytes(b);
        match spec_parse_questions(b.skip(12), header.question_count as nat) {
            Err(e) => Err(e),
            Ok((questions, cq)) => match spec_parse_answers(
                b.skip(12).skip(cq),
                header.answer_record_count as nat,
            ) {
                Err(e) => Err(e),
                Ok((answers, ca)) => Ok(MessageModel { header, questions, answers }),
            },
        }
    }
}

/// The wire bytes of the synthetic answer's domain name.
pub open spec fn spec_reply_name_wire() -> Seq<u8> {
    seq![
        0x0cu8,
        0x63,
        0x6f,
        0x64,
        0x65,
        0x63,
        0x72,
        0x61,
        0x66,
        0x74,
        0x65,
        0x72,
        0x73,
        0x02,
        0x69,
        0x6f,
        0x00,
    ]
}

/// The labels of the synthetic answer's domain name: what its fixed wire
/// bytes decode to.
pub open spec fn spec_reply_name_labels() -> Seq<Seq<char>> {
    spec_parse_name(spec_reply_name_wire())->Ok_0.0
}

/// The one synthetic answer record every reply carries: the fixed name,
/// record type A, class IN, a TTL of 60 seconds, and a fixed 4-byte
/// payload.  This codec's server is a stand-in, not a resolver: it always
/// answers with this record, whatever was asked.
pub open spec fn spec_reply_answer() -> AnswerModel {
    AnswerModel {
        name: spec_reply_name_labels(),
        record_type: RecordType::A,
        class: Class::IN,
        ttl: 60,
        rdata: seq![8u8, 8u8, 8u8, 8u8],
    }
}

impl DnsMessage {
    /// The header is well-formed, its counts equal the section lengths,
    /// and every question and answer is itself well-formed.
    pub open spec fn wf(self) -> bool {
        &&& self.header.wf()
        &&& self.header.question_count == self.questions@.len()
        &&& self.header.answer_record_count == self.answers@.len()
        &&& forall|i: int| 0 <= i < self.questions@.len() ==> (#[trigger] self.questions@[i]).wf()
        &&& forall|i: int| 0 <= i < self.answers@.len() ==> (#[trigger] self.answers@[i]).wf()
    }

    /// How many meaningful bytes this message serializes to, before
    /// padding.
    pub open spec fn spec_wire_len(self) -> int {
        spec_message_content(self@).len() as int
    }

    /// Decodes a 512-byte datagram: header, then the declared number of
    /// questions, then the declared number of answers.  Fewer complete
    /// entries than a count declares is a hard failure, not a partial
    /// result; trailing bytes beyond the last answer are ignored.
    pub fn new(packet: &[u8; 512]) -> (r: Result<Self, DnsError>)
        ensures
            match spec_parse_message(packet@) {
                Ok(m) => {
                    &&& r matches Ok(msg)
                    &&& msg@ == m
                    &&& msg.wf()
                    &&& msg.spec_wire_len() <= 512
                },
                Err(e) => r == Err::<Self, DnsError>(e),
            },
    {
        let packet_slice: &[u8] = packet.as_slice();
        let header = match DnsHeader::new(packet_slice) {
            Ok(h) => h,
            Err(e) => {
                return Err(e);
            },
        };
        let after_header = &packet_slice[12..packet_slice.len()];
        proof {
            assert(after_header@ =~= packet@.skip(12));
        }
        let (questions, answers_slice) = match DnsQuestion::parse_all_questions(
            after_header,
            header.question_count as usize,
        ) {
            Ok(qa) => qa,
            Err(e) => {
                return Err(e);
            },
        };
        let (answers, _rest) = match DnsAnswerRecord::parse_all_answers(
            answers_slice,
            header.answer_record_count as usize,
        ) {
            Ok(ar) => ar,
            Err(e) => {
                return Err(e);
            },
        };
        let msg = DnsMessage { header, questions, answers };
        proof {
            let b = packet@;
            let (qms, cq) = spec_parse_questions(b.skip(12), header.question_count as nat)->Ok_0;
            let (ams, ca) = spec_parse_answers(
                b.skip(12).skip(cq),
                header.answer_record_count as nat,
            )->Ok_0;
            lemma_parse_questions_ok(b.skip(12), header.question_count as nat);
            lemma_parse_answers_ok(b.skip(12).skip(cq), header.answer_record_count as nat);
            lemma_parse_questions_encode(b.skip(12), header.question_count as nat);
            lemma_parse_answers_encode(b.skip(12).skip(cq), header.answer_record_count as nat);
            assert(msg@.questions =~= qms);
            assert(msg@.answers =~= ams);
            assert(spec_encode_questions(qms).len() == cq);
            assert(spec_encode_answers(ams).len() == ca);
            assert(msg.spec_wire_len() == 12 + cq + ca);
            assert(ca <= b.skip(12).skip(cq).len());
        }
        Ok(msg)
    }

    /// Builds the reply to this message: the id, opcode and RD flag are
    /// copied over, QR is forced to reply, AA, TC and RA are cleared, the
    /// reserved bits are zeroed, and the response code is `NoError` for a
    /// standard query and `NotImplemented` for any other opcode.  The
    /// question section is kept; the answer section is replaced with the
    /// one synthetic record of [`spec_reply_answer`], whatever was asked.
    pub fn build_reply(&self) -> (r: Self)
        requires
            self.wf(),
        ensures
            r.wf(),
            r.header == (DnsHeader {
                packet_identifier: self.header.packet_identifier,
                query_response_indicator: QRIndicator::Reply,
                operation_code: self.header.operation_code,
                authoritative_answer: false,
                truncation: false,
                recursion_desired: self.header.recursion_desired,
                recursion_available: false,
                reserved: 0,
                response_code: if self.header.operation_code == 0 {
                    ResponseCode::NoError
                } else {
                    ResponseCode::NotImplemented
                },
                question_count: self.header.question_count,
                answer_record_count: 1,
                authority_record_count: 0,
                additional_record_count: 0,
            }),
            r@.questions == self@.questions,
            r@.answers == seq![spec_reply_answer()],
            r.spec_wire_len() == 12 + spec_encode_questions(self@.questions).len() + 31,
    {
        let questions = clone_questions(&self.questions);
        let answer = reply_answer_record();
        let ghost old_models = self@.questions;
        let header = DnsHeader {
            packet_identifier: self.header.packet_identifier,
            query_response_indicator: QRIndicator::Reply,
            operation_code: self.header.operation_code,
            authoritative_answer: false,
            truncation: false,
            recursion_desired: self.header.recursion_desired,
            recursion_available: false,
            reserved: 0,
            response_code: if self.header.operation_code == 0 {
                ResponseCode::NoError
            } else {
                ResponseCode::NotImplemented
            },
            question_count: self.header.question_count,
            answer_record_count: 1,
            authority_record_count: 0,
            additional_record_count: 0,
        };
        let r = DnsMessage { header, questions, answers: vec![answer] };
        proof {
            assert(r@.questions =~= old_models);
            assert(r@.answers =~= seq![spec_reply_answer()]);
            assert forall|i: int| 0 <= i < r.questions@.len() implies (
            #[trigger] r.questions@[i]).wf() by {
                assert((#[trigger] self.questions@[i]).wf());
            }
            assert(r.answers@.len() == 1 && r.answers@[0].wf());
            assert(seq![spec_reply_answer()].drop_first() =~= Seq::<AnswerModel>::empty());
            assert(spec_encode_answers(seq![spec_reply_answer()]) == spec_encode_answer(
                spec_reply_answer(),
            ) + spec_encode_answers(Seq::empty()));
            assert(spec_encode_answers(Seq::<AnswerModel>::empty()) == Seq::<u8>::empty());
            lemma_encode_answer_len(spec_reply_answer());
            lemma_reply_name_parses();
            lemma_parse_name_encode(spec_reply_name_wire());
            assert(spec_reply_name_wire().take(17) =~= spec_reply_name_wire());
            assert(spec_encode_answer(spec_reply_answer()).len() == 31);
        }
        r
    }

    /// Builds the fixed reply sent when an inbound packet fails to
    /// decode: a fresh header with id 1234, response code `ServerFailure`,
    /// all flags cleared, and empty question and answer sections.
    pub fn build_error_reply() -> (r: Self)
        ensures
            r.wf(),
            r.header == (DnsHeader {
                packet_identifier: 1234,
                query_response_indicator: QRIndicator::Reply,
                operation_code: 0,
                authoritative_answer: false,
                truncation: false,
                recursion_desired: false,
                recursion_available: false,
                reserved: 0,
                response_code: ResponseCode::ServerFailure,
                question_count: 0,
                answer_record_count: 0,
                authority_record_count: 0,
                additional_record_count: 0,
            }),
            r@.questions == Seq::<QuestionModel>::empty(),
            r@.answers == Seq::<AnswerModel>::empty(),
            r.spec_wire_len() == 12,
    {
        let r = DnsMessage {
            header: DnsHeader {
                packet_identifier: 1234,
                query_response_indicator: QRIndicator::Reply,
                operation_code: 0,
                authoritative_answer: false,
                truncation: false,
                recursion_desired: false,
                recursion_available: false,
                reserved: 0,
                response_code: ResponseCode::ServerFailure,
                question_count: 0,
                answer_record_count: 0,
                authority_record_count: 0,
                additional_record_count: 0,
            },
            questions: Vec::new(),
            answers: Vec::new(),
        };
        proof {
            assert(r@.questions =~= Seq::<QuestionModel>::empty());
            assert(r@.answers =~= Seq::<AnswerModel>::empty());
            assert(spec_message_content(r@) =~= r.header.spec_to_bytes());
        }
        r
    }

    /// Whether this message's meaningful bytes fit the fixed 512-byte
    /// datagram.  A parsed message always fits; a reply built from a
    /// message whose questions nearly fill the datagram may not, and must
    /// not be serialized.
    pub fn fits_datagram(&self) -> (r: bool)
        requires
            self.wf(),
        ensures
            r <==> self.spec_wire_len() <= 512,
    {
        let ghost qms = self@.questions;
        let ghost ams = self@.answers;
        let mut used: usize = 12;
        let mut i: usize = 0;
        proof {
            assert(qms.take(0) =~= Seq::<QuestionModel>::empty());
        }
        while i < self.questions.len()
            invariant
                self.wf(),
                i <= self.questions@.len(),
                qms == self@.questions,
                ams == self@.answers,
                used == 12 + spec_encode_questions(qms.take(i as int)).len(),
                used <= 512,
            decreases self.questions@.len() - i,
        {
            let question = &self.questions[i];
            let need = question.domain_name.wire_format.len();
            proof {
                lemma_encode_questions_snoc(qms.take(i + 1));
                assert(qms.take(i + 1).drop_last() =~= qms.take(i as int));
                assert(qms.take(i + 1).last() == qms[i as int]);
                assert(spec_encode_question(qms[i as int]).len() == need + 4) by {
                    assert((#[trigger] self.questions@[i as int]).wf());
                }
            }
            if need > DATAGRAM_SIZE - used || 4 > DATAGRAM_SIZE - used - need {
                proof {
                    lemma_prefix_len_le_questions(qms, i + 1);
                    lemma_message_content_parts(self@);
                }
                return false;
            }
            used = used + need + 4;
            i = i + 1;
        }
        proof {
            assert(qms.take(qms.len() as int) =~= qms);
            assert(ams.take(0) =~= Seq::<AnswerModel>::empty());
        }
        let mut j: usize = 0;
        while j < self.answers.len()
            invariant
                self.wf(),
                j <= self.answers@.len(),
                qms == self@.questions,
                ams == self@.answers,
                used == 12 + spec_encode_questions(qms).len() + spec_encode_answers(
                    ams.take(j as int),
                ).len(),
                used <= 512,
            decreases self.answers@.len() - j,
        {
            let answer = &self.answers[j];
            let name_len = answer.domain_name.wire_format.len();
            let data_len = answer.r_data.0.len();
            proof {
                lemma_encode_answers_snoc(ams.take(j + 1));
                assert(ams.take(j + 1).drop_last() =~= ams.take(j as int));
                assert(ams.take(j + 1).last() == ams[j as int]);
                lemma_encode_answer_len(ams[j as int]);
                assert(spec_encode_answer(ams[j as int]).len() == name_len + 10 + data_len) by {
                    assert((#[trigger] self.answers@[j as int]).wf());
                }
            }
            if name_len > DATAGRAM_SIZE - used || 10 > DATAGRAM_SIZE - used - name_len
                || data_len > DATAGRAM_SIZE - used - name_len - 10 {
                proof {
                    lemma_prefix_len_le_answers(ams, j + 1);
                    lemma_message_content_parts(self@);
                }
                return false;
            }
            used = used + name_len + 10 + data_len;
            j = j + 1;
        }
        proof {
            assert(ams.take(ams.len() as int) =~= ams);
            lemma_message_content_parts(self@);
        }
        true
    }

    /// Serializes this message into the fixed 512-byte datagram: header,
    /// questions and answers back to back, the remainder zero-filled.
    /// Encoding never fails: the caller must hold a message that fits,
    /// which [`DnsMessage::fits_datagram`] decides.
    pub fn to_bytes(&self) -> (r: Vec<u8>)
        requires
            self.wf(),
            self.spec_wire_len() <= 512,
        ensures
            r@ == spec_message_bytes(self@),
            r@.len() == 512,
    {
        let ghost qms = self@.questions;
        let ghost ams = self@.answers;
        let ghost content = spec_message_content(self@);
        let mut r: Vec<u8> = Vec::new();
        let header_bytes = self.header.to_bytes();
        push_all(&mut r, header_bytes.as_slice());
        proof {
            assert(qms.take(0) =~= Seq::<QuestionModel>::empty());
            assert(r@ =~= self.header.spec_to_bytes() + spec_encode_questions(qms.take(0)));
        }
        let mut i: usize = 0;
        while i < self.questions.len()
            invariant
                self.wf(),
                i <= self.questions@.len(),
                qms == self@.questions,
                r@ == self.header.spec_to_bytes() + spec_encode_questions(qms.take(i as int)),
            decreases self.questions@.len() - i,
        {
            let question_bytes = self.questions[i].to_bytes();
            push_all(&mut r, question_bytes.as_slice());
            proof {
                lemma_encode_questions_snoc(qms.take(i + 1));
                assert(qms.take(i + 1).drop_last() =~= qms.take(i as int));
                assert(qms.take(i + 1).last() == qms[i as int]);
                assert((#[trigger] self.questions@[i as int]).wf());
                self.questions@[i as int].lemma_to_bytes_encodes();
                assert(r@ =~= self.header.spec_to_bytes() + spec_encode_questions(
                    qms.take(i + 1),
                ));
            }
            i = i + 1;
        }
        proof {
            assert(qms.take(qms.len() as int) =~= qms);
            assert(ams.take(0) =~= Seq::<AnswerModel>::empty());
            assert(r@ =~= self.header.spec_to_bytes() + spec_encode_questions(qms)
                + spec_encode_answers(ams.take(0)));
        }
        let mut j: usize = 0;
        while j < self.answers.len()
            invariant
                self.wf(),
                j <= self.answers@.len(),
                qms == self@.questions,
                ams == self@.answers,
                r@ == self.header.spec_to_bytes() + spec_encode_questions(qms)
                    + spec_encode_answers(ams.take(j as int)),
            decreases self.answers@.len() - j,
        {
            let answer_bytes = self.answers[j].to_bytes();
            push_all(&mut r, answer_bytes.as_slice());
            proof {
                lemma_encode_answers_snoc(ams.take(j + 1));
                assert(ams.take(j + 1).drop_last() =~= ams.take(j as int));
                assert(ams.take(j + 1).last() == ams[j as int]);
                assert((#[trigger] self.answers@[j as int]).wf());
                self.answers@[j as int].lemma_to_bytes_encodes();
                assert(r@ =~= self.header.spec_to_bytes() + spec_encode_questions(qms)
                    + spec_encode_answers(ams.take(j + 1)));
            }
            j = j + 1;
        }
        proof {
            assert(ams.take(ams.len() as int) =~= ams);
            assert(r@ =~= content);
            assert(r@ =~= content + spec_zeros(r@.len() - content.len()));
        }
        while r.len() < DATAGRAM_SIZE
            invariant
                content.len() <= r@.len() <= 512,
                content == spec_message_content(self@),
                r@ == content + spec_zeros(r@.len() - content.len()),
            decreases 512 - r@.len(),
        {
            r.push(0);
            proof {
                assert(r@ =~= content + spec_zeros(r@.len() - content.len()));
            }
        }
        proof {
            assert(r@ =~= spec_message_bytes(self@));
        }
        r
    }
}

/// A well-formed message model: the counts match the sections and every
/// name and payload can appear on the wire.  Every well-formed
/// [`DnsMessage`] has a well-formed model (see [`lemma_message_wf_model`]).
pub open spec fn spec_wf_model(m: MessageModel) -> bool {
    &&& m.header.wf()
    &&& m.header.question_count == m.questions.len()
    &&& m.header.answer_record_count == m.answers.len()
    &&& forall|i: int| 0 <= i < m.questions.len() ==> spec_wf_labels(#[trigger] m.questions[i].name)
    &&& forall|i: int|
        0 <= i < m.answers.len() ==> spec_wf_labels(#[trigger] m.answers[i].name)
            && m.answers[i].rdata.len() <= 0xFFFF
}

/// A well-formed message's model is well-formed.
pub proof fn lemma_message_wf_model(msg: DnsMessage)
    requires
        msg.wf(),
    ensures
        spec_wf_model(msg@),
{
    assert forall|i: int| 0 <= i < msg@.questions.len() implies spec_wf_labels(
        #[trigger] msg@.questions[i].name,
    ) by {
        assert((#[trigger] msg.questions@[i]).wf());
        assert(msg@.questions[i] == msg.questions@[i]@);
    }
    assert forall|i: int| 0 <= i < msg@.answers.len() implies spec_wf_labels(
        #[trigger] msg@.answers[i].name,
    ) && msg@.answers[i].rdata.len() <= 0xFFFF by {
        assert((#[trigger] msg.answers@[i]).wf());
        assert(msg@.answers[i] == msg.answers@[i]@);
    }
}

/// The round-trip law, decode then encode: whatever a 512-byte datagram
/// decodes to re-encodes to exactly the bytes the decode consumed — as
/// long as the response-code nibble is 0 through 5, the one field whose
/// out-of-range values are canonicalized on decode.  The padding beyond
/// the consumed bytes is the only part of the datagram not reproduced.
pub proof fn lemma_parse_message_encode(b: Seq<u8>)
    requires
        b.len() == 512,
        spec_parse_message(b) is Ok,
        b[3] % 16 <= 5,
    ensures
        ({
            let m = spec_parse_message(b)->Ok_0;
            &&& 12 <= spec_message_content(m).len() <= 512
            &&& spec_message_content(m) == b.take(spec_message_content(m).len() as int)
        }),
{
    let m = spec_parse_message(b)->Ok_0;
    let h = DnsHeader::spec_from_bytes(b);
    let (qs, cq) = spec_parse_questions(b.skip(12), h.question_count as nat)->Ok_0;
    let (ams, ca) = spec_parse_answers(b.skip(12).skip(cq), h.answer_record_count as nat)->Ok_0;
    lemma_parse_questions_ok(b.skip(12), h.question_count as nat);
    lemma_parse_answers_ok(b.skip(12).skip(cq), h.answer_record_count as nat);
    lemma_parse_questions_encode(b.skip(12), h.question_count as nat);
    lemma_parse_answers_encode(b.skip(12).skip(cq), h.answer_record_count as nat);
    let hb = b.take(12);
    assert(hb[3] == b[3]);
    lemma_header_decode_encode(hb);
    lemma_header_from_bytes_prefix(b, hb);
    assert(h.spec_to_bytes() == hb);
    assert(spec_encode_questions(qs) == b.skip(12).take(cq));
    assert(spec_encode_answers(ams) == b.skip(12).skip(cq).take(ca));
    assert(spec_message_content(m) =~= b.take(12 + cq + ca));
}

/// The round-trip law, encode then decode: the 512-byte datagram of any
/// well-formed message model that fits it decodes back to exactly that
/// model.
#[verifier::rlimit(100)]
pub proof fn lemma_message_encode_parse(m: MessageModel)
    requires
        spec_wf_model(m),
        spec_message_content(m).len() <= 512,
    ensures
        spec_parse_message(spec_message_bytes(m)) == Ok::<MessageModel, DnsError>(m),
{
    let content = spec_message_content(m);
    let b = spec_message_bytes(m);
    let hb = m.header.spec_to_bytes();
    let eq = spec_encode_questions(m.questions);
    let ea = spec_encode_answers(m.answers);
    let zeros = spec_zeros(512 - content.len());
    assert(b.len() == 512);
    lemma_header_encode_decode(m.header);
    assert(hb.len() == 12);
    assert forall|i: int| 0 <= i < 12 implies b[i] == hb[i] by {}
    lemma_header_from_bytes_prefix(b, hb);
    assert(DnsHeader::spec_from_bytes(b) == m.header);
    assert(b.skip(12) =~= eq + (ea + zeros));
    lemma_encode_questions_parse(m.questions, ea + zeros);
    assert(spec_parse_questions(b.skip(12), m.questions.len()) == Ok::<
        (Seq<QuestionModel>, int),
        DnsError,
    >((m.questions, eq.len() as int)));
    assert(b.skip(12).skip(eq.len() as int) =~= ea + zeros);
    lemma_encode_answers_parse(m.answers, zeros);
    assert(spec_parse_answers(b.skip(12).skip(eq.len() as int), m.answers.len()) == Ok::<
        (Seq<AnswerModel>, int),
        DnsError,
    >((m.answers, ea.len() as int)));
    assert(m.header.question_count as nat == m.questions.len());
    assert(m.header.answer_record_count as nat == m.answers.len());
    assert(spec_parse_message(b) == Ok::<MessageModel, DnsError>(
        MessageModel { header: m.header, questions: m.questions, answers: m.answers },
    ));
    assert(m == MessageModel { header: m.header, questions: m.questions, answers: m.answers });
}

/// The fixed 17 wire bytes of the synthetic answer's name parse as two
/// labels and the terminator, consuming all 17 bytes.
proof fn lemma_reply_name_parses()
    ensures
        spec_parse_name(spec_reply_name_wire()) is Ok,
        spec_parse_name(spec_reply_name_wire())->Ok_0.1 == 17,
{
    let b = spec_reply_name_wire();
    let b1 = b.skip(13);
    let b2 = b1.skip(3);
    assert(b.len() == 17 && b[0] == 12);
    assert(b1 =~= seq![0x02u8, 0x69, 0x6f, 0x00]);
    assert(b1[0] == 2);
    assert(b2 =~= seq![0x00u8]);
    assert(spec_parse_name(b2) == Ok::<(Seq<Seq<char>>, int), DnsError>((Seq::empty(), 1)));
    assert(spec_parse_name(b1) is Ok && spec_parse_name(b1)->Ok_0.1 == 4);
    assert(spec_parse_name(b) is Ok && spec_parse_name(b)->Ok_0.1 == 17);
}

/// The content splits into its three sections, so each section's length
/// bounds the whole.
proof fn lemma_message_content_parts(m: MessageModel)
    ensures
        spec_message_content(m).len() == 12 + spec_encode_questions(m.questions).len()
            + spec_encode_answers(m.answers).len(),
{
}

/// A prefix of the question section never encodes to more bytes than the
/// whole section.
proof fn lemma_prefix_len_le_questions(ms: Seq<QuestionModel>, i: int)
    requires
        0 <= i <= ms.len(),
    ensures
        spec_encode_questions(ms.take(i)).len() <= spec_encode_questions(ms).len(),
    decreases ms.len() - i,
{
    if i < ms.len() {
        lemma_encode_questions_snoc(ms.take(i + 1));
        assert(ms.take(i + 1).drop_last() =~= ms.take(i));
        lemma_prefix_len_le_questions(ms, i + 1);
    } else {
        assert(ms.take(i) =~= ms);
    }
}

/// A prefix of the answer section never encodes to more bytes than the
/// whole section.
proof fn lemma_prefix_len_le_answers(ms: Seq<AnswerModel>, i: int)
    requires
        0 <= i <= ms.len(),
    ensures
        spec_encode_answers(ms.take(i)).len() <= spec_encode_answers(ms).len(),
    decreases ms.len() - i,
{
    if i < ms.len() {
        lemma_encode_answers_snoc(ms.take(i + 1));
        assert(ms.take(i + 1).drop_last() =~= ms.take(i));
        lemma_prefix_len_le_answers(ms, i + 1);
    } else {
        assert(ms.take(i) =~= ms);
    }
}

/// Deep-copies the question section, preserving each question's model and
/// wire bytes.
fn clone_questions(questions: &Vec<DnsQuestion>) -> (r: Vec<DnsQuestion>)
    ensures
        r@.len() == questions@.len(),
        r@.map_values(|q: DnsQuestion| q@) == questions@.map_values(|q: DnsQuestion| q@),
        forall|i: int|
            0 <= i < questions@.len() ==> ((#[trigger] questions@[i]).wf() ==> r@[i].wf()),
{
    let cloned_questions = questions.clone();
    proof {
        assert forall|i: int|
            0 <= i < questions@.len() implies (#[trigger] cloned_questions@[i])@ == questions@[i]@
            && cloned_questions@[i].domain_name.wire_format@
            == questions@[i].domain_name.wire_format@ by {
            assert(cloned::<DnsQuestion>(questions[i], cloned_questions[i]));
        }
        assert(cloned_questions@.map_values(|q: DnsQuestion| q@) =~= questions@.map_values(
            |q: DnsQuestion| q@,
        ));
    }
    cloned_questions
}

/// Builds the one synthetic answer record every reply carries.
fn reply_answer_record() -> (r: DnsAnswerRecord)
    ensures
        r@ == spec_reply_answer(),
        r.wf(),
{
    let wire_format: Vec<u8> = vec![
        0x0c, 0x63, 0x6f, 0x64, 0x65, 0x63, 0x72, 0x61, 0x66, 0x74, 0x65, 0x72, 0x73, 0x02, 0x69,
        0x6f, 0x00,
    ];
    proof {
        assert(wire_format@ =~= spec_reply_name_wire());
        lemma_reply_name_parses();
        lemma_parse_name_encode(spec_reply_name_wire());
        assert(spec_reply_name_wire().take(17) =~= spec_reply_name_wire());
    }
    let domain_name = match DomainName::new(wire_format.as_slice()) {
        Ok(d) => d,
        Err(_) => unreached(),
    };
    let r_data = RData(vec![8, 8, 8, 8]);
    proof {
        assert(r_data.0@ =~= seq![8u8, 8u8, 8u8, 8u8]);
    }
    DnsAnswerRecord {
        domain_name,
        record_type: RecordType::A,
        class: Class::IN,
        time_to_live: 60,
        r_data_length: 4,
        r_data,
    }
}

} // verus!
