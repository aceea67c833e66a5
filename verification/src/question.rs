use vstd::prelude::*;

use crate::class::{spec_read_class, Class};
use crate::domain_name::{
    lemma_encode_name_parse, lemma_parse_name_encode, spec_encode_labels, spec_parse_name,
    spec_wf_labels, DomainName,
};
use crate::errors::DnsError;
use crate::record_type::{spec_read_record_type, RecordType};
use crate::wire::{
    lemma_be16_join, lemma_be16_split, push_all, push_be16, spec_be16, spec_be16_bytes,
};

verus! {

/// A single entry of the question section: the domain name being asked
/// about, the record type requested, and the class of the query.
#[derive(Debug, PartialEq, Eq)]
pub struct DnsQuestion {
    pub domain_name: DomainName,
    pub record_type: RecordType,
    pub class: Class,
}

/// What a question holds, mathematically: its labels and its two closed
/// enumerations.  The name's wire bytes are determined by the labels.
pub ghost struct QuestionModel {
    pub name: Seq<Seq<char>>,
    pub record_type: RecordType,
    pub class: Class,
}

impl View for DnsQuestion {
    type V = QuestionModel;

    open spec fn view(&self) -> QuestionModel {
        QuestionModel {
            name: self.domain_name.labels(),
            record_type: self.record_type,
            class: self.class,
        }
    }
}

/// The wire bytes of a question: the name's encoding, then TYPE and CLASS,
/// two big-endian bytes each.
pub open spec fn spec_encode_question(m: QuestionModel) -> Seq<u8> {
    spec_encode_labels(m.name) + spec_be16_bytes(m.record_type.spec_value()) + spec_be16_bytes(
        m.class.spec_value(),
    )
}

/// What parsing one question off the front of `b` yields: its model and
/// the bytes consumed, or the first error.  The name is parsed first; the
/// four TYPE and CLASS bytes must follow it immediately.
pub open spec fn spec_parse_question(b: Seq<u8>) -> Result<(QuestionModel, int), DnsError> {
    if b.len() == 0 {
        Err(DnsError::TooShort)
    } else {
        match spec_parse_name(b) {
            Err(e) => Err(e),
            Ok((labels, c)) => match spec_read_record_type(b, c) {
                Err(e) => Err(e),
                Ok(record_type) => match spec_read_class(b, c + 2) {
                    Err(e) => Err(e),
                    Ok(class) => Ok((QuestionModel { name: labels, record_type, class }, c + 4)),
                },
            },
        }
    }
}

/// A successfully parsed question consumes between 5 and `b.len()` bytes,
/// its labels are well-formed, and — the round-trip law — re-encoding the
/// model reproduces exactly the bytes consumed.
pub proof fn lemma_parse_question_encode(b: Seq<u8>)
    requires
        spec_parse_question(b) is Ok,
    ensures
        ({
            let (m, c) = spec_parse_question(b)->Ok_0;
            &&& 5 <= c <= b.len()
            &&& spec_wf_labels(m.name)
            &&& spec_encode_question(m) == b.take(c)
        }),
{
    let (m, c) = spec_parse_question(b)->Ok_0;
    let (labels, cn) = spec_parse_name(b)->Ok_0;
    lemma_parse_name_encode(b);
    let tv = spec_be16(b, cn);
    let cv = spec_be16(b, cn + 2);
    RecordType::lemma_from_value_round_trip(tv);
    Class::lemma_from_value_round_trip(cv);
    lemma_be16_split(b[cn], b[cn + 1]);
    lemma_be16_split(b[cn + 2], b[cn + 3]);
    assert(spec_be16_bytes(m.record_type.spec_value()) =~= seq![b[cn], b[cn + 1]]);
    assert(spec_be16_bytes(m.class.spec_value()) =~= seq![b[cn + 2], b[cn + 3]]);
    assert(spec_encode_labels(m.name) == b.take(cn));
    assert(spec_encode_question(m) =~= b.take(c));
}

/// The other direction of the round-trip law: the wire bytes of any
/// well-formed question model parse back to exactly that model, consuming
/// exactly those bytes, whatever bytes follow them.
pub proof fn lemma_encode_question_parse(m: QuestionModel, tail: Seq<u8>)
    requires
        spec_wf_labels(m.name),
    ensures
        spec_parse_question(spec_encode_question(m) + tail) == Ok::<(QuestionModel, int), DnsError>(
            (m, spec_encode_question(m).len() as int),
        ),
{
    let e = spec_encode_question(m);
    let b = e + tail;
    let en = spec_encode_labels(m.name);
    let cn = en.len() as int;
    let type_bytes = spec_be16_bytes(m.record_type.spec_value());
    let class_bytes = spec_be16_bytes(m.class.spec_value());
    assert(en + (type_bytes + class_bytes + tail) =~= b);
    lemma_encode_name_parse(m.name, type_bytes + class_bytes + tail);
    assert(spec_parse_name(b) == Ok::<(Seq<Seq<char>>, int), DnsError>((m.name, cn)));
    assert(b.len() == cn + 4 + tail.len());
    assert(b[cn] == type_bytes[0] && b[cn + 1] == type_bytes[1]);
    assert(b[cn + 2] == class_bytes[0] && b[cn + 3] == class_bytes[1]);
    lemma_be16_join(m.record_type.spec_value());
    lemma_be16_join(m.class.spec_value());
    assert(spec_be16(b, cn) == m.record_type.spec_value());
    assert(spec_be16(b, cn + 2) == m.class.spec_value());
    m.record_type.lemma_value_round_trip();
    m.class.lemma_value_round_trip();
    assert(spec_read_record_type(b, cn) == Ok::<RecordType, DnsError>(m.record_type));
    assert(spec_read_class(b, cn + 2) == Ok::<Class, DnsError>(m.class));
}

/// What parsing `n` consecutive questions off the front of `b` yields:
/// their models and the total bytes consumed.  Any entry that fails to
/// decode aborts the whole batch: the section held fewer than `n`
/// complete entries.
pub open spec fn spec_parse_questions(b: Seq<u8>, n: nat) -> Result<
    (Seq<QuestionModel>, int),
    DnsError,
>
    decreases n,
{
    if n == 0 {
        Ok((Seq::empty(), 0))
    } else {
        match spec_parse_question(b) {
            Err(_) => Err(DnsError::SectionCountMismatch),
            Ok((m, c)) => match spec_parse_questions(b.skip(c), (n - 1) as nat) {
                Err(e) => Err(e),
                Ok((ms, c2)) => Ok((seq![m] + ms, c + c2)),
            },
        }
    }
}

/// A successful batch parse yields exactly `n` models, each well-formed,
/// and consumes between `5 * n` and `b.len()` bytes.
pub proof fn lemma_parse_questions_ok(b: Seq<u8>, n: nat)
    requires
        spec_parse_questions(b, n) is Ok,
    ensures
        ({
            let (ms, c) = spec_parse_questions(b, n)->Ok_0;
            &&& ms.len() == n
            &&& 5 * n <= c <= b.len()
            &&& forall|i: int| 0 <= i < ms.len() ==> spec_wf_labels(#[trigger] ms[i].name)
        }),
    decreases n,
{
    if n > 0 {
        let (m, c) = spec_parse_question(b)->Ok_0;
        lemma_parse_question_encode(b);
        lemma_parse_questions_ok(b.skip(c), (n - 1) as nat);
        let (ms2, c2) = spec_parse_questions(b.skip(c), (n - 1) as nat)->Ok_0;
        assert forall|i: int|
            0 <= i < spec_parse_questions(b, n)->Ok_0.0.len() implies spec_wf_labels(
            #[trigger] spec_parse_questions(b, n)->Ok_0.0[i].name,
        ) by {
            if i > 0 {
                assert(spec_parse_questions(b, n)->Ok_0.0[i] == ms2[i - 1]);
            }
        }
    }
}

/// The count contract, stated generally: a batch of `n + 1` entries
/// succeeds if and only if a batch of `n` succeeds and one more complete
/// entry follows the bytes those `n` consumed — and then the larger batch
/// consumes exactly the first `n` entries' bytes plus the extra entry's.
pub proof fn lemma_parse_questions_step(b: Seq<u8>, n: nat)
    ensures
        spec_parse_questions(b, n + 1) == match spec_parse_questions(b, n) {
            Err(e) => Err::<(Seq<QuestionModel>, int), DnsError>(e),
            Ok((ms, c)) => match spec_parse_question(b.skip(c)) {
                Err(_) => Err::<(Seq<QuestionModel>, int), DnsError>(
                    DnsError::SectionCountMismatch,
                ),
                Ok((m, c2)) => Ok::<(Seq<QuestionModel>, int), DnsError>(
                    (ms + seq![m], c + c2),
                ),
            },
        },
    decreases n,
{
    if n == 0 {
        assert(b.skip(0) =~= b);
        match spec_parse_question(b) {
            Ok((m, c)) => {
                assert(Seq::<QuestionModel>::empty() + seq![m] =~= seq![m]);
                assert(seq![m] + Seq::<QuestionModel>::empty() =~= seq![m]);
                assert(spec_parse_questions(b, 0) == Ok::<(Seq<QuestionModel>, int), DnsError>(
                    (Seq::empty(), 0),
                ));
                assert(spec_parse_questions(b.skip(c), 0) == Ok::<
                    (Seq<QuestionModel>, int),
                    DnsError,
                >((Seq::empty(), 0)));
                assert(spec_parse_questions(b, 1) == Ok::<(Seq<QuestionModel>, int), DnsError>(
                    (seq![m], c),
                ));
            },
            Err(_) => {
                assert(spec_parse_questions(b, 1) == Err::<(Seq<QuestionModel>, int), DnsError>(
                    DnsError::SectionCountMismatch,
                ));
            },
        }
    } else {
        match spec_parse_question(b) {
            Ok((m, c)) => {
                lemma_parse_questions_step(b.skip(c), (n - 1) as nat);
                match spec_parse_questions(b.skip(c), (n - 1) as nat) {
                    Ok((ms2, c2)) => {
                        assert(b.skip(c).skip(c2) =~= b.skip(c + c2)) by {
                            lemma_parse_questions_ok(b.skip(c), (n - 1) as nat);
                            lemma_parse_question_encode(b);
                        }
                        match spec_parse_question(b.skip(c + c2)) {
                            Ok((m3, c3)) => {
                                assert(seq![m] + (ms2 + seq![m3]) =~= (seq![m] + ms2) + seq![m3]);
                            },
                            Err(_) => {},
                        }
                    },
                    Err(_) => {},
                }
            },
            Err(_) => {},
        }
    }
}

/// The wire bytes of a whole question section: each entry's encoding,
/// concatenated in order.
pub open spec fn spec_encode_questions(ms: Seq<QuestionModel>) -> Seq<u8>
    decreases ms.len(),
{
    if ms.len() == 0 {
        Seq::empty()
    } else {
        spec_encode_question(ms[0]) + spec_encode_questions(ms.drop_first())
    }
}

/// A section's encoding splits at its last entry.
pub proof fn lemma_encode_questions_snoc(ms: Seq<QuestionModel>)
    requires
        ms.len() > 0,
    ensures
        spec_encode_questions(ms) == spec_encode_questions(ms.drop_last())
            + spec_encode_question(ms.last()),
    decreases ms.len(),
{
    if ms.len() == 1 {
        assert(ms.drop_last() =~= Seq::<QuestionModel>::empty());
        assert(ms.drop_first() =~= Seq::<QuestionModel>::empty());
        assert(spec_encode_questions(ms) =~= spec_encode_questions(ms.drop_last())
            + spec_encode_question(ms.last()));
    } else {
        lemma_encode_questions_snoc(ms.drop_first());
        assert(ms.drop_first().drop_last() =~= ms.drop_last().drop_first());
        assert(ms.drop_last()[0] == ms[0]);
        assert(ms.drop_first().last() == ms.last());
        assert(spec_encode_questions(ms) =~= spec_encode_questions(ms.drop_last())
            + spec_encode_question(ms.last()));
    }
}

/// Batch form of the decode-then-encode law: re-encoding the models of a
/// successful batch parse reproduces exactly the bytes the batch consumed.
pub proof fn lemma_parse_questions_encode(b: Seq<u8>, n: nat)
    requires
        spec_parse_questions(b, n) is Ok,
    ensures
        ({
            let (ms, c) = spec_parse_questions(b, n)->Ok_0;
            spec_encode_questions(ms) == b.take(c)
        }),
    decreases n,
{
    if n == 0 {
        assert(b.take(0) =~= Seq::<u8>::empty());
        assert(spec_encode_questions(Seq::empty()) == Seq::<u8>::empty());
    } else {
        let (m, c1) = spec_parse_question(b)->Ok_0;
        lemma_parse_question_encode(b);
        lemma_parse_questions_encode(b.skip(c1), (n - 1) as nat);
        let (ms2, c2) = spec_parse_questions(b.skip(c1), (n - 1) as nat)->Ok_0;
        lemma_parse_questions_ok(b.skip(c1), (n - 1) as nat);
        let (ms, c) = spec_parse_questions(b, n)->Ok_0;
        assert(ms.drop_first() =~= ms2);
        assert(ms[0] == m);
        assert(spec_encode_question(m) == b.take(c1));
        assert(spec_encode_questions(ms2) == b.skip(c1).take(c2));
        assert(b.take(c1) + b.skip(c1).take(c2) =~= b.take(c1 + c2));
        assert(spec_encode_questions(ms) == b.take(c));
    }
}

/// Batch form of the encode-then-decode law: the encoding of any sequence
/// of well-formed question models parses back to exactly those models,
/// whatever bytes follow it.
pub proof fn lemma_encode_questions_parse(ms: Seq<QuestionModel>, tail: Seq<u8>)
    requires
        forall|i: int| 0 <= i < ms.len() ==> spec_wf_labels(#[trigger] ms[i].name),
    ensures
        spec_parse_questions(spec_encode_questions(ms) + tail, ms.len()) == Ok::<
            (Seq<QuestionModel>, int),
            DnsError,
        >((ms, spec_encode_questions(ms).len() as int)),
    decreases ms.len(),
{
    let e = spec_encode_questions(ms);
    let b = e + tail;
    if ms.len() == 0 {
        assert(e =~= Seq::<u8>::empty());
        assert(ms =~= Seq::<QuestionModel>::empty());
        assert(spec_parse_questions(b, 0) == Ok::<(Seq<QuestionModel>, int), DnsError>(
            (Seq::empty(), 0),
        ));
    } else {
        let m0 = ms[0];
        let rest = ms.drop_first();
        let e0 = spec_encode_question(m0);
        let e_rest = spec_encode_questions(rest);
        assert(e0 + (e_rest + tail) =~= b);
        lemma_encode_question_parse(m0, e_rest + tail);
        assert(spec_parse_question(b) == Ok::<(QuestionModel, int), DnsError>(
            (m0, e0.len() as int),
        ));
        assert(b.skip(e0.len() as int) =~= e_rest + tail);
        assert(forall|i: int| 0 <= i < rest.len() ==> spec_wf_labels(#[trigger] rest[i].name))
            by {
            assert(forall|i: int| 0 <= i < rest.len() ==> rest[i] == ms[i + 1]);
        }
        lemma_encode_questions_parse(rest, tail);
        assert(seq![m0] + rest =~= ms);
        assert(spec_parse_questions(b, ms.len()) == Ok::<(Seq<QuestionModel>, int), DnsError>(
            (ms, e.len() as int),
        ));
    }
}

/// Composes a batch parse of a buffer's tail with entries already taken
/// off its front.
pub open spec fn spec_questions_with_prefix(
    prefix: Seq<QuestionModel>,
    pre_len: int,
    r: Result<(Seq<QuestionModel>, int), DnsError>,
) -> Result<(Seq<QuestionModel>, int), DnsError> {
    match r {
        Ok((ms, c)) => Ok((prefix + ms, pre_len + c)),
        Err(e) => Err(e),
    }
}

impl DnsQuestion {
    /// The name's wire bytes and labels are in lock step.
    pub open spec fn wf(self) -> bool {
        self.domain_name.wf()
    }

    /// The wire bytes this question serializes to.
    pub open spec fn spec_to_bytes(self) -> Seq<u8> {
        self.domain_name.wire_format@ + spec_be16_bytes(self.record_type.spec_value())
            + spec_be16_bytes(self.class.spec_value())
    }

    /// A well-formed question serializes to the encoding of its model.
    pub proof fn lemma_to_bytes_encodes(self)
        requires
            self.wf(),
        ensures
            self.spec_to_bytes() == spec_encode_question(self@),
    {
    }

    /// Parses one question off the front of `packet`: a domain name, then
    /// exactly four more bytes holding TYPE and CLASS.
    pub fn new(packet: &[u8]) -> (r: Result<Self, DnsError>)
        ensures
            match spec_parse_question(packet@) {
                Ok((m, c)) => {
                    &&& r matches Ok(q)
                    &&& q@ == m
                    &&& q.wf()
                    &&& q.domain_name.wire_format@.len() + 4 == c
                },
                Err(e) => r == Err::<Self, DnsError>(e),
            },
    {
        proof {
            if packet@.len() > 0 && spec_parse_name(packet@) is Ok {
                lemma_parse_name_encode(packet@);
            }
        }
        let domain_name = match DomainName::new(packet) {
            Ok(d) => d,
            Err(e) => {
                return Err(e);
            },
        };
        let domain_name_len = domain_name.wire_format.len();
        let record_type = match RecordType::new(packet, domain_name_len) {
            Ok(t) => t,
            Err(e) => {
                return Err(e);
            },
        };
        let class = match Class::new(packet, domain_name_len) {
            Ok(c) => c,
            Err(e) => {
                return Err(e);
            },
        };
        Ok(DnsQuestion { domain_name, record_type, class })
    }

    /// Parses one question and hands back the rest of the buffer, starting
    /// right after the question's last byte.
    fn parse_and_return_next_slice<'a>(packet_slice: &'a [u8]) -> (r: Result<
        (Self, &'a [u8]),
        DnsError,
    >)
        ensures
            match spec_parse_question(packet_slice@) {
                Ok((m, c)) => {
                    &&& r matches Ok((q, rest))
                    &&& q@ == m
                    &&& q.wf()
                    &&& rest@ == packet_slice@.skip(c)
                },
                Err(e) => r == Err::<(Self, &'a [u8]), DnsError>(e),
            },
    {
        let question = match Self::new(packet_slice) {
            Ok(q) => q,
            Err(e) => {
                return Err(e);
            },
        };
        proof {
            lemma_parse_question_encode(packet_slice@);
        }
        let end = packet_slice.len();
        let domain_name_len = question.domain_name.wire_format.len();
        assert(domain_name_len + 4 <= end);
        let rest = &packet_slice[domain_name_len + 4..end];
        proof {
            assert(rest@ =~= packet_slice@.skip(domain_name_len + 4));
        }
        Ok((question, rest))
    }

    /// Parses exactly `number_of_questions` consecutive questions.  The
    /// batch is all-or-nothing: if any entry fails, the whole call fails
    /// with `SectionCountMismatch` and no partial list is returned.  On
    /// success the returned slice starts right after the last question.
    pub fn parse_all_questions<'a>(packet_slice: &'a [u8], number_of_questions: usize) -> (r:
        Result<(Vec<Self>, &'a [u8]), DnsError>)
        ensures
            match spec_parse_questions(packet_slice@, number_of_questions as nat) {
                Ok((ms, c)) => {
                    &&& r matches Ok((qs, rest))
                    &&& qs@.len() == ms.len()
                    &&& forall|i: int|
                        0 <= i < qs@.len() ==> (#[trigger] qs@[i])@ == ms[i] && qs@[i].wf()
                    &&& rest@ == packet_slice@.skip(c)
                },
                Err(e) => r == Err::<(Vec<Self>, &'a [u8]), DnsError>(e),
            },
    {
        let mut questions: Vec<Self> = Vec::new();
        let mut current_slice: &[u8] = packet_slice;
        let mut parsed: usize = 0;
        proof {
            assert(questions@.map_values(|q: Self| q@) =~= Seq::<QuestionModel>::empty());
            assert(packet_slice@.skip(0) =~= packet_slice@);
            match spec_parse_questions(packet_slice@, number_of_questions as nat) {
                Ok((ms, c)) => {
                    assert(Seq::<QuestionModel>::empty() + ms =~= ms);
                },
                Err(_) => {},
            }
        }
        while parsed < number_of_questions
            invariant
                parsed <= number_of_questions,
                questions@.len() == parsed,
                forall|i: int| 0 <= i < questions@.len() ==> (#[trigger] questions@[i]).wf(),
                current_slice@.len() <= packet_slice@.len(),
                current_slice@ == packet_slice@.skip(
                    packet_slice@.len() - current_slice@.len(),
                ),
                spec_parse_questions(packet_slice@, number_of_questions as nat)
                    == spec_questions_with_prefix(
                    questions@.map_values(|q: Self| q@),
                    packet_slice@.len() - current_slice@.len(),
                    spec_parse_questions(
                        current_slice@,
                        (number_of_questions - parsed) as nat,
                    ),
                ),
            decreases number_of_questions - parsed,
        {
            let ghost old_slice = current_slice@;
            let ghost old_models = questions@.map_values(|q: Self| q@);
            let ghost old_off = packet_slice@.len() - current_slice@.len();
            match Self::parse_and_return_next_slice(current_slice) {
                Err(_) => {
                    return Err(DnsError::SectionCountMismatch);
                },
                Ok((question, next_slice)) => {
                    let ghost (m, c) = spec_parse_question(old_slice)->Ok_0;
                    questions.push(question);
                    current_slice = next_slice;
                    parsed = parsed + 1;
                    proof {
                        lemma_parse_question_encode(old_slice);
                        assert(current_slice@ == old_slice.skip(c));
                        assert(current_slice@ =~= packet_slice@.skip(old_off + c));
                        assert(packet_slice@.len() - current_slice@.len() == old_off + c);
                        assert(questions@.map_values(|q: Self| q@) =~= old_models + seq![m]);
                        match spec_parse_questions(
                            current_slice@,
                            (number_of_questions - parsed) as nat,
                        ) {
                            Ok((ms2, c2)) => {
                                assert(old_models + (seq![m] + ms2) =~= (old_models + seq![m])
                                    + ms2);
                            },
                            Err(_) => {},
                        }
                    }
                },
            }
        }
        proof {
            match spec_parse_questions(packet_slice@, number_of_questions as nat) {
                Ok((ms, c)) => {
                    assert(spec_parse_questions(current_slice@, 0)
                        == Ok::<(Seq<QuestionModel>, int), DnsError>((Seq::empty(), 0)));
                    assert(questions@.map_values(|q: Self| q@) + Seq::<QuestionModel>::empty()
                        =~= questions@.map_values(|q: Self| q@));
                    assert(ms == questions@.map_values(|q: Self| q@));
                    assert forall|i: int|
                        0 <= i < questions@.len() implies (#[trigger] questions@[i])@
                        == ms[i] by {
                        assert(questions@.map_values(|q: Self| q@)[i] == ms[i]);
                    }
                },
                Err(_) => {},
            }
        }
        Ok((questions, current_slice))
    }

    /// Serializes this question: the name's wire bytes, then TYPE and
    /// CLASS, two big-endian bytes each.
    pub fn to_bytes(&self) -> (r: Vec<u8>)
        ensures
            r@ == self.spec_to_bytes(),
    {
        let mut r: Vec<u8> = Vec::new();
        push_all(&mut r, self.domain_name.wire_format.as_slice());
        push_be16(&mut r, self.record_type.value());
        push_be16(&mut r, self.class.value());
        proof {
            assert(r@ =~= self.spec_to_bytes());
        }
        r
    }
}

impl Clone for DnsQuestion {
    /// Cloning preserves the model and the name's wire bytes.
    fn clone(&self) -> (res: Self)
        ensures
            res@ == self@,
            res.domain_name.wire_format@ == self.domain_name.wire_format@,
    {
        DnsQuestion {
            domain_name: self.domain_name.clone(),
            record_type: self.record_type,
            class: self.class,
        }
    }
}

} // verus!
