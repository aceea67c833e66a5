use vstd::prelude::*;

use crate::class::{spec_read_class, Class};
use crate::domain_name::{
    lemma_encode_name_parse, lemma_parse_name_encode, spec_encode_labels, spec_parse_name,
    spec_wf_labels, DomainName,
};
use crate::errors::DnsError;
use crate::record_type::{spec_read_record_type, RecordType};
use crate::wire::{
    lemma_be16_join, lemma_be16_split, lemma_be32_join, lemma_be32_split, push_all, push_be16,
    push_be32, spec_be16, spec_be16_bytes, spec_be32, spec_be32_bytes,
};

verus! {

/// The raw resource data (RDATA) of a resource record: an opaque byte
/// payload whose length is carried on the wire in the 2-byte RDLENGTH
/// field just before it.
#[derive(Debug, PartialEq, Eq)]
pub struct RData(pub Vec<u8>);

/// What parsing an RDLENGTH-prefixed payload off the front of `b` yields:
/// the payload bytes and the bytes consumed (length prefix included).
///
/// The declared length is never trusted beyond what the buffer holds: a
/// payload cut short is an error, not a silent shorter read.  A length
/// field declaring zero needs no payload bytes at all: only the two
/// bytes of the field itself must be present.
pub open spec fn spec_parse_rdata(b: Seq<u8>) -> Result<(Seq<u8>, int), DnsError> {
    if b.len() < 2 {
        Err(DnsError::TooShort)
    } else {
        let n = spec_be16(b, 0) as int;
        if b.len() < 2 + n {
            Err(DnsError::DeclaredLengthExceedsBuffer)
        } else {
            Ok((b.subrange(2, 2 + n), 2 + n))
        }
    }
}

impl RData {
    /// Parses an RDLENGTH-prefixed payload off the front of
    /// `packet_slice`.
    pub fn new(packet_slice: &[u8]) -> (r: Result<Self, DnsError>)
        ensures
            match spec_parse_rdata(packet_slice@) {
                Ok((data, c)) => r matches Ok(rd) && rd.0@ == data,
                Err(e) => r == Err::<Self, DnsError>(e),
            },
    {
        if packet_slice.len() < 2 {
            return Err(DnsError::TooShort);
        }
        let r_data_length: usize = ((packet_slice[0] as u16) * 256 + (packet_slice[1] as u16))
            as usize;
        if packet_slice.len() - 2 < r_data_length {
            return Err(DnsError::DeclaredLengthExceedsBuffer);
        }
        let mut wire_format: Vec<u8> = Vec::new();
        push_all(&mut wire_format, &packet_slice[2..2 + r_data_length]);
        Ok(RData(wire_format))
    }
}

impl Clone for RData {
    /// Cloning preserves the payload bytes.
    fn clone(&self) -> (res: Self)
        ensures
            res.0@ == self.0@,
    {
        let bytes = self.0.clone();
        proof {
            assert(bytes@ =~= self.0@);
        }
        RData(bytes)
    }
}

/// A single answer record (resource record): the domain name it pertains
/// to, its type and class, a time-to-live, and a length-prefixed opaque
/// payload.
#[derive(Debug, PartialEq, Eq)]
pub struct DnsAnswerRecord {
    pub domain_name: DomainName,
    pub record_type: RecordType,
    pub class: Class,
    pub time_to_live: u32,
    pub r_data_length: usize,
    pub r_data: RData,
}

/// What an answer record holds, mathematically.  The stored RDLENGTH is
/// not part of the model: after a decode it equals the payload length by
/// construction, and serialization recomputes it from the payload.
pub ghost struct AnswerModel {
    pub name: Seq<Seq<char>>,
    pub record_type: RecordType,
    pub class: Class,
    pub ttl: u32,
    pub rdata: Seq<u8>,
}

impl View for DnsAnswerRecord {
    type V = AnswerModel;

    open spec fn view(&self) -> AnswerModel {
        AnswerModel {
            name: self.domain_name.labels(),
            record_type: self.record_type,
            class: self.class,
            ttl: self.time_to_live,
            rdata: self.r_data.0@,
        }
    }
}

/// The wire bytes of an answer record: the name's encoding, TYPE, CLASS,
/// the 4-byte TTL, RDLENGTH, and the payload itself.
pub open spec fn spec_encode_answer(m: AnswerModel) -> Seq<u8> {
    spec_encode_labels(m.name) + spec_be16_bytes(m.record_type.spec_value()) + spec_be16_bytes(
        m.class.spec_value(),
    ) + spec_be32_bytes(m.ttl) + spec_be16_bytes(m.rdata.len() as u16) + m.rdata
}

/// What parsing one answer record off the front of `b` yields: its model
/// and the bytes consumed, or the first error.  The name comes first,
/// then TYPE and CLASS, the TTL, and the RDLENGTH-prefixed payload.
pub open spec fn spec_parse_answer(b: Seq<u8>) -> Result<(AnswerModel, int), DnsError> {
    if b.len() == 0 {
        Err(DnsError::TooShort)
    } else {
        match spec_parse_name(b) {
            Err(e) => Err(e),
            Ok((labels, c)) => match spec_read_record_type(b, c) {
                Err(e) => Err(e),
                Ok(record_type) => match spec_read_class(b, c + 2) {
                    Err(e) => Err(e),
                    Ok(class) => if b.len() < c + 8 {
                        Err(DnsError::TooShort)
                    } else {
                        match spec_parse_rdata(b.skip(c + 8)) {
                            Err(e) => Err(e),
                            Ok((data, c2)) => Ok(
                                (
                                    AnswerModel {
                                        name: labels,
                                        record_type,
                                        class,
                                        ttl: spec_be32(b, c + 4),
                                        rdata: data,
                                    },
                                    c + 8 + c2,
                                ),
                            ),
                        }
                    },
                },
            },
        }
    }
}

/// A successfully parsed answer consumes between 11 and `b.len()` bytes,
/// its labels are well-formed, its payload fits the 16-bit length field,
/// and — the round-trip law — re-encoding the model reproduces exactly
/// the bytes consumed.
pub proof fn lemma_parse_answer_encode(b: Seq<u8>)
    requires
        spec_parse_answer(b) is Ok,
    ensures
        ({
            let (m, c) = spec_parse_answer(b)->Ok_0;
            &&& 11 <= c <= b.len()
            &&& spec_wf_labels(m.name)
            &&& m.rdata.len() <= 0xFFFF
            &&& spec_encode_answer(m) == b.take(c)
        }),
{
    let (m, c) = spec_parse_answer(b)->Ok_0;
    let (labels, cn) = spec_parse_name(b)->Ok_0;
    lemma_parse_name_encode(b);
    let tv = spec_be16(b, cn);
    let cv = spec_be16(b, cn + 2);
    RecordType::lemma_from_value_round_trip(tv);
    Class::lemma_from_value_round_trip(cv);
    lemma_be16_split(b[cn], b[cn + 1]);
    lemma_be16_split(b[cn + 2], b[cn + 3]);
    assert(spec_be16_bytes(m.record_type.spec_value()) =~= seq![b[cn], b[cn + 1]]);
    assert(spec_be16_bytes(m.class.spec_value()) =~= seq![b[cn + 2], b[cn + 3]]);
    lemma_be32_split(b[cn + 4], b[cn + 5], b[cn + 6], b[cn + 7]);
    assert(spec_be32_bytes(m.ttl) =~= seq![b[cn + 4], b[cn + 5], b[cn + 6], b[cn + 7]]);
    let rb = b.skip(cn + 8);
    let n = spec_be16(rb, 0) as int;
    assert(rb[0] == b[cn + 8] && rb[1] == b[cn + 9]);
    lemma_be16_split(b[cn + 8], b[cn + 9]);
    assert(m.rdata.len() == n);
    assert(spec_be16_bytes(m.rdata.len() as u16) =~= seq![b[cn + 8], b[cn + 9]]);
    assert(m.rdata =~= b.subrange(cn + 10, cn + 10 + n));
    assert(spec_encode_labels(m.name) == b.take(cn));
    assert(spec_encode_answer(m) =~= b.take(c));
}

/// The other direction of the round-trip law: the wire bytes of a
/// well-formed answer model parse back to exactly that model, consuming
/// exactly those bytes, whatever bytes follow them.
pub proof fn lemma_encode_answer_parse(m: AnswerModel, tail: Seq<u8>)
    requires
        spec_wf_labels(m.name),
        m.rdata.len() <= 0xFFFF,
    ensures
        spec_parse_answer(spec_encode_answer(m) + tail) == Ok::<(AnswerModel, int), DnsError>(
            (m, spec_encode_answer(m).len() as int),
        ),
{
    let e = spec_encode_answer(m);
    let b = e + tail;
    let en = spec_encode_labels(m.name);
    let cn = en.len() as int;
    let type_bytes = spec_be16_bytes(m.record_type.spec_value());
    let class_bytes = spec_be16_bytes(m.class.spec_value());
    let ttl_bytes = spec_be32_bytes(m.ttl);
    let len_bytes = spec_be16_bytes(m.rdata.len() as u16);
    let after_name = type_bytes + class_bytes + ttl_bytes + len_bytes + m.rdata + tail;
    assert(en + after_name =~= b);
    lemma_encode_name_parse(m.name, after_name);
    assert(spec_parse_name(b) == Ok::<(Seq<Seq<char>>, int), DnsError>((m.name, cn)));
    assert(b.len() == cn + 10 + m.rdata.len() + tail.len());
    assert(b[cn] == type_bytes[0] && b[cn + 1] == type_bytes[1]);
    assert(b[cn + 2] == class_bytes[0] && b[cn + 3] == class_bytes[1]);
    assert(b[cn + 4] == ttl_bytes[0] && b[cn + 5] == ttl_bytes[1] && b[cn + 6] == ttl_bytes[2]
        && b[cn + 7] == ttl_bytes[3]);
    assert(b[cn + 8] == len_bytes[0] && b[cn + 9] == len_bytes[1]);
    lemma_be16_join(m.record_type.spec_value());
    lemma_be16_join(m.class.spec_value());
    assert(spec_be16(b, cn) == m.record_type.spec_value());
    assert(spec_be16(b, cn + 2) == m.class.spec_value());
    m.record_type.lemma_value_round_trip();
    m.class.lemma_value_round_trip();
    lemma_be32_join(m.ttl);
    assert(spec_be32(b, cn + 4) == m.ttl);
    let rb = b.skip(cn + 8);
    assert(rb.len() == 2 + m.rdata.len() + tail.len());
    assert(rb[0] == len_bytes[0] && rb[1] == len_bytes[1]);
    lemma_be16_join(m.rdata.len() as u16);
    assert(spec_be16(rb, 0) == m.rdata.len() as u16);
    assert(rb.subrange(2, 2 + m.rdata.len() as int) =~= m.rdata);
    assert(spec_parse_rdata(rb) == Ok::<(Seq<u8>, int), DnsError>(
        (m.rdata, 2 + m.rdata.len() as int),
    ));
}

/// What parsing `n` consecutive answer records off the front of `b`
/// yields.  As with questions, the batch is all-or-nothing.
pub open spec fn spec_parse_answers(b: Seq<u8>, n: nat) -> Result<
    (Seq<AnswerModel>, int),
    DnsError,
>
    decreases n,
{
    if n == 0 {
        Ok((Seq::empty(), 0))
    } else {
        match spec_parse_answer(b) {
            Err(_) => Err(DnsError::SectionCountMismatch),
            Ok((m, c)) => match spec_parse_answers(b.skip(c), (n - 1) as nat) {
                Err(e) => Err(e),
                Ok((ms, c2)) => Ok((seq![m] + ms, c + c2)),
            },
        }
    }
}

/// A successful batch parse yields exactly `n` models, each well-formed,
/// and consumes between `11 * n` and `b.len()` bytes.
pub proof fn lemma_parse_answers_ok(b: Seq<u8>, n: nat)
    requires
        spec_parse_answers(b, n) is Ok,
    ensures
        ({
            let (ms, c) = spec_parse_answers(b, n)->Ok_0;
            &&& ms.len() == n
            &&& 11 * n <= c <= b.len()
            &&& forall|i: int|
                0 <= i < ms.len() ==> spec_wf_labels(#[trigger] ms[i].name) && ms[i].rdata.len()
                    <= 0xFFFF
        }),
    decreases n,
{
    if n > 0 {
        let (m, c) = spec_parse_answer(b)->Ok_0;
        lemma_parse_answer_encode(b);
        lemma_parse_answers_ok(b.skip(c), (n - 1) as nat);
        let (ms2, c2) = spec_parse_answers(b.skip(c), (n - 1) as nat)->Ok_0;
        assert forall|i: int|
            0 <= i < spec_parse_answers(b, n)->Ok_0.0.len() implies spec_wf_labels(
            #[trigger] spec_parse_answers(b, n)->Ok_0.0[i].name,
        ) && spec_parse_answers(b, n)->Ok_0.0[i].rdata.len() <= 0xFFFF by {
            if i > 0 {
                assert(spec_parse_answers(b, n)->Ok_0.0[i] == ms2[i - 1]);
            }
        }
    }
}

/// The count contract for answer records, stated generally: a batch of
/// `n + 1` entries succeeds if and only if a batch of `n` succeeds and one
/// more complete record follows the bytes those `n` consumed.
pub proof fn lemma_parse_answers_step(b: Seq<u8>, n: nat)
    ensures
        spec_parse_answers(b, n + 1) == match spec_parse_answers(b, n) {
            Err(e) => Err::<(Seq<AnswerModel>, int), DnsError>(e),
            Ok((ms, c)) => match spec_parse_answer(b.skip(c)) {
                Err(_) => Err::<(Seq<AnswerModel>, int), DnsError>(
                    DnsError::SectionCountMismatch,
                ),
                Ok((m, c2)) => Ok::<(Seq<AnswerModel>, int), DnsError>((ms + seq![m], c + c2)),
            },
        },
    decreases n,
{
    if n == 0 {
        assert(b.skip(0) =~= b);
        match spec_parse_answer(b) {
            Ok((m, c)) => {
                assert(Seq::<AnswerModel>::empty() + seq![m] =~= seq![m]);
                assert(seq![m] + Seq::<AnswerModel>::empty() =~= seq![m]);
                assert(spec_parse_answers(b, 0) == Ok::<(Seq<AnswerModel>, int), DnsError>((Seq::empty(), 0)));
                assert(spec_parse_answers(b.skip(c), 0) == Ok::<(Seq<AnswerModel>, int), DnsError>((Seq::empty(), 0)));
                assert(spec_parse_answers(b, 1) == Ok::<(Seq<AnswerModel>, int), DnsError>((seq![m], c)));
            },
            Err(_) => {
                assert(spec_parse_answers(b, 1) == Err::<(Seq<AnswerModel>, int), DnsError>(DnsError::SectionCountMismatch));
            },
        }
    } else {
        match spec_parse_answer(b) {
            Ok((m, c)) => {
                lemma_parse_answers_step(b.skip(c), (n - 1) as nat);
                match spec_parse_answers(b.skip(c), (n - 1) as nat) {
                    Ok((ms2, c2)) => {
                        assert(b.skip(c).skip(c2) =~= b.skip(c + c2)) by {
                            lemma_parse_answers_ok(b.skip(c), (n - 1) as nat);
                            lemma_parse_answer_encode(b);
                        }
                        match spec_parse_answer(b.skip(c + c2)) {
                            Ok((m3, c3)) => {
                                assert(seq![m] + (ms2 + seq![m3]) =~= (seq![m] + ms2) + seq![m3]);
                            },
                            Err(_) => {},
                        }
                    },
                    Err(_) => {},
                }
            },
            Err(_) => {},
        }
    }
}

/// The wire bytes of a whole answer section: each record's encoding,
/// concatenated in order.
pub open spec fn spec_encode_answers(ms: Seq<AnswerModel>) -> Seq<u8>
    decreases ms.len(),
{
    if ms.len() == 0 {
        Seq::empty()
    } else {
        spec_encode_answer(ms[0]) + spec_encode_answers(ms.drop_first())
    }
}

/// An encoded answer record is never shorter than 11 bytes: at least one
/// byte of name, four of TYPE and CLASS, four of TTL, two of RDLENGTH.
pub proof fn lemma_encode_answer_len(m: AnswerModel)
    ensures
        spec_encode_answer(m).len() >= 11,
        spec_encode_answer(m).len() == spec_encode_labels(m.name).len() + 10 + m.rdata.len(),
{
    if m.name.len() == 0 {
        assert(spec_encode_labels(m.name).len() == 1);
    } else {
        assert(spec_encode_labels(m.name).len() >= 1);
    }
}

/// A section's encoding splits at its last record.
pub proof fn lemma_encode_answers_snoc(ms: Seq<AnswerModel>)
    requires
        ms.len() > 0,
    ensures
        spec_encode_answers(ms) == spec_encode_answers(ms.drop_last()) + spec_encode_answer(
            ms.last(),
        ),
    decreases ms.len(),
{
    if ms.len() == 1 {
        assert(ms.drop_last() =~= Seq::<AnswerModel>::empty());
        assert(ms.drop_first() =~= Seq::<AnswerModel>::empty());
        assert(spec_encode_answers(ms) =~= spec_encode_answers(ms.drop_last())
            + spec_encode_answer(ms.last()));
    } else {
        lemma_encode_answers_snoc(ms.drop_first());
        assert(ms.drop_first().drop_last() =~= ms.drop_last().drop_first());
        assert(ms.drop_last()[0] == ms[0]);
        assert(ms.drop_first().last() == ms.last());
        assert(spec_encode_answers(ms) =~= spec_encode_answers(ms.drop_last())
            + spec_encode_answer(ms.last()));
    }
}

/// Batch form of the decode-then-encode law: re-encoding the models of a
/// successful batch parse reproduces exactly the bytes the batch consumed.
pub proof fn lemma_parse_answers_encode(b: Seq<u8>, n: nat)
    requires
        spec_parse_answers(b, n) is Ok,
    ensures
        ({
            let (ms, c) = spec_parse_answers(b, n)->Ok_0;
            spec_encode_answers(ms) == b.take(c)
        }),
    decreases n,
{
    if n == 0 {
        assert(b.take(0) =~= Seq::<u8>::empty());
        assert(spec_encode_answers(Seq::empty()) == Seq::<u8>::empty());
    } else {
        let (m, c1) = spec_parse_answer(b)->Ok_0;
        lemma_parse_answer_encode(b);
        lemma_parse_answers_encode(b.skip(c1), (n - 1) as nat);
        let (ms2, c2) = spec_parse_answers(b.skip(c1), (n - 1) as nat)->Ok_0;
        lemma_parse_answers_ok(b.skip(c1), (n - 1) as nat);
        let (ms, c) = spec_parse_answers(b, n)->Ok_0;
        assert(ms.drop_first() =~= ms2);
        assert(ms[0] == m);
        assert(spec_encode_answer(m) == b.take(c1));
        assert(spec_encode_answers(ms2) == b.skip(c1).take(c2));
        assert(b.take(c1) + b.skip(c1).take(c2) =~= b.take(c1 + c2));
        assert(spec_encode_answers(ms) == b.take(c));
    }
}

/// Batch form of the encode-then-decode law: the encoding of any sequence
/// of well-formed answer models parses back to exactly those models,
/// whatever bytes follow it.
pub proof fn lemma_encode_answers_parse(ms: Seq<AnswerModel>, tail: Seq<u8>)
    requires
        forall|i: int|
            0 <= i < ms.len() ==> spec_wf_labels(#[trigger] ms[i].name) && ms[i].rdata.len()
                <= 0xFFFF,
    ensures
        spec_parse_answers(spec_encode_answers(ms) + tail, ms.len()) == Ok::<
            (Seq<AnswerModel>, int),
            DnsError,
        >((ms, spec_encode_answers(ms).len() as int)),
    decreases ms.len(),
{
    let e = spec_encode_answers(ms);
    let b = e + tail;
    if ms.len() == 0 {
        assert(e =~= Seq::<u8>::empty());
        assert(ms =~= Seq::<AnswerModel>::empty());
        assert(spec_parse_answers(b, 0) == Ok::<(Seq<AnswerModel>, int), DnsError>(
            (Seq::empty(), 0),
        ));
    } else {
        let m0 = ms[0];
        let rest = ms.drop_first();
        let e0 = spec_encode_answer(m0);
        let e_rest = spec_encode_answers(rest);
        assert(e0 + (e_rest + tail) =~= b);
        lemma_encode_answer_parse(m0, e_rest + tail);
        assert(spec_parse_answer(b) == Ok::<(AnswerModel, int), DnsError>((m0, e0.len() as int)));
        assert(b.skip(e0.len() as int) =~= e_rest + tail);
        assert(forall|i: int|
            0 <= i < rest.len() ==> spec_wf_labels(#[trigger] rest[i].name) && rest[i].rdata.len()
                <= 0xFFFF) by {
            assert(forall|i: int| 0 <= i < rest.len() ==> rest[i] == ms[i + 1]);
        }
        lemma_encode_answers_parse(rest, tail);
        assert(seq![m0] + rest =~= ms);
        assert(spec_parse_answers(b, ms.len()) == Ok::<(Seq<AnswerModel>, int), DnsError>(
            (ms, e.len() as int),
        ));
    }
}

/// Composes a batch parse of a buffer's tail with records already taken
/// off its front.
pub open spec fn spec_answers_with_prefix(
    prefix: Seq<AnswerModel>,
    pre_len: int,
    r: Result<(Seq<AnswerModel>, int), DnsError>,
) -> Result<(Seq<AnswerModel>, int), DnsError> {
    match r {
        Ok((ms, c)) => Ok((prefix + ms, pre_len + c)),
        Err(e) => Err(e),
    }
}

impl DnsAnswerRecord {
    /// The name's wire bytes and labels are in lock step, and the stored
    /// RDLENGTH equals the payload's actual length, which fits the 16-bit
    /// wire field.
    pub open spec fn wf(self) -> bool {
        &&& self.domain_name.wf()
        &&& self.r_data_length == self.r_data.0@.len()
        &&& self.r_data.0@.len() <= 0xFFFF
    }

    /// The wire bytes this record serializes to.  RDLENGTH is recomputed
    /// from the payload's actual length, never taken from a stale field.
    pub open spec fn spec_to_bytes(self) -> Seq<u8> {
        self.domain_name.wire_format@ + spec_be16_bytes(self.record_type.spec_value())
            + spec_be16_bytes(self.class.spec_value()) + spec_be32_bytes(self.time_to_live)
            + spec_be16_bytes(self.r_data.0@.len() as u16) + self.r_data.0@
    }

    /// A well-formed record serializes to the encoding of its model.
    pub proof fn lemma_to_bytes_encodes(self)
        requires
            self.wf(),
        ensures
            self.spec_to_bytes() == spec_encode_answer(self@),
    {
    }

    /// Reads the 4-byte big-endian TTL that sits four bytes past the end
    /// of a domain name of `domain_name_len` wire bytes.
    fn get_ttl_from_packet(packet_slice: &[u8], domain_name_len: usize) -> (r: Result<
        u32,
        DnsError,
    >)
        ensures
            domain_name_len + 8 <= packet_slice@.len() ==> r == Ok::<u32, DnsError>(
                spec_be32(packet_slice@, domain_name_len + 4),
            ),
            domain_name_len + 8 > packet_slice@.len() ==> r == Err::<u32, DnsError>(
                DnsError::TooShort,
            ),
    {
        if packet_slice.len() >= 8 && domain_name_len <= packet_slice.len() - 8 {
            let ttl_start_index = domain_name_len + 4;
            Ok(
                (packet_slice[ttl_start_index] as u32) * 0x1000000 + (packet_slice[ttl_start_index
                    + 1] as u32) * 0x10000 + (packet_slice[ttl_start_index + 2] as u32) * 0x100 + (
                packet_slice[ttl_start_index + 3] as u32),
            )
        } else {
            Err(DnsError::TooShort)
        }
    }

    /// Reads the RDLENGTH-prefixed payload that sits eight bytes past the
    /// end of a domain name of `domain_name_len` wire bytes.
    fn get_r_data_from_packet(packet_slice: &[u8], domain_name_len: usize) -> (r: Result<
        RData,
        DnsError,
    >)
        ensures
            domain_name_len + 8 <= packet_slice@.len() ==> match spec_parse_rdata(
                packet_slice@.skip(domain_name_len + 8),
            ) {
                Ok((data, c)) => r matches Ok(rd) && rd.0@ == data,
                Err(e) => r == Err::<RData, DnsError>(e),
            },
            domain_name_len + 8 > packet_slice@.len() ==> r == Err::<RData, DnsError>(
                DnsError::TooShort,
            ),
    {
        if packet_slice.len() >= 8 && domain_name_len <= packet_slice.len() - 8 {
            let r_data_start_index = domain_name_len + 8;
            let rest = &packet_slice[r_data_start_index..packet_slice.len()];
            proof {
                assert(rest@ =~= packet_slice@.skip(domain_name_len + 8));
            }
            RData::new(rest)
        } else {
            Err(DnsError::TooShort)
        }
    }

    /// Parses one answer record off the front of `packet_slice`.
    pub fn new(packet_slice: &[u8]) -> (r: Result<Self, DnsError>)
        ensures
            match spec_parse_answer(packet_slice@) {
                Ok((m, c)) => {
                    &&& r matches Ok(a)
                    &&& a@ == m
                    &&& a.wf()
                    &&& a.domain_name.wire_format@.len() + 10 + a.r_data_length == c
                },
                Err(e) => r == Err::<Self, DnsError>(e),
            },
    {
        proof {
            if packet_slice@.len() > 0 && spec_parse_name(packet_slice@) is Ok {
                lemma_parse_name_encode(packet_slice@);
            }
        }
        let domain_name = match DomainName::new(packet_slice) {
            Ok(d) => d,
            Err(e) => {
                return Err(e);
            },
        };
        let domain_name_len = domain_name.wire_format.len();
        let record_type = match RecordType::new(packet_slice, domain_name_len) {
            Ok(t) => t,
            Err(e) => {
                return Err(e);
            },
        };
        let class = match Class::new(packet_slice, domain_name_len) {
            Ok(c) => c,
            Err(e) => {
                return Err(e);
            },
        };
        let time_to_live = match Self::get_ttl_from_packet(packet_slice, domain_name_len) {
            Ok(t) => t,
            Err(e) => {
                return Err(e);
            },
        };
        let r_data = match Self::get_r_data_from_packet(packet_slice, domain_name_len) {
            Ok(d) => d,
            Err(e) => {
                return Err(e);
            },
        };
        let r_data_length = r_data.0.len();
        proof {
            if spec_parse_answer(packet_slice@) is Ok {
                lemma_parse_answer_encode(packet_slice@);
            }
        }
        Ok(
            DnsAnswerRecord {
                domain_name,
                record_type,
                class,
                time_to_live,
                r_data_length,
                r_data,
            },
        )
    }

    /// Parses exactly `number_of_answers` consecutive answer records.
    /// All-or-nothing, like the question section: any failed entry fails
    /// the whole batch with `SectionCountMismatch`.  On success the
    /// returned slice starts right after the last record.
    pub fn parse_all_answers<'a>(packet_slice: &'a [u8], number_of_answers: usize) -> (r: Result<
        (Vec<Self>, &'a [u8]),
        DnsError,
    >)
        ensures
            match spec_parse_answers(packet_slice@, number_of_answers as nat) {
                Ok((ms, c)) => {
                    &&& r matches Ok((answers, rest))
                    &&& answers@.len() == ms.len()
                    &&& forall|i: int|
                        0 <= i < answers@.len() ==> (#[trigger] answers@[i])@ == ms[i]
                            && answers@[i].wf()
                    &&& rest@ == packet_slice@.skip(c)
                },
                Err(e) => r == Err::<(Vec<Self>, &'a [u8]), DnsError>(e),
            },
    {
        let mut answers: Vec<Self> = Vec::new();
        let mut current_slice: &[u8] = packet_slice;
        let mut parsed: usize = 0;
        proof {
            assert(answers@.map_values(|a: Self| a@) =~= Seq::<AnswerModel>::empty());
            assert(packet_slice@.skip(0) =~= packet_slice@);
            match spec_parse_answers(packet_slice@, number_of_answers as nat) {
                Ok((ms, c)) => {
                    assert(Seq::<AnswerModel>::empty() + ms =~= ms);
                },
                Err(_) => {},
            }
        }
        while parsed < number_of_answers
            invariant
                parsed <= number_of_answers,
                answers@.len() == parsed,
                forall|i: int| 0 <= i < answers@.len() ==> (#[trigger] answers@[i]).wf(),
                current_slice@.len() <= packet_slice@.len(),
                current_slice@ == packet_slice@.skip(
                    packet_slice@.len() - current_slice@.len(),
                ),
                spec_parse_answers(packet_slice@, number_of_answers as nat)
                    == spec_answers_with_prefix(
                    answers@.map_values(|a: Self| a@),
                    packet_slice@.len() - current_slice@.len(),
                    spec_parse_answers(current_slice@, (number_of_answers - parsed) as nat),
                ),
            decreases number_of_answers - parsed,
        {
            let ghost old_slice = current_slice@;
            let ghost old_models = answers@.map_values(|a: Self| a@);
            let ghost old_off = packet_slice@.len() - current_slice@.len();
            match Self::new(current_slice) {
                Err(_) => {
                    return Err(DnsError::SectionCountMismatch);
                },
                Ok(answer) => {
                    let ghost (m, c) = spec_parse_answer(old_slice)->Ok_0;
                    proof {
                        lemma_parse_answer_encode(old_slice);
                    }
                    let end = current_slice.len();
                    let consumed = answer.domain_name.wire_format.len() + 10
                        + answer.r_data_length;
                    let next_slice = &current_slice[consumed..end];
                    answers.push(answer);
                    current_slice = next_slice;
                    parsed = parsed + 1;
                    proof {
                        assert(current_slice@ =~= old_slice.skip(c));
                        assert(current_slice@ =~= packet_slice@.skip(old_off + c));
                        assert(packet_slice@.len() - current_slice@.len() == old_off + c);
                        assert(answers@.map_values(|a: Self| a@) =~= old_models + seq![m]);
                        match spec_parse_answers(
                            current_slice@,
                            (number_of_answers - parsed) as nat,
                        ) {
                            Ok((ms2, c2)) => {
                                assert(old_models + (seq![m] + ms2) =~= (old_models + seq![m])
                                    + ms2);
                            },
                            Err(_) => {},
                        }
                    }
                },
            }
        }
        proof {
            match spec_parse_answers(packet_slice@, number_of_answers as nat) {
                Ok((ms, c)) => {
                    assert(spec_parse_answers(current_slice@, 0) == Ok::<
                        (Seq<AnswerModel>, int),
                        DnsError,
                    >((Seq::empty(), 0)));
                    assert(answers@.map_values(|a: Self| a@) + Seq::<AnswerModel>::empty()
                        =~= answers@.map_values(|a: Self| a@));
                    assert(ms == answers@.map_values(|a: Self| a@));
                    assert forall|i: int|
                        0 <= i < answers@.len() implies (#[trigger] answers@[i])@ == ms[i] by {
                        assert(answers@.map_values(|a: Self| a@)[i] == ms[i]);
                    }
                },
                Err(_) => {},
            }
        }
        Ok((answers, current_slice))
    }

    /// Serializes this record: the name's wire bytes, TYPE, CLASS, TTL,
    /// then RDLENGTH recomputed from the payload's actual length, then
    /// the payload.
    pub fn to_bytes(&self) -> (r: Vec<u8>)
        requires
            self.r_data.0@.len() <= 0xFFFF,
        ensures
            r@ == self.spec_to_bytes(),
    {
        let mut r: Vec<u8> = Vec::new();
        push_all(&mut r, self.domain_name.wire_format.as_slice());
        push_be16(&mut r, self.record_type.value());
        push_be16(&mut r, self.class.value());
        push_be32(&mut r, self.time_to_live);
        push_be16(&mut r, self.r_data.0.len() as u16);
        push_all(&mut r, self.r_data.0.as_slice());
        proof {
            assert(r@ =~= self.spec_to_bytes());
        }
        r
    }
}

impl Clone for DnsAnswerRecord {
    /// Cloning preserves the model, the name's wire bytes, and the stored
    /// RDLENGTH.
    fn clone(&self) -> (res: Self)
        ensures
            res@ == self@,
            res.domain_name.wire_format@ == self.domain_name.wire_format@,
            res.r_data_length == self.r_data_length,
    {
        DnsAnswerRecord {
            domain_name: self.domain_name.clone(),
            record_type: self.record_type,
            class: self.class,
            time_to_live: self.time_to_live,
            r_data_length: self.r_data_length,
            r_data: self.r_data.clone(),
        }
    }
}

} // verus!
