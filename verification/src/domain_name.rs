use vstd::prelude::*;

use crate::errors::DnsError;

verus! {

/// A domain name in both wire (binary) form and label (string) form.
///
/// `wire_format` holds the name exactly as it appears in a DNS packet:
/// each label preceded by its length byte, the whole sequence terminated
/// by a zero-length label.  `label_segments` holds the same labels as
/// strings, left to right, e.g. `["www", "example", "com"]`.  The two
/// fields are kept in lock step: see [`DomainName::wf`].
#[derive(Debug, PartialEq, Eq)]
pub struct DomainName {
    pub wire_format: Vec<u8>,
    pub label_segments: Vec<String>,
}

/// The characters that a label's wire bytes stand for, one per byte.
pub open spec fn spec_label_chars(bytes: Seq<u8>) -> Seq<char> {
    bytes.map_values(|b: u8| b as char)
}

/// The wire bytes of a label's characters, one per character.
pub open spec fn spec_label_bytes(label: Seq<char>) -> Seq<u8> {
    label.map_values(|c: char| c as u8)
}

/// A label that can appear on the wire: 1 to 255 characters, each one
/// standing for a single byte.
pub open spec fn spec_wf_label(label: Seq<char>) -> bool {
    &&& 1 <= label.len() <= 255
    &&& forall|i: int| 0 <= i < label.len() ==> (#[trigger] label[i] as int) < 256
}

/// Every label of the sequence can appear on the wire.
pub open spec fn spec_wf_labels(labels: Seq<Seq<char>>) -> bool {
    forall|i: int| 0 <= i < labels.len() ==> spec_wf_label(#[trigger] labels[i])
}

/// The unique wire encoding of a label sequence: each label's length byte
/// and bytes, then the terminating zero-length label.
pub open spec fn spec_encode_labels(labels: Seq<Seq<char>>) -> Seq<u8>
    decreases labels.len(),
{
    if labels.len() == 0 {
        seq![0u8]
    } else {
        seq![labels[0].len() as u8] + spec_label_bytes(labels[0]) + spec_encode_labels(
            labels.drop_first(),
        )
    }
}

/// What parsing a domain name off the front of `b` yields: the labels and
/// the number of bytes consumed (terminator included), or the first error.
///
/// A length byte of zero ends the name.  Any other length byte declares a
/// label of that many bytes; a declared label that overruns the buffer,
/// or a buffer that ends before the terminating zero byte, is an error.
/// A compression pointer (a length byte of 0xC0 or above) is not
/// recognized and is read as an oversized label length.
pub open spec fn spec_parse_name(b: Seq<u8>) -> Result<(Seq<Seq<char>>, int), DnsError>
    decreases b.len(),
{
    if b.len() == 0 {
        Err(DnsError::UnterminatedName)
    } else if b[0] == 0 {
        Ok((Seq::empty(), 1))
    } else {
        let n = b[0] as int;
        if b.len() < 1 + n {
            Err(DnsError::DeclaredLengthExceedsBuffer)
        } else {
            match spec_parse_name(b.skip(1 + n)) {
                Ok((labels, c)) => Ok(
                    (seq![spec_label_chars(b.subrange(1, 1 + n))] + labels, 1 + n + c),
                ),
                Err(e) => Err(e),
            }
        }
    }
}

/// A character that stands for a single byte survives the trip through
/// that byte.
proof fn lemma_char_byte_round_trip(c: char)
    requires
        (c as int) < 256,
    ensures
        ((c as u8) as char) == c,
{
    assert(((c as u8) as char) == c);
}

/// A successful parse consumes between 1 and `b.len()` bytes, yields
/// well-formed labels, and — the round-trip law — re-encoding those labels
/// reproduces exactly the bytes consumed.
pub proof fn lemma_parse_name_encode(b: Seq<u8>)
    requires
        spec_parse_name(b) is Ok,
    ensures
        ({
            let (labels, c) = spec_parse_name(b)->Ok_0;
            &&& 1 <= c <= b.len()
            &&& spec_wf_labels(labels)
            &&& spec_encode_labels(labels) == b.take(c)
        }),
    decreases b.len(),
{
    let (labels, c) = spec_parse_name(b)->Ok_0;
    if b[0] == 0 {
        assert(spec_encode_labels(labels) =~= b.take(c));
    } else {
        let n = b[0] as int;
        let rest = b.skip(1 + n);
        lemma_parse_name_encode(rest);
        let (labels2, c2) = spec_parse_name(rest)->Ok_0;
        let first = spec_label_chars(b.subrange(1, 1 + n));
        assert(labels == seq![first] + labels2);
        assert(labels[0] == first);
        assert(labels.drop_first() =~= labels2);
        assert(first.len() == n);
        assert(spec_wf_label(first));
        assert forall|i: int| 0 <= i < labels.len() implies spec_wf_label(
            #[trigger] labels[i],
        ) by {
            if i > 0 {
                assert(labels[i] == labels2[i - 1]);
            }
        }
        assert(spec_label_bytes(first) =~= b.subrange(1, 1 + n));
        assert(spec_encode_labels(labels2) == rest.take(c2));
        assert(spec_encode_labels(labels) =~= b.take(c));
    }
}

/// The other direction of the round-trip law: the wire encoding of any
/// well-formed label sequence parses back to exactly those labels,
/// consuming exactly the encoding, whatever bytes follow it.
pub proof fn lemma_encode_name_parse(labels: Seq<Seq<char>>, tail: Seq<u8>)
    requires
        spec_wf_labels(labels),
    ensures
        spec_parse_name(spec_encode_labels(labels) + tail) == Ok::<(Seq<Seq<char>>, int), DnsError>(
            (labels, spec_encode_labels(labels).len() as int),
        ),
    decreases labels.len(),
{
    let e = spec_encode_labels(labels);
    let b = e + tail;
    if labels.len() == 0 {
        assert(b[0] == 0);
        assert(labels =~= Seq::<Seq<char>>::empty());
    } else {
        let first = labels[0];
        let rest_labels = labels.drop_first();
        let e_rest = spec_encode_labels(rest_labels);
        let n = first.len() as int;
        assert(spec_label_bytes(first).len() == n);
        assert(b[0] == first.len() as u8);
        assert(spec_wf_label(first));
        assert(b[0] as int == n);
        assert(b.len() >= 1 + n);
        assert(b.subrange(1, 1 + n) =~= spec_label_bytes(first));
        assert forall|i: int| 0 <= i < first.len() implies spec_label_chars(
            spec_label_bytes(first),
        )[i] == first[i] by {
            let bs = spec_label_bytes(first);
            assert(bs.len() == first.len());
            assert(bs[i] == first[i] as u8);
            assert(spec_label_chars(bs)[i] == bs[i] as char);
            assert((first[i] as int) < 256);
            lemma_char_byte_round_trip(first[i]);
        }
        assert(spec_label_chars(spec_label_bytes(first)) =~= first);
        assert(b.skip(1 + n) =~= e_rest + tail);
        assert(spec_wf_labels(rest_labels)) by {
            assert forall|i: int| 0 <= i < rest_labels.len() implies spec_wf_label(
                #[trigger] rest_labels[i],
            ) by {
                assert(rest_labels[i] == labels[i + 1]);
            }
        }
        lemma_encode_name_parse(rest_labels, tail);
        assert(seq![first] + rest_labels =~= labels);
        assert(spec_parse_name(b) == Ok::<(Seq<Seq<char>>, int), DnsError>(
            (labels, e.len() as int),
        ));
    }
}

/// Relies on alloc's `String::push`: appends the given character to the
/// end of the string.
pub assume_specification[ String::push ](s: &mut String, c: char)
    ensures
        final(s)@ == old(s)@.push(c),
;

/// Composes a parse of a buffer's tail with labels already taken off its
/// front: prefix labels and consumed bytes are prepended to a success, and
/// an error passes through.
pub open spec fn spec_parse_with_prefix(
    prefix: Seq<Seq<char>>,
    pre_len: int,
    r: Result<(Seq<Seq<char>>, int), DnsError>,
) -> Result<(Seq<Seq<char>>, int), DnsError> {
    match r {
        Ok((labels, c)) => Ok((prefix + labels, pre_len + c)),
        Err(e) => Err(e),
    }
}

impl DomainName {
    /// The label sequences this name holds, as character sequences.
    pub open spec fn labels(self) -> Seq<Seq<char>> {
        self.label_segments.deep_view()
    }

    /// The stored wire bytes are exactly the encoding of the stored
    /// labels, and every label can appear on the wire.
    pub open spec fn wf(self) -> bool {
        &&& spec_wf_labels(self.labels())
        &&& self.wire_format@ == spec_encode_labels(self.labels())
    }

    /// Parses a domain name off the front of `packet`.
    ///
    /// On success the returned name holds exactly the bytes consumed as
    /// its `wire_format` and the decoded labels as `label_segments`;
    /// bytes after the terminator are left alone.  An empty buffer, a
    /// label that overruns the buffer, and a buffer that ends before the
    /// terminating zero byte each fail with their own error.
    pub fn new(packet: &[u8]) -> (r: Result<Self, DnsError>)
        ensures
            packet@.len() == 0 ==> r == Err::<Self, DnsError>(DnsError::TooShort),
            packet@.len() > 0 ==> match spec_parse_name(packet@) {
                Ok((labels, c)) => {
                    &&& r matches Ok(d)
                    &&& d.labels() == labels
                    &&& d.wire_format@ == packet@.take(c)
                    &&& d.wf()
                },
                Err(e) => r == Err::<Self, DnsError>(e),
            },
    {
        if packet.len() == 0 {
            return Err(DnsError::TooShort);
        }
        let mut wire_format: Vec<u8> = Vec::new();
        let mut label_segments: Vec<String> = Vec::new();
        let mut idx: usize = 0;
        proof {
            assert(packet@.skip(0) =~= packet@);
            assert(label_segments.deep_view() =~= Seq::<Seq<char>>::empty());
            match spec_parse_name(packet@) {
                Ok((labels, c)) => {
                    assert(Seq::<Seq<char>>::empty() + labels =~= labels);
                },
                Err(_) => {},
            }
        }
        loop
            invariant
                0 < packet@.len() <= usize::MAX,
                idx <= packet@.len(),
                wire_format@ == packet@.take(idx as int),
                spec_parse_name(packet@) == spec_parse_with_prefix(
                    label_segments.deep_view(),
                    idx as int,
                    spec_parse_name(packet@.skip(idx as int)),
                ),
            decreases packet@.len() - idx,
        {
            if idx >= packet.len() {
                return Err(DnsError::UnterminatedName);
            }
            let length_byte: u8 = packet[idx];
            if length_byte == 0 {
                wire_format.push(0);
                proof {
                    let labs = label_segments.deep_view();
                    assert(packet@.skip(idx as int).len() > 0);
                    assert(packet@.skip(idx as int)[0] == 0);
                    assert(spec_parse_name(packet@) == Ok::<(Seq<Seq<char>>, int), DnsError>(
                        (labs + Seq::empty(), idx + 1),
                    ));
                    assert(labs + Seq::<Seq<char>>::empty() =~= labs);
                    assert(wire_format@ =~= packet@.take(idx + 1));
                    lemma_parse_name_encode(packet@);
                }
                return Ok(DomainName { wire_format, label_segments });
            }
            let n: usize = length_byte as usize;
            if packet.len() - idx - 1 < n {
                proof {
                    let rest = packet@.skip(idx as int);
                    assert(rest[0] == length_byte);
                    assert(rest.len() < 1 + n);
                }
                return Err(DnsError::DeclaredLengthExceedsBuffer);
            }
            wire_format.push(length_byte);
            let mut label: String = String::new();
            let mut j: usize = 0;
            while j < n
                invariant
                    j <= n,
                    packet@.len() <= usize::MAX,
                    idx + 1 + n <= packet@.len(),
                    wire_format@ == packet@.take(idx + 1 + j),
                    label@ == spec_label_chars(packet@.subrange(idx + 1, idx + 1 + j)),
                decreases n - j,
            {
                let byte: u8 = packet[idx + 1 + j];
                wire_format.push(byte);
                label.push(byte as char);
                proof {
                    assert(packet@.take(idx + 1 + j as int).push(byte) =~= packet@.take(
                        idx + 1 + (j + 1),
                    ));
                    assert(spec_label_chars(packet@.subrange(idx + 1, idx + 1 + j as int)).push(
                        byte as char,
                    ) =~= spec_label_chars(packet@.subrange(idx + 1, idx + 1 + (j + 1))));
                }
                j = j + 1;
            }
            let ghost old_labels = label_segments.deep_view();
            let ghost old_idx = idx as int;
            label_segments.push(label);
            idx = idx + 1 + n;
            proof {
                let rest = packet@.skip(old_idx);
                assert(rest[0] == length_byte);
                assert(rest.len() >= 1 + n);
                assert(rest.subrange(1, 1 + n as int) =~= packet@.subrange(
                    old_idx + 1,
                    old_idx + 1 + n,
                ));
                assert(rest.skip(1 + n as int) =~= packet@.skip(idx as int));
                assert(label_segments.deep_view() =~= old_labels + seq![label@]);
                assert forall|r2: Result<(Seq<Seq<char>>, int), DnsError>|
                    spec_parse_with_prefix(
                        old_labels,
                        old_idx,
                        spec_parse_with_prefix(seq![label@], 1 + n as int, r2),
                    ) == spec_parse_with_prefix(
                        label_segments.deep_view(),
                        idx as int,
                        r2,
                    ) by {
                    match r2 {
                        Ok((labels2, c2)) => {
                            assert(old_labels + (seq![label@] + labels2) =~= label_segments.deep_view()
                                + labels2);
                        },
                        Err(_) => {},
                    }
                }
            }
        }
    }
}

impl Clone for DomainName {
    /// Cloning preserves both the wire bytes and the labels.
    fn clone(&self) -> (res: Self)
        ensures
            res.wire_format@ == self.wire_format@,
            res.label_segments.deep_view() == self.label_segments.deep_view(),
    {
        let wire_format = self.wire_format.clone();
        let label_segments = self.label_segments.clone();
        proof {
            assert(wire_format@ =~= self.wire_format@);
            assert forall|i: int|
                0 <= i < label_segments@.len() implies (#[trigger] label_segments@[i])@
                == self.label_segments@[i]@ by {
                assert(cloned::<String>(self.label_segments[i], label_segments[i]));
            }
            assert(label_segments.deep_view() =~= self.label_segments.deep_view());
        }
        DomainName { wire_format, label_segments }
    }
}

} // verus!
