//! How attribute blocks are put together, and what the decoder makes of a
//! block that was put together that way.
//!
//! Nothing here runs: the functions describe the encoding, and the proofs
//! show that decoding undoes it.

use vstd::prelude::*;

use crate::as_path_parser::{
    attribute_at, decode, extended_length, header_at, segment_of, sequences_from, AttributeOutcome,
    UnknownTypePolicy, known_type_code, AS_PATH, AS_SEQUENCE, AS_SET,
};
use crate::error::ErrorSpec;
use crate::helper::{be_u16, be_u32};

verus! {

/// Whether a value of this length can be announced by a header with these
/// flags.
pub open spec fn encodable(flags: u8, value: Seq<u8>) -> bool {
    if extended_length(flags) {
        value.len() <= 0xffff
    } else {
        value.len() <= 0xff
    }
}

/// The header that announces `value`.
pub open spec fn encode_header(flags: u8, type_code: u8, value: Seq<u8>) -> Seq<u8> {
    if extended_length(flags) {
        seq![flags, type_code, (value.len() / 256) as u8, (value.len() % 256) as u8]
    } else {
        seq![flags, type_code, value.len() as u8]
    }
}

/// One attribute: its header, then its value.
pub open spec fn encode_attribute(flags: u8, type_code: u8, value: Seq<u8>) -> Seq<u8> {
    encode_header(flags, type_code, value) + value
}

/// The byte of `asn` at place `k`, the most significant at place 0.
pub open spec fn asn_byte(asn: u32, k: int) -> u8 {
    if k == 0 {
        (asn / 16777216) as u8
    } else if k == 1 {
        ((asn / 65536) % 256) as u8
    } else if k == 2 {
        ((asn / 256) % 256) as u8
    } else {
        (asn % 256) as u8
    }
}

/// AS numbers as bytes, four to each, big-endian.
pub open spec fn encode_asns(asns: Seq<u32>) -> Seq<u8> {
    Seq::new(4 * asns.len(), |i: int| asn_byte(asns[i / 4], i % 4))
}

/// One segment of an AS_PATH value: its kind, the count, the AS numbers.
pub open spec fn encode_segment(kind: u8, asns: Seq<u32>) -> Seq<u8> {
    seq![kind, asns.len() as u8] + encode_asns(asns)
}

/// What one attribute yields, by its type code and value alone.
pub open spec fn attribute_yield(
    type_code: u8,
    value: Seq<u8>,
    policy: UnknownTypePolicy,
) -> Result<Option<Seq<u32>>, ErrorSpec> {
    if policy is Reject && !known_type_code(type_code) {
        Err(ErrorSpec::UnknownTypeCode { unknown_type_code: type_code })
    } else if type_code == AS_PATH {
        segment_of(value)
    } else {
        Ok(None)
    }
}

/// Whether `bytes` is a run of whole attributes none of which holds an
/// AS_SEQUENCE.
pub open spec fn yields_nothing(bytes: Seq<u8>, policy: UnknownTypePolicy) -> bool {
    sequences_from(bytes, 0, policy) == Ok::<Seq<Seq<u32>>, ErrorSpec>(Seq::empty())
}

/// The four bytes of an AS number give the number back.
pub proof fn lemma_asn_bytes(asn: u32)
    ensures
        be_u32(asn_byte(asn, 0), asn_byte(asn, 1), asn_byte(asn, 2), asn_byte(asn, 3)) == asn,
{
    assert(asn / 16777216 < 256) by (bit_vector);
    assert((asn / 16777216) * 16777216 + ((asn / 65536) % 256) * 65536 + ((asn / 256) % 256) * 256
        + asn % 256 == asn) by (bit_vector);
}

/// The first segment of a value that starts with an encoded AS_SEQUENCE is
/// that sequence, whatever follows it.
pub proof fn lemma_segment_of_sequence(asns: Seq<u32>, tail: Seq<u8>)
    requires
        asns.len() <= 255,
    ensures
        segment_of(encode_segment(AS_SEQUENCE, asns) + tail) == Ok::<Option<Seq<u32>>, ErrorSpec>(
            Some(asns),
        ),
{
    let value = encode_segment(AS_SEQUENCE, asns) + tail;
    let decoded = Seq::new(value[1] as nat, |i: int| crate::as_path_parser::asn_at(value, i));
    assert(value[0] == AS_SEQUENCE);
    assert(value[1] == asns.len());
    assert forall|i: int| 0 <= i < asns.len() implies decoded[i] == asns[i] by {
        lemma_asn_bytes(asns[i]);
        assert(value[2 + 4 * i] == encode_asns(asns)[4 * i]);
        assert(value[3 + 4 * i] == encode_asns(asns)[4 * i + 1]);
        assert(value[4 + 4 * i] == encode_asns(asns)[4 * i + 2]);
        assert(value[5 + 4 * i] == encode_asns(asns)[4 * i + 3]);
    }
    assert(decoded =~= asns);
}

/// A value that starts with an encoded AS_SET yields no AS numbers,
/// whatever follows the set.
pub proof fn lemma_segment_of_set(members: Seq<u32>, tail: Seq<u8>)
    requires
        members.len() <= 255,
    ensures
        segment_of(encode_segment(AS_SET, members) + tail) == Ok::<Option<Seq<u32>>, ErrorSpec>(
            None,
        ),
{
    let value = encode_segment(AS_SET, members) + tail;
    assert(value[0] == AS_SET);
    assert(value[1] == members.len());
}

/// An encoded attribute, read from its first byte, yields what its type
/// code and value say, and the read ends where the attribute ends.
pub proof fn lemma_attribute_alone(
    flags: u8,
    type_code: u8,
    value: Seq<u8>,
    policy: UnknownTypePolicy,
)
    requires
        encodable(flags, value),
        attribute_yield(type_code, value, policy) is Ok,
    ensures
        attribute_at(encode_attribute(flags, type_code, value), 0, policy) == (AttributeOutcome {
            result: attribute_yield(type_code, value, policy),
            next: encode_attribute(flags, type_code, value).len() as int,
        }),
{
    let bytes = encode_attribute(flags, type_code, value);
    let header = encode_header(flags, type_code, value);
    assert(bytes[0] == flags);
    assert(bytes[1] == type_code);
    if extended_length(flags) {
        assert(bytes[2] == (value.len() / 256) as u8);
        assert(bytes[3] == (value.len() % 256) as u8);
        assert(be_u16(bytes[2], bytes[3]) == value.len());
    } else {
        assert(bytes[2] == value.len() as u8);
    }
    let h = header_at(bytes, 0)->Some_0;
    assert(h.value_start == header.len());
    assert(h.value_len == value.len());
    assert(bytes.subrange(h.value_start, h.value_start + h.value_len) =~= value);
}

/// An attribute that was read whole reads the same with more bytes after
/// the block.
pub proof fn lemma_attribute_in_front(
    x: Seq<u8>,
    y: Seq<u8>,
    pos: int,
    policy: UnknownTypePolicy,
)
    requires
        0 <= pos,
        attribute_at(x, pos, policy).result is Ok,
    ensures
        attribute_at(x + y, pos, policy) == attribute_at(x, pos, policy),
{
    let h = header_at(x, pos)->Some_0;
    assert(header_at(x + y, pos) == header_at(x, pos));
    assert((x + y).subrange(h.value_start, h.value_start + h.value_len) =~= x.subrange(
        h.value_start,
        h.value_start + h.value_len,
    ));
}

/// Reading an attribute behind `x` is reading it in what follows `x`.
pub proof fn lemma_attribute_behind(x: Seq<u8>, y: Seq<u8>, pos: int, policy: UnknownTypePolicy)
    requires
        0 <= pos,
    ensures
        attribute_at(x + y, x.len() + pos, policy).result == attribute_at(y, pos, policy).result,
        attribute_at(x + y, x.len() + pos, policy).next == x.len() + attribute_at(
            y,
            pos,
            policy,
        ).next,
{
    let n = x.len() as int;
    if pos + 3 <= y.len() {
        assert((x + y)[n + pos] == y[pos]);
        assert((x + y)[n + pos + 1] == y[pos + 1]);
        assert((x + y)[n + pos + 2] == y[pos + 2]);
        if pos + 4 <= y.len() {
            assert((x + y)[n + pos + 3] == y[pos + 3]);
        }
        if header_at(y, pos) is Some {
            let h = header_at(y, pos)->Some_0;
            if h.value_start + h.value_len <= y.len() {
                let end = h.value_start + h.value_len;
                assert((x + y).subrange(n + h.value_start, n + end) =~= y.subrange(
                    h.value_start,
                    end,
                ));
            }
        }
    }
}

/// The attributes behind `x` are the attributes of what follows `x`.
pub proof fn lemma_sequences_behind(x: Seq<u8>, y: Seq<u8>, pos: int, policy: UnknownTypePolicy)
    requires
        0 <= pos,
    ensures
        sequences_from(x + y, x.len() + pos, policy) == sequences_from(y, pos, policy),
    decreases y.len() - pos,
{
    if pos < y.len() {
        lemma_attribute_behind(x, y, pos, policy);
        let outcome = attribute_at(y, pos, policy);
        if outcome.result is Ok {
            lemma_sequences_behind(x, y, outcome.next, policy);
        }
    }
}

/// What a block yields with more bytes behind it: its own sequences, then
/// those of the bytes behind, or the error that those bytes give.
pub open spec fn followed_by(
    found: Seq<Seq<u32>>,
    rest: Result<Seq<Seq<u32>>, ErrorSpec>,
) -> Result<Seq<Seq<u32>>, ErrorSpec> {
    match rest {
        Ok(more) => Ok(found + more),
        Err(e) => Err(e),
    }
}

/// Attribute blocks compose: where `x` is a run of whole attributes, the
/// sequences of `x + y` from `pos` on are those of `x` from `pos` on, then
/// those of `y`.
pub proof fn lemma_sequences_from_concat(
    x: Seq<u8>,
    y: Seq<u8>,
    pos: int,
    policy: UnknownTypePolicy,
)
    requires
        0 <= pos <= x.len(),
        sequences_from(x, pos, policy) is Ok,
    ensures
        sequences_from(x + y, pos, policy) == followed_by(
            sequences_from(x, pos, policy)->Ok_0,
            sequences_from(y, 0, policy),
        ),
    decreases x.len() - pos,
{
    let found = sequences_from(x, pos, policy)->Ok_0;
    if pos == x.len() {
        assert(found =~= Seq::<Seq<u32>>::empty());
        lemma_sequences_behind(x, y, 0, policy);
        match sequences_from(y, 0, policy) {
            Ok(more) => {
                assert(found + more =~= more);
            },
            Err(_) => {},
        }
    } else {
        let outcome = attribute_at(x, pos, policy);
        lemma_attribute_in_front(x, y, pos, policy);
        lemma_sequences_from_concat(x, y, outcome.next, policy);
        let tail = sequences_from(x, outcome.next, policy)->Ok_0;
        match outcome.result {
            Ok(Some(path)) => {
                match sequences_from(y, 0, policy) {
                    Ok(more) => {
                        assert(seq![path] + (tail + more) =~= (seq![path] + tail) + more);
                    },
                    Err(_) => {},
                }
            },
            _ => {},
        }
    }
}

/// Attribute blocks compose: the sequences of a run of whole attributes
/// with more bytes behind it are its own, then those of the bytes behind.
pub proof fn lemma_sequences_concat(x: Seq<u8>, y: Seq<u8>, policy: UnknownTypePolicy)
    requires
        sequences_from(x, 0, policy) is Ok,
    ensures
        sequences_from(x + y, 0, policy) == followed_by(
            sequences_from(x, 0, policy)->Ok_0,
            sequences_from(y, 0, policy),
        ),
{
    lemma_sequences_from_concat(x, y, 0, policy);
}

/// A block that holds no AS_SEQUENCE changes nothing in front of other
/// bytes.
pub proof fn lemma_nothing_in_front(x: Seq<u8>, y: Seq<u8>, policy: UnknownTypePolicy)
    requires
        yields_nothing(x, policy),
    ensures
        sequences_from(x + y, 0, policy) == sequences_from(y, 0, policy),
{
    lemma_sequences_concat(x, y, policy);
    match sequences_from(y, 0, policy) {
        Ok(more) => {
            assert(Seq::<Seq<u32>>::empty() + more =~= more);
        },
        Err(_) => {},
    }
}

/// A block that holds no AS_SEQUENCE changes nothing behind a run of whole
/// attributes.
pub proof fn lemma_nothing_behind(x: Seq<u8>, y: Seq<u8>, policy: UnknownTypePolicy)
    requires
        sequences_from(x, 0, policy) is Ok,
        yields_nothing(y, policy),
    ensures
        sequences_from(x + y, 0, policy) == sequences_from(x, 0, policy),
{
    lemma_sequences_concat(x, y, policy);
    let found = sequences_from(x, 0, policy)->Ok_0;
    assert(found + Seq::<Seq<u32>>::empty() =~= found);
}

/// The sequences of a block that is one encoded attribute.
pub proof fn lemma_attribute_sequences(
    flags: u8,
    type_code: u8,
    value: Seq<u8>,
    policy: UnknownTypePolicy,
)
    requires
        encodable(flags, value),
        attribute_yield(type_code, value, policy) is Ok,
    ensures
        sequences_from(encode_attribute(flags, type_code, value), 0, policy) == (
        match attribute_yield(type_code, value, policy) {
            Ok(Some(path)) => if path.len() == 0 {
                Err(ErrorSpec::NoAsPathInAttributePath)
            } else {
                Ok(seq![path])
            },
            _ => Ok(Seq::empty()),
        }),
{
    let bytes = encode_attribute(flags, type_code, value);
    lemma_attribute_alone(flags, type_code, value, policy);
    assert(sequences_from(bytes, bytes.len() as int, policy) == Ok::<Seq<Seq<u32>>, ErrorSpec>(
        Seq::empty(),
    ));
    match attribute_yield(type_code, value, policy) {
        Ok(Some(path)) => {
            assert(seq![path] + Seq::<Seq<u32>>::empty() =~= seq![path]);
        },
        _ => {},
    }
}

/// An attribute of another type than AS_PATH holds no AS_SEQUENCE,
/// whatever its value is.
pub proof fn lemma_other_attribute(
    flags: u8,
    type_code: u8,
    value: Seq<u8>,
    policy: UnknownTypePolicy,
)
    requires
        encodable(flags, value),
        type_code != AS_PATH,
        policy is Reject ==> known_type_code(type_code),
    ensures
        yields_nothing(encode_attribute(flags, type_code, value), policy),
{
    lemma_attribute_sequences(flags, type_code, value, policy);
}

/// An AS_PATH attribute whose first segment is an AS_SET adds nothing to
/// what the decoder finds: the members of the set are never reported.
pub proof fn lemma_as_set_attribute(
    flags: u8,
    members: Seq<u32>,
    tail: Seq<u8>,
    policy: UnknownTypePolicy,
)
    requires
        members.len() <= 255,
        encodable(flags, encode_segment(AS_SET, members) + tail),
    ensures
        yields_nothing(
            encode_attribute(flags, AS_PATH, encode_segment(AS_SET, members) + tail),
            policy,
        ),
{
    lemma_segment_of_set(members, tail);
    lemma_attribute_sequences(flags, AS_PATH, encode_segment(AS_SET, members) + tail, policy);
}

/// An AS_PATH attribute whose first segment is an AS_SEQUENCE holds that
/// sequence, in the order in which it was encoded.
pub proof fn lemma_as_sequence_attribute(
    flags: u8,
    asns: Seq<u32>,
    tail: Seq<u8>,
    policy: UnknownTypePolicy,
)
    requires
        0 < asns.len() <= 255,
        encodable(flags, encode_segment(AS_SEQUENCE, asns) + tail),
    ensures
        sequences_from(
            encode_attribute(flags, AS_PATH, encode_segment(AS_SEQUENCE, asns) + tail),
            0,
            policy,
        ) == Ok::<Seq<Seq<u32>>, ErrorSpec>(seq![asns]),
{
    lemma_segment_of_sequence(asns, tail);
    lemma_attribute_sequences(flags, AS_PATH, encode_segment(AS_SEQUENCE, asns) + tail, policy);
}

/// Decoding returns exactly the AS numbers of the encoded AS_SEQUENCE, in
/// their encoded order, wherever the attribute stands among attributes that
/// hold no AS_SEQUENCE, AS_SETs among them, and whatever segments follow
/// the sequence inside its attribute.
pub proof fn lemma_decode_as_sequence(
    before: Seq<u8>,
    flags: u8,
    asns: Seq<u32>,
    tail: Seq<u8>,
    after: Seq<u8>,
    policy: UnknownTypePolicy,
)
    requires
        yields_nothing(before, policy),
        yields_nothing(after, policy),
        0 < asns.len() <= 255,
        encodable(flags, encode_segment(AS_SEQUENCE, asns) + tail),
    ensures
        decode(
            before + encode_attribute(flags, AS_PATH, encode_segment(AS_SEQUENCE, asns) + tail)
                + after,
            policy,
        ) == Ok::<Seq<u32>, ErrorSpec>(asns),
{
    let attribute = encode_attribute(flags, AS_PATH, encode_segment(AS_SEQUENCE, asns) + tail);
    lemma_as_sequence_attribute(flags, asns, tail, policy);
    lemma_sequence_between(before, attribute, after, asns, policy);
    assert((before + attribute + after).len() >= attribute.len() > 0);
}

/// An empty block has no attribute to look at.
pub proof fn lemma_decode_empty(policy: UnknownTypePolicy)
    ensures
        decode(Seq::<u8>::empty(), policy) == Err::<Seq<u32>, ErrorSpec>(
            ErrorSpec::MissingPathAttribute { missing_attribute: "all attributes"@ },
        ),
{
}

/// A block of whole attributes that holds no AS_SEQUENCE has no path.
pub proof fn lemma_decode_without_sequence(bytes: Seq<u8>, policy: UnknownTypePolicy)
    requires
        bytes.len() > 0,
        yields_nothing(bytes, policy),
    ensures
        decode(bytes, policy) == Err::<Seq<u32>, ErrorSpec>(ErrorSpec::NoAsPathInAttributePath),
{
}

/// A block with two AS_PATH attributes that each hold an AS_SEQUENCE is
/// refused, wherever the two stand.
pub proof fn lemma_decode_two_sequences(
    before: Seq<u8>,
    first_flags: u8,
    first: Seq<u32>,
    between: Seq<u8>,
    second_flags: u8,
    second: Seq<u32>,
    after: Seq<u8>,
    policy: UnknownTypePolicy,
)
    requires
        yields_nothing(before, policy),
        yields_nothing(between, policy),
        yields_nothing(after, policy),
        0 < first.len() <= 255,
        0 < second.len() <= 255,
        encodable(first_flags, encode_segment(AS_SEQUENCE, first)),
        encodable(second_flags, encode_segment(AS_SEQUENCE, second)),
    ensures
        decode(
            before + encode_attribute(first_flags, AS_PATH, encode_segment(AS_SEQUENCE, first))
                + between + encode_attribute(
                second_flags,
                AS_PATH,
                encode_segment(AS_SEQUENCE, second),
            ) + after,
            policy,
        ) == Err::<Seq<u32>, ErrorSpec>(ErrorSpec::MultipleAsPaths),
{
    let none = Seq::<u8>::empty();
    let one = encode_attribute(first_flags, AS_PATH, encode_segment(AS_SEQUENCE, first));
    let two = encode_attribute(second_flags, AS_PATH, encode_segment(AS_SEQUENCE, second));
    assert(encode_segment(AS_SEQUENCE, first) + none =~= encode_segment(AS_SEQUENCE, first));
    assert(encode_segment(AS_SEQUENCE, second) + none =~= encode_segment(AS_SEQUENCE, second));
    lemma_as_sequence_attribute(first_flags, first, none, policy);
    lemma_as_sequence_attribute(second_flags, second, none, policy);
    lemma_sequence_between(before, one, between, first, policy);
    lemma_nothing_behind(two, after, policy);
    lemma_two_found(before + one + between, two + after, first, second, policy);
    assert((before + one + between) + (two + after) =~= before + one + between + two + after);
}

/// A block that holds one AS_SEQUENCE still holds just that one between
/// blocks that hold none.
pub proof fn lemma_sequence_between(
    before: Seq<u8>,
    block: Seq<u8>,
    after: Seq<u8>,
    path: Seq<u32>,
    policy: UnknownTypePolicy,
)
    requires
        yields_nothing(before, policy),
        yields_nothing(after, policy),
        sequences_from(block, 0, policy) == Ok::<Seq<Seq<u32>>, ErrorSpec>(seq![path]),
    ensures
        sequences_from(before + block + after, 0, policy) == Ok::<Seq<Seq<u32>>, ErrorSpec>(
            seq![path],
        ),
{
    lemma_nothing_behind(block, after, policy);
    lemma_nothing_in_front(before, block + after, policy);
    assert(before + (block + after) =~= before + block + after);
}

/// Two blocks that hold one AS_SEQUENCE each make a block that is refused
/// for holding two.
pub proof fn lemma_two_found(
    left: Seq<u8>,
    right: Seq<u8>,
    first: Seq<u32>,
    second: Seq<u32>,
    policy: UnknownTypePolicy,
)
    requires
        sequences_from(left, 0, policy) == Ok::<Seq<Seq<u32>>, ErrorSpec>(seq![first]),
        sequences_from(right, 0, policy) == Ok::<Seq<Seq<u32>>, ErrorSpec>(seq![second]),
    ensures
        decode(left + right, policy) == Err::<Seq<u32>, ErrorSpec>(ErrorSpec::MultipleAsPaths),
{
    lemma_sequences_concat(left, right, policy);
    let both = seq![first] + seq![second];
    assert(both.len() == 2);
    assert(sequences_from(left + right, 0, policy) == Ok::<Seq<Seq<u32>>, ErrorSpec>(both));
    if left.len() == 0 {
        assert(sequences_from(left, 0, policy) == Ok::<Seq<Seq<u32>>, ErrorSpec>(Seq::empty()));
        assert(seq![first].len() == 1);
    }
}

/// A block of whole attributes that loses its last byte is found to end
/// too early, from whatever attribute the walk starts.
pub proof fn lemma_truncated_from(bytes: Seq<u8>, pos: int, policy: UnknownTypePolicy)
    requires
        0 <= pos < bytes.len(),
        sequences_from(bytes, pos, policy) is Ok,
    ensures
        sequences_from(bytes.drop_last(), pos, policy) == Err::<Seq<Seq<u32>>, ErrorSpec>(
            ErrorSpec::UnexpectedEndOfBuffer,
        ),
    decreases bytes.len() - pos,
{
    let cut = bytes.drop_last();
    let outcome = attribute_at(bytes, pos, policy);
    let h = header_at(bytes, pos)->Some_0;
    assert(pos + 3 <= bytes.len());
    if outcome.next == bytes.len() {
        if header_at(cut, pos) is Some {
            assert(cut[pos] == bytes[pos]);
            assert(cut[pos + 1] == bytes[pos + 1]);
            assert(cut[pos + 2] == bytes[pos + 2]);
            if extended_length(bytes[pos]) {
                assert(cut[pos + 3] == bytes[pos + 3]);
            }
            assert(header_at(cut, pos) == header_at(bytes, pos));
        }
    } else {
        assert(cut[pos] == bytes[pos]);
        assert(cut[pos + 1] == bytes[pos + 1]);
        assert(cut[pos + 2] == bytes[pos + 2]);
        if extended_length(bytes[pos]) {
            assert(cut[pos + 3] == bytes[pos + 3]);
        }
        assert(header_at(cut, pos) == header_at(bytes, pos));
        assert(cut.subrange(h.value_start, h.value_start + h.value_len) =~= bytes.subrange(
            h.value_start,
            h.value_start + h.value_len,
        ));
        assert(attribute_at(cut, pos, policy) == outcome);
        lemma_truncated_from(bytes, outcome.next, policy);
    }
}

/// Cutting the last byte off a block that decodes gives a block that is
/// found to end too early: it never decodes to another path.
pub proof fn lemma_truncated(bytes: Seq<u8>, policy: UnknownTypePolicy)
    requires
        decode(bytes, policy) is Ok,
    ensures
        decode(bytes.drop_last(), policy) == Err::<Seq<u32>, ErrorSpec>(
            ErrorSpec::UnexpectedEndOfBuffer,
        ),
{
    lemma_truncated_from(bytes, 0, policy);
    assert(bytes.len() >= 3);
}

} // verus!
