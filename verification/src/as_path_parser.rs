//! The attribute cursor and the AS_PATH decoder.
//!
//! A block of BGP path attributes is a run of records, each a flag byte, a
//! type-code byte, a length of one or two bytes and that many bytes of value.
//! The decoder walks the block, looks into the attributes of type AS_PATH and
//! returns the one AS_SEQUENCE it finds.

use vstd::prelude::*;
use vstd::slice::slice_subrange;

use crate::error::{Error, ErrorSpec};
use crate::helper::{be_u16, be_u32, compose_u16, compose_u32};

verus! {

/// What the decoder does with an attribute whose type code it does not know.
#[derive(Debug, Clone, Copy, PartialEq, Eq)]
pub enum UnknownTypePolicy {
    /// Step over the attribute's value.
    Skip,
    /// Fail with [`Error::UnknownTypeCode`].
    Reject,
}

/// The type code of the AS_PATH attribute.
pub const AS_PATH: u8 = 2;

/// The segment type of an unordered AS_SET.
pub const AS_SET: u8 = 1;

/// The segment type of an ordered AS_SEQUENCE.
pub const AS_SEQUENCE: u8 = 2;

/// The flag bit that announces a length field of two bytes.
pub const EXTENDED_LENGTH: u8 = 0x10;

/// The type codes that a rejecting decoder lets pass.
pub open spec fn known_type_code(type_code: u8) -> bool {
    1 <= type_code <= 16
}

/// Whether `flags` announces a length field of two bytes.
pub open spec fn extended_length(flags: u8) -> bool {
    flags & EXTENDED_LENGTH != 0
}

/// Where one attribute's value lies, as its header says.
pub struct AttributeHeader {
    pub type_code: u8,
    pub value_start: int,
    pub value_len: int,
}

/// The header of the attribute that starts at `pos`, or `None` where the
/// bytes end inside the header.
pub open spec fn header_at(bytes: Seq<u8>, pos: int) -> Option<AttributeHeader> {
    if pos + 3 > bytes.len() {
        None
    } else if !extended_length(bytes[pos]) {
        Some(
            AttributeHeader {
                type_code: bytes[pos + 1],
                value_start: pos + 3,
                value_len: bytes[pos + 2] as int,
            },
        )
    } else if pos + 4 > bytes.len() {
        None
    } else {
        Some(
            AttributeHeader {
                type_code: bytes[pos + 1],
                value_start: pos + 4,
                value_len: be_u16(bytes[pos + 2], bytes[pos + 3]) as int,
            },
        )
    }
}

/// The `i`-th AS number of a segment that starts at the front of `value`.
pub open spec fn asn_at(value: Seq<u8>, i: int) -> u32 {
    be_u32(value[2 + 4 * i], value[3 + 4 * i], value[4 + 4 * i], value[5 + 4 * i])
}

/// What the first segment of an AS_PATH value yields: the AS numbers of an
/// AS_SEQUENCE in their order, nothing for an AS_SET, an error for any other
/// segment type and for a segment that does not fit into `value`.
pub open spec fn segment_of(value: Seq<u8>) -> Result<Option<Seq<u32>>, ErrorSpec> {
    if value.len() < 1 {
        Err(ErrorSpec::UnexpectedEndOfBuffer)
    } else if value[0] != AS_SET && value[0] != AS_SEQUENCE {
        Err(ErrorSpec::UnknownAsValue { unknown_as_value: value[0] })
    } else if value.len() < 2 || value.len() < 2 + 4 * value[1] {
        Err(ErrorSpec::UnexpectedEndOfBuffer)
    } else if value[0] == AS_SET {
        Ok(None)
    } else {
        Ok(Some(Seq::new(value[1] as nat, |i: int| asn_at(value, i))))
    }
}

/// How many bytes of `value` reading its first segment uses up.
pub open spec fn segment_consumed(value: Seq<u8>) -> int {
    if value.len() < 1 {
        0
    } else if value[0] != AS_SET && value[0] != AS_SEQUENCE {
        1
    } else if value.len() < 2 || value.len() < 2 + 4 * value[1] {
        value.len() as int
    } else {
        2 + 4 * value[1]
    }
}

/// What reading one attribute gives, and where the cursor stands after it.
pub struct AttributeOutcome {
    pub result: Result<Option<Seq<u32>>, ErrorSpec>,
    pub next: int,
}

/// The attribute that starts at `pos`. Its value is never read past the
/// length its header declares; after an AS_PATH attribute the cursor stands
/// at the end of the declared value whatever the segment held.
pub open spec fn attribute_at(
    bytes: Seq<u8>,
    pos: int,
    policy: UnknownTypePolicy,
) -> AttributeOutcome {
    match header_at(bytes, pos) {
        None => AttributeOutcome {
            result: Err(ErrorSpec::UnexpectedEndOfBuffer),
            next: bytes.len() as int,
        },
        Some(header) => {
            let end = header.value_start + header.value_len;
            if policy is Reject && !known_type_code(header.type_code) {
                AttributeOutcome {
                    result: Err(
                        ErrorSpec::UnknownTypeCode { unknown_type_code: header.type_code },
                    ),
                    next: header.value_start,
                }
            } else if end > bytes.len() {
                AttributeOutcome {
                    result: Err(ErrorSpec::UnexpectedEndOfBuffer),
                    next: bytes.len() as int,
                }
            } else if header.type_code == AS_PATH {
                AttributeOutcome {
                    result: segment_of(bytes.subrange(header.value_start, end)),
                    next: end,
                }
            } else {
                AttributeOutcome { result: Ok(None), next: end }
            }
        },
    }
}

/// The AS_SEQUENCEs of the attributes from `pos` to the end, in their order.
/// The first attribute that cannot be read, or that holds an AS_SEQUENCE
/// without AS numbers, decides the error.
pub open spec fn sequences_from(
    bytes: Seq<u8>,
    pos: int,
    policy: UnknownTypePolicy,
) -> Result<Seq<Seq<u32>>, ErrorSpec>
    decreases bytes.len() - pos,
{
    if pos >= bytes.len() {
        Ok(Seq::empty())
    } else {
        let outcome = attribute_at(bytes, pos, policy);
        match outcome.result {
            Err(e) => Err(e),
            Ok(None) => sequences_from(bytes, outcome.next, policy),
            Ok(Some(path)) => if path.len() == 0 {
                Err(ErrorSpec::NoAsPathInAttributePath)
            } else {
                match sequences_from(bytes, outcome.next, policy) {
                    Err(e) => Err(e),
                    Ok(rest) => Ok(seq![path] + rest),
                }
            },
        }
    }
}

/// The one path among `found`, or the error that says why there is none.
pub open spec fn single_path(found: Seq<Seq<u32>>) -> Result<Seq<u32>, ErrorSpec> {
    if found.len() == 0 {
        Err(ErrorSpec::NoAsPathInAttributePath)
    } else if found.len() == 1 {
        Ok(found[0])
    } else {
        Err(ErrorSpec::MultipleAsPaths)
    }
}

/// What decoding the attributes from `pos` on yields.
pub open spec fn decode_from(bytes: Seq<u8>, pos: int, policy: UnknownTypePolicy) -> Result<
    Seq<u32>,
    ErrorSpec,
> {
    match sequences_from(bytes, pos, policy) {
        Err(e) => Err(e),
        Ok(found) => single_path(found),
    }
}

/// What decoding a whole attribute block yields: the AS numbers of its one
/// AS_SEQUENCE, first to last as they are encoded.
pub open spec fn decode(bytes: Seq<u8>, policy: UnknownTypePolicy) -> Result<Seq<u32>, ErrorSpec> {
    if bytes.len() == 0 {
        Err(ErrorSpec::MissingPathAttribute { missing_attribute: "all attributes"@ })
    } else {
        decode_from(bytes, 0, policy)
    }
}

/// Every sequence that a walk finds holds an AS number.
pub proof fn lemma_sequences_not_empty(bytes: Seq<u8>, pos: int, policy: UnknownTypePolicy)
    requires
        sequences_from(bytes, pos, policy) is Ok,
    ensures
        forall|i: int|
            0 <= i < sequences_from(bytes, pos, policy)->Ok_0.len() ==> (
            #[trigger] sequences_from(bytes, pos, policy)->Ok_0[i]).len() > 0,
    decreases bytes.len() - pos,
{
    if pos < bytes.len() {
        let outcome = attribute_at(bytes, pos, policy);
        lemma_sequences_not_empty(bytes, outcome.next, policy);
        let rest = sequences_from(bytes, outcome.next, policy)->Ok_0;
        match outcome.result {
            Ok(Some(path)) => {
                let found = seq![path] + rest;
                assert forall|i: int| 0 <= i < found.len() implies (#[trigger] found[i]).len()
                    > 0 by {
                    if i > 0 {
                        assert(found[i] == rest[i - 1]);
                    }
                }
            },
            _ => {},
        }
    }
}

/// A path that was decoded is never empty.
pub proof fn lemma_decoded_not_empty(bytes: Seq<u8>, policy: UnknownTypePolicy)
    requires
        decode(bytes, policy) is Ok,
    ensures
        decode(bytes, policy)->Ok_0.len() > 0,
{
    lemma_sequences_not_empty(bytes, 0, policy);
}

/// A decoded path, or the error, as contracts see it.
pub open spec fn path_result(r: Result<Vec<u32>, Error>) -> Result<Seq<u32>, ErrorSpec> {
    match r {
        Ok(path) => Ok(path@),
        Err(e) => Err(e@),
    }
}

/// A decoded segment, or the error, as contracts see it.
pub open spec fn segment_result(r: Result<Option<Vec<u32>>, Error>) -> Result<
    Option<Seq<u32>>,
    ErrorSpec,
> {
    match r {
        Ok(Some(path)) => Ok(Some(path@)),
        Ok(None) => Ok(None),
        Err(e) => Err(e@),
    }
}

/// A forward-only reader over a byte slice. It never looks at a byte outside
/// the slice it was made for.
#[derive(Debug, PartialEq)]
pub struct AsPathParser<'buffer> {
    buffer: &'buffer [u8],
    next: usize,
    policy: UnknownTypePolicy,
}

impl<'buffer> AsPathParser<'buffer> {
    #[verifier::type_invariant]
    spec fn in_bounds(self) -> bool {
        self.next <= self.buffer@.len()
    }

    /// The bytes the cursor reads.
    pub closed spec fn bytes(&self) -> Seq<u8> {
        self.buffer@
    }

    /// How many bytes have been read.
    pub closed spec fn pos(&self) -> int {
        self.next as int
    }

    /// What the cursor does with attributes of unknown type.
    pub closed spec fn policy(&self) -> UnknownTypePolicy {
        self.policy
    }

    /// The bytes that are still to be read.
    pub open spec fn rest(&self) -> Seq<u8> {
        self.bytes().skip(self.pos())
    }

    /// Decodes a block of path attributes, stepping over attributes of
    /// unknown type.
    pub fn parse(buffer: &'buffer [u8]) -> (r: Result<Vec<u32>, Error>)
        ensures
            path_result(r) == decode(buffer@, UnknownTypePolicy::Skip),
            r matches Ok(path) ==> path@.len() > 0,
    {
        proof {
            if decode(buffer@, UnknownTypePolicy::Skip) is Ok {
                lemma_decoded_not_empty(buffer@, UnknownTypePolicy::Skip);
            }
        }
        Self::parse_with(buffer, UnknownTypePolicy::Skip)
    }

    /// Decodes a block of path attributes under the given policy.
    pub fn parse_with(buffer: &'buffer [u8], policy: UnknownTypePolicy) -> (r: Result<
        Vec<u32>,
        Error,
    >)
        ensures
            path_result(r) == decode(buffer@, policy),
            r matches Ok(path) ==> path@.len() > 0,
    {
        proof {
            if decode(buffer@, policy) is Ok {
                lemma_decoded_not_empty(buffer@, policy);
            }
        }
        if buffer.len() == 0 {
            return Err(
                Error::MissingPathAttribute {
                    missing_attribute: String::from_str("all attributes"),
                },
            );
        }
        Self::with_policy(buffer, policy).parse_attributes()
    }

    /// A cursor at the front of `buffer` that steps over unknown attributes.
    pub fn new(buffer: &'buffer [u8]) -> (parser: Self)
        ensures
            parser.bytes() == buffer@,
            parser.pos() == 0,
            parser.policy() == UnknownTypePolicy::Skip,
    {
        AsPathParser { next: 0, buffer, policy: UnknownTypePolicy::Skip }
    }

    /// A cursor at the front of `buffer` with the given policy.
    pub fn with_policy(buffer: &'buffer [u8], policy: UnknownTypePolicy) -> (parser: Self)
        ensures
            parser.bytes() == buffer@,
            parser.pos() == 0,
            parser.policy() == policy,
    {
        AsPathParser { next: 0, buffer, policy }
    }

    /// A cursor that has read the first `next` bytes of `buffer`, or `None`
    /// where `buffer` has fewer bytes than that.
    pub fn resume(buffer: &'buffer [u8], next: usize) -> (parser: Option<Self>)
        ensures
            parser is Some <==> next <= buffer@.len(),
            parser matches Some(p) ==> p.bytes() == buffer@ && p.pos() == next && p.policy()
                == UnknownTypePolicy::Skip,
    {
        if next <= buffer.len() {
            Some(AsPathParser { next, buffer, policy: UnknownTypePolicy::Skip })
        } else {
            None
        }
    }

    /// The number of bytes read so far.
    pub fn position(&self) -> (n: usize)
        ensures
            n == self.pos(),
            n <= self.bytes().len(),
    {
        proof {
            use_type_invariant(self);
        }
        self.next
    }

    /// Takes the next byte, or fails where none is left.
    pub fn advance(&mut self) -> (r: Result<u8, Error>)
        ensures
            final(self).bytes() == old(self).bytes(),
            final(self).policy() == old(self).policy(),
            0 <= old(self).pos() <= old(self).bytes().len(),
            old(self).pos() < old(self).bytes().len() ==> r == Ok::<u8, Error>(
                old(self).bytes()[old(self).pos()],
            ) && final(self).pos() == old(self).pos() + 1,
            old(self).pos() >= old(self).bytes().len() ==> r == Err::<u8, Error>(
                Error::UnexpectedEndOfBuffer,
            ) && final(self).pos() == old(self).pos(),
    {
        proof {
            use_type_invariant(&*self);
        }
        if self.done() {
            Err(Error::UnexpectedEndOfBuffer)
        } else {
            let byte = self.buffer[self.next];
            self.next += 1;
            Ok(byte)
        }
    }

    /// Takes the next four bytes as one big-endian number. Where fewer than
    /// four are left it fails, having used up what was there.
    pub fn parse_u32(&mut self) -> (r: Result<u32, Error>)
        ensures
            final(self).bytes() == old(self).bytes(),
            final(self).policy() == old(self).policy(),
            0 <= old(self).pos() <= old(self).bytes().len(),
            old(self).pos() + 4 <= old(self).bytes().len() ==> r == Ok::<u32, Error>(
                be_u32(
                    old(self).bytes()[old(self).pos()],
                    old(self).bytes()[old(self).pos() + 1],
                    old(self).bytes()[old(self).pos() + 2],
                    old(self).bytes()[old(self).pos() + 3],
                ),
            ) && final(self).pos() == old(self).pos() + 4,
            old(self).pos() + 4 > old(self).bytes().len() ==> r == Err::<u32, Error>(
                Error::UnexpectedEndOfBuffer,
            ) && final(self).pos() == old(self).bytes().len(),
    {
        let a = self.advance()?;
        let b = self.advance()?;
        let c = self.advance()?;
        let d = self.advance()?;
        Ok(compose_u32(a, b, c, d))
    }

    /// Whether every byte has been read.
    pub fn done(&self) -> (r: bool)
        ensures
            r == (self.pos() == self.bytes().len()),
    {
        self.next == self.buffer.len()
    }

    /// Reads attributes until the bytes are used up and returns the one
    /// AS_SEQUENCE among them.
    pub fn parse_attributes(self) -> (r: Result<Vec<u32>, Error>)
        ensures
            path_result(r) == decode_from(self.bytes(), self.pos(), self.policy()),
    {
        let mut cursor = self;
        let ghost bytes = self.bytes();
        let ghost start = self.pos();
        let ghost policy = self.policy();
        let ghost mut found: Seq<Seq<u32>> = Seq::empty();
        let mut paths: Vec<Vec<u32>> = Vec::new();
        proof {
            use_type_invariant(&cursor);
            assert(found + sequences_from(bytes, start, policy)->Ok_0 =~= sequences_from(
                bytes,
                start,
                policy,
            )->Ok_0);
        }

        while !cursor.done()
            invariant
                bytes == self.bytes(),
                start == self.pos(),
                policy == self.policy(),
                cursor.bytes() == bytes,
                cursor.policy() == policy,
                start <= cursor.pos() <= bytes.len(),
                found.len() == paths.len(),
                forall|i: int| 0 <= i < found.len() ==> (#[trigger] paths[i])@ == found[i],
                match sequences_from(bytes, cursor.pos(), policy) {
                    Err(e) => sequences_from(bytes, start, policy) == Err::<
                        Seq<Seq<u32>>,
                        ErrorSpec,
                    >(e),
                    Ok(rest) => sequences_from(bytes, start, policy) == Ok::<
                        Seq<Seq<u32>>,
                        ErrorSpec,
                    >(found + rest),
                },
            decreases bytes.len() - cursor.pos(),
        {
            let ghost before = cursor.pos();
            match cursor.parse_attribute() {
                Err(e) => {
                    return Err(e);
                },
                Ok(None) => {},
                Ok(Some(path)) => {
                    if path.len() == 0 {
                        return Err(Error::NoAsPathInAttributePath);
                    }
                    proof {
                        let rest_before = sequences_from(bytes, before, policy);
                        let rest_after = sequences_from(bytes, cursor.pos(), policy);
                        if rest_after is Ok {
                            assert(found + (seq![path@] + rest_after->Ok_0) =~= found.push(path@)
                                + rest_after->Ok_0);
                        }
                        found = found.push(path@);
                    }
                    paths.push(path);
                },
            }
        }

        proof {
            assert(sequences_from(bytes, cursor.pos(), policy) == Ok::<Seq<Seq<u32>>, ErrorSpec>(
                Seq::empty(),
            ));
            assert(found + Seq::<Seq<u32>>::empty() =~= found);
        }
        if paths.len() > 1 {
            Err(Error::MultipleAsPaths)
        } else {
            match paths.pop() {
                Some(path) => Ok(path),
                None => Err(Error::NoAsPathInAttributePath),
            }
        }
    }

    /// Reads one attribute. For an AS_PATH attribute it returns what the
    /// first segment holds, and leaves the cursor at the end of the value
    /// that the header declares; any other attribute is stepped over.
    pub fn parse_attribute(&mut self) -> (r: Result<Option<Vec<u32>>, Error>)
        ensures
            final(self).bytes() == old(self).bytes(),
            final(self).policy() == old(self).policy(),
            0 <= old(self).pos() <= old(self).bytes().len(),
            segment_result(r) == attribute_at(
                old(self).bytes(),
                old(self).pos(),
                old(self).policy(),
            ).result,
            final(self).pos() == attribute_at(
                old(self).bytes(),
                old(self).pos(),
                old(self).policy(),
            ).next,
            r is Ok ==> old(self).pos() + 3 <= final(self).pos() <= old(self).bytes().len(),
    {
        let flag = self.advance()?;
        let type_code = self.advance()?;
        let first = self.advance()?;
        let attribute_length: u16 = if flag & EXTENDED_LENGTH != 0 {
            let second = self.advance()?;
            compose_u16(first, second)
        } else {
            first as u16
        };
        match self.policy {
            UnknownTypePolicy::Reject => {
                if type_code < 1 || type_code > 16 {
                    return Err(Error::UnknownTypeCode { unknown_type_code: type_code });
                }
            },
            UnknownTypePolicy::Skip => {},
        }
        proof {
            use_type_invariant(&*self);
        }
        let start = self.next;
        let total = self.buffer.len();
        if attribute_length as usize > total - start {
            self.next = total;
            return Err(Error::UnexpectedEndOfBuffer);
        }
        let end = start + attribute_length as usize;
        if type_code == AS_PATH {
            let mut value = AsPathParser {
                buffer: slice_subrange(self.buffer, start, end),
                next: 0,
                policy: self.policy,
            };
            assert(value.rest() =~= self.bytes().subrange(start as int, end as int));
            let segment = value.parse_as_path();
            self.next = end;
            segment
        } else {
            self.next = end;
            Ok(None)
        }
    }

    /// Reads the segment at the cursor: the AS numbers of an AS_SEQUENCE, or
    /// nothing for an AS_SET, whose members have no order to report.
    pub fn parse_as_path(&mut self) -> (r: Result<Option<Vec<u32>>, Error>)
        ensures
            final(self).bytes() == old(self).bytes(),
            final(self).policy() == old(self).policy(),
            0 <= old(self).pos() <= old(self).bytes().len(),
            segment_result(r) == segment_of(old(self).rest()),
            final(self).pos() == old(self).pos() + segment_consumed(old(self).rest()),
    {
        let ghost value = self.rest();
        let ghost origin = self.pos();
        let ghost bytes = self.bytes();
        let as_set_indicator = self.advance()?;
        if as_set_indicator != AS_SET && as_set_indicator != AS_SEQUENCE {
            return Err(Error::UnknownAsValue { unknown_as_value: as_set_indicator });
        }
        let num_asn = self.advance()?;
        let mut as_path: Vec<u32> = Vec::new();
        let mut i: u8 = 0;
        while i < num_asn
            invariant
                bytes == old(self).bytes(),
                origin == old(self).pos(),
                self.bytes() == bytes,
                self.policy() == old(self).policy(),
                value == bytes.skip(origin),
                value == old(self).rest(),
                value[0] == as_set_indicator,
                as_set_indicator == AS_SET || as_set_indicator == AS_SEQUENCE,
                0 <= origin,
                origin + 2 <= bytes.len(),
                i <= num_asn,
                num_asn == value[1],
                self.pos() == origin + 2 + 4 * i,
                self.pos() <= bytes.len(),
                as_path@.len() == i,
                forall|k: int| 0 <= k < i ==> as_path@[k] == asn_at(value, k),
            decreases num_asn - i,
        {
            let asn = self.parse_u32()?;
            as_path.push(asn);
            i += 1;
        }
        if as_set_indicator == AS_SET {
            Ok(None)
        } else {
            assert(as_path@ =~= Seq::new(value[1] as nat, |k: int| asn_at(value, k)));
            Ok(Some(as_path))
        }
    }
}

} // verus!
