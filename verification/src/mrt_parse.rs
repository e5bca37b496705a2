//! Routing-table dumps: the walk over the records of an MRT dump, and the
//! calls into the crates that read a record and unpack gzip data.

use std::io::Read;

use vstd::prelude::*;
use vstd::slice::slice_subrange;
use vstd::string::StringExecFns;

use crate::as_path_parser::{decode, path_result, AsPathParser, UnknownTypePolicy};
use crate::common_suffix::bottleneck_of;
use crate::error::{Error, ErrorSpec};
use crate::find_bottleneck::{
    anomalies_among, block_views, bottlenecks, ingest, lemma_anomalies_among,
    lemma_ingest_merges, FindBottleneck,
};
use crate::helper::{be_u16, be_u32, compose_u16, compose_u32};
use crate::ip_address::address_of_octets;
use crate::path_collector::{lemma_merge_commutes, lemma_merge_empty, merged, PathCollector};
use crate::routing_prefix::RoutingPrefix;

verus! {

/// The length of the header that stands before every record.
pub const HEADER_LEN: usize = 12;

/// The record type of the second version of table dumps.
pub const TABLE_DUMP_V2: u16 = 13;

/// The subtype of a record with the routes towards one IPv4 prefix.
pub const RIB_IPV4_UNICAST: u16 = 2;

/// The subtype of a record with the routes towards one IPv6 prefix.
pub const RIB_IPV6_UNICAST: u16 = 4;

/// The longest prefix length that the record reader can take: it rounds
/// the length up to whole octets within eight bits.
pub const MAX_PREFIX_LENGTH: u8 = 248;

/// What one record with routes holds, as far as the analysis reads it.
#[derive(Debug, Clone, PartialEq, Eq)]
pub struct RibRecord {
    /// The length of the prefix in bits.
    pub prefix_length: u8,
    /// The leading octets of the prefix.
    pub prefix: Vec<u8>,
    /// The attribute block of each route.
    pub entries: Vec<Vec<u8>>,
}

/// What [`mrt_rs::read`] makes of the bytes of one record with routes: the
/// prefix length, the prefix octets and the attribute block of each route,
/// or nothing where it does not read such a record.
pub uninterp spec fn mrt_rib_record(record: Seq<u8>) -> Option<(u8, Seq<u8>, Seq<Seq<u8>>)>;

/// What `flate2`'s `GzDecoder` makes of gzip data: the bytes it unpacks
/// before it ends or reports an error, and whether it ended without one.
pub uninterp spec fn gzip_decoded(bytes: Seq<u8>) -> (Seq<u8>, bool);

/// What can be used of a gzip-packed input: all that was unpacked, also
/// where the data ends too early, as a download that was cut short does.
/// An input of which nothing could be unpacked cannot be used.
pub open spec fn usable(unpacked: (Seq<u8>, bool)) -> Option<Seq<u8>> {
    if unpacked.1 || unpacked.0.len() > 0 {
        Some(unpacked.0)
    } else {
        None
    }
}

/// The record type in a header.
pub open spec fn record_type(record: Seq<u8>) -> u16 {
    be_u16(record[4], record[5])
}

/// The record subtype in a header.
pub open spec fn record_subtype(record: Seq<u8>) -> u16 {
    be_u16(record[6], record[7])
}

/// The length of the record body that a header announces.
pub open spec fn body_len(record: Seq<u8>) -> int {
    be_u32(record[8], record[9], record[10], record[11]) as int
}

/// Whether `record` starts like a record with the routes towards one
/// prefix, with a prefix length that the record reader can take.
pub open spec fn is_rib_record(record: Seq<u8>) -> bool {
    &&& record.len() >= HEADER_LEN
    &&& record_type(record) == TABLE_DUMP_V2
    &&& (record_subtype(record) == RIB_IPV4_UNICAST || record_subtype(record) == RIB_IPV6_UNICAST)
    &&& (record.len() > 16 ==> record[16] <= MAX_PREFIX_LENGTH)
}

/// The whole record that starts at `pos`, header and body, or nothing
/// where the bytes end before the record does.
pub open spec fn record_at(bytes: Seq<u8>, pos: int) -> Option<Seq<u8>> {
    if 0 <= pos && pos + HEADER_LEN <= bytes.len() && pos + HEADER_LEN + body_len(bytes.skip(pos))
        <= bytes.len() {
        Some(bytes.subrange(pos, pos + HEADER_LEN + body_len(bytes.skip(pos))))
    } else {
        None
    }
}

/// What `m` is after one record was seen: a record with routes adds the
/// paths of its routes to its prefix, any other record changes nothing.
pub open spec fn ingest_record(
    m: Map<RoutingPrefix, Set<Seq<u32>>>,
    record: Seq<u8>,
) -> Map<RoutingPrefix, Set<Seq<u32>>> {
    if is_rib_record(record) {
        match mrt_rib_record(record) {
            Some((prefix_length, prefix, blocks)) => ingest(
                m,
                RoutingPrefix {
                    ip: address_of_octets(prefix, record_subtype(record) == RIB_IPV4_UNICAST),
                    mask: prefix_length,
                },
                blocks,
            ),
            None => m,
        }
    } else {
        m
    }
}

/// What `m` is after the records from `pos` on were seen. The walk ends
/// without an error where the bytes end, be it inside a record.
pub open spec fn ingest_dump(
    m: Map<RoutingPrefix, Set<Seq<u32>>>,
    bytes: Seq<u8>,
    pos: int,
) -> Map<RoutingPrefix, Set<Seq<u32>>>
    decreases bytes.len() - pos,
{
    match record_at(bytes, pos) {
        None => m,
        Some(record) => ingest_dump(ingest_record(m, record), bytes, pos + record.len()),
    }
}

/// One input: the name under which it is known, and its bytes.
#[derive(Debug, Clone, PartialEq, Eq)]
pub struct Dump {
    pub path: String,
    pub bytes: Vec<u8>,
}

/// What a [`Dump`] is in contracts.
pub struct DumpView {
    pub path: Seq<char>,
    pub bytes: Seq<u8>,
}

impl View for Dump {
    type V = DumpView;

    open spec fn view(&self) -> DumpView {
        DumpView { path: self.path@, bytes: self.bytes@ }
    }
}

/// The views of inputs.
pub open spec fn dump_views(dumps: Seq<Dump>) -> Seq<DumpView> {
    Seq::new(dumps.len(), |i: int| dumps[i]@)
}

/// What `m` is after the dumps were walked, one after the other.
pub open spec fn ingest_dumps(
    m: Map<RoutingPrefix, Set<Seq<u32>>>,
    dumps: Seq<DumpView>,
) -> Map<RoutingPrefix, Set<Seq<u32>>>
    decreases dumps.len(),
{
    if dumps.len() == 0 {
        m
    } else {
        ingest_dumps(ingest_dump(m, dumps[0].bytes, 0), dumps.skip(1))
    }
}

/// Walking a dump on top of a collection is merging the collection with
/// what the dump alone gives.
pub proof fn lemma_dump_merges(
    a: Map<RoutingPrefix, Set<Seq<u32>>>,
    b: Map<RoutingPrefix, Set<Seq<u32>>>,
    bytes: Seq<u8>,
    pos: int,
)
    ensures
        ingest_dump(merged(a, b), bytes, pos) == merged(a, ingest_dump(b, bytes, pos)),
    decreases bytes.len() - pos,
{
    match record_at(bytes, pos) {
        None => {},
        Some(record) => {
            if is_rib_record(record) {
                match mrt_rib_record(record) {
                    Some((prefix_length, prefix, blocks)) => {
                        lemma_ingest_merges(
                            a,
                            b,
                            RoutingPrefix {
                                ip: address_of_octets(
                                    prefix,
                                    record_subtype(record) == RIB_IPV4_UNICAST,
                                ),
                                mask: prefix_length,
                            },
                            blocks,
                        );
                    },
                    None => {},
                }
            }
            lemma_dump_merges(a, ingest_record(b, record), bytes, pos + record.len());
        },
    }
}

/// Walking dumps on top of a collection is merging the collection with
/// what the dumps alone give.
pub proof fn lemma_dumps_merge(
    a: Map<RoutingPrefix, Set<Seq<u32>>>,
    b: Map<RoutingPrefix, Set<Seq<u32>>>,
    dumps: Seq<DumpView>,
)
    ensures
        ingest_dumps(merged(a, b), dumps) == merged(a, ingest_dumps(b, dumps)),
    decreases dumps.len(),
{
    if dumps.len() > 0 {
        lemma_dump_merges(a, b, dumps[0].bytes, 0);
        lemma_dumps_merge(a, ingest_dump(b, dumps[0].bytes, 0), dumps.skip(1));
    }
}

/// Walking two runs of dumps one after the other is walking the first and
/// then, from what it gave, the second.
pub proof fn lemma_dumps_in_a_row(
    m: Map<RoutingPrefix, Set<Seq<u32>>>,
    first: Seq<DumpView>,
    second: Seq<DumpView>,
)
    ensures
        ingest_dumps(m, first + second) == ingest_dumps(ingest_dumps(m, first), second),
    decreases first.len(),
{
    if first.len() == 0 {
        assert(first + second =~= second);
    } else {
        assert((first + second)[0] == first[0]);
        assert((first + second).skip(1) =~= first.skip(1) + second);
        lemma_dumps_in_a_row(ingest_dump(m, first[0].bytes, 0), first.skip(1), second);
    }
}

/// Dumps can be walked apart and their paths merged afterwards: the paths
/// of two runs of dumps are the paths of the first merged with those of
/// the second.
pub proof fn lemma_dumps_apart(first: Seq<DumpView>, second: Seq<DumpView>)
    ensures
        ingest_dumps(Map::empty(), first + second) == merged(
            ingest_dumps(Map::empty(), first),
            ingest_dumps(Map::empty(), second),
        ),
{
    let none = Map::<RoutingPrefix, Set<Seq<u32>>>::empty();
    let left = ingest_dumps(none, first);
    lemma_dumps_in_a_row(none, first, second);
    lemma_merge_empty(left);
    lemma_dumps_merge(left, none, second);
}

/// The order in which two runs of dumps are walked changes neither the
/// paths that are collected nor the bottlenecks that follow from them.
pub proof fn lemma_dumps_in_any_order(first: Seq<DumpView>, second: Seq<DumpView>)
    ensures
        ingest_dumps(Map::empty(), first + second) == ingest_dumps(Map::empty(), second + first),
        bottlenecks(ingest_dumps(Map::empty(), first + second)) == bottlenecks(
            ingest_dumps(Map::empty(), second + first),
        ),
{
    lemma_dumps_apart(first, second);
    lemma_dumps_apart(second, first);
    lemma_merge_commutes(ingest_dumps(Map::empty(), first), ingest_dumps(Map::empty(), second));
}

/// The error that names an input that is no gzip data.
pub open spec fn gzip_failure(path: Seq<char>) -> ErrorSpec {
    ErrorSpec::Io { io_error: "not gzip data"@, path }
}

/// What `m` and the list of inputs passed over are after the gzip-packed
/// dumps were unpacked and walked, one after the other. An input of which
/// nothing unpacks is passed over and listed where `continue_on_error` is
/// set, and ends the run with an error where it is not.
pub open spec fn ingest_packed(
    m: Map<RoutingPrefix, Set<Seq<u32>>>,
    skipped: Seq<Seq<char>>,
    dumps: Seq<DumpView>,
    continue_on_error: bool,
) -> Result<(Map<RoutingPrefix, Set<Seq<u32>>>, Seq<Seq<char>>), ErrorSpec>
    decreases dumps.len(),
{
    if dumps.len() == 0 {
        Ok((m, skipped))
    } else {
        match usable(gzip_decoded(dumps[0].bytes)) {
            Some(data) => ingest_packed(
                ingest_dump(m, data, 0),
                skipped,
                dumps.skip(1),
                continue_on_error,
            ),
            None => if continue_on_error {
                ingest_packed(m, skipped.push(dumps[0].path), dumps.skip(1), continue_on_error)
            } else {
                Err(gzip_failure(dumps[0].path))
            },
        }
    }
}

/// Reads one record with routes. The body is a call of [`mrt_rs::read`] on
/// the bytes of the record: the prefix length, the prefix octets and the
/// attribute block of each route are handed on as the call returns them,
/// and every other outcome of the call is `None`. Two things are believed
/// and not proved: that the call returns on every record that
/// [`is_rib_record`] admits (on such a record its only arithmetic rounds
/// the prefix length up to whole octets), and that the same bytes always
/// read the same, which is what [`mrt_rib_record`] names.
#[verifier::external_body]
fn read_rib_record(record: &[u8]) -> (r: Option<RibRecord>)
    requires
        is_rib_record(record@),
    ensures
        match r {
            Some(rib) => mrt_rib_record(record@) == Some(
                (rib.prefix_length, rib.prefix@, block_views(rib.entries@)),
            ),
            None => mrt_rib_record(record@) is None,
        },
{
    let mut stream = record;
    match mrt_rs::read(&mut stream) {
        Ok(Some((_, mrt_rs::Record::TABLE_DUMP_V2(table)))) => match table {
            mrt_rs::tabledump::TABLE_DUMP_V2::RIB_IPV4_UNICAST(rib)
            | mrt_rs::tabledump::TABLE_DUMP_V2::RIB_IPV6_UNICAST(rib) => Some(
                RibRecord {
                    prefix_length: rib.prefix_length,
                    prefix: rib.prefix,
                    entries: rib.entries.into_iter().map(|entry| entry.attributes).collect(),
                },
            ),
            _ => None,
        },
        _ => None,
    }
}

/// Unpacks gzip data. The body is `flate2::read::GzDecoder` over the
/// bytes, read to its end with `Read::read_to_end`, which leaves in the
/// buffer what was read before an error. The result is that buffer and
/// whether the read ended without an error. It is believed and not proved
/// that the same data always unpacks the same, which is what
/// [`gzip_decoded`] names.
#[verifier::external_body]
fn gunzip(bytes: &[u8]) -> (r: (Vec<u8>, bool))
    ensures
        (r.0@, r.1) == gzip_decoded(bytes@),
{
    let mut data = Vec::new();
    let whole = flate2::read::GzDecoder::new(bytes).read_to_end(&mut data).is_ok();
    (data, whole)
}

/// Unpacks a gzip-packed input and says what of it can be used.
pub fn unpack(bytes: &[u8]) -> (r: Option<Vec<u8>>)
    ensures
        match r {
            Some(data) => usable(gzip_decoded(bytes@)) == Some(data@),
            None => usable(gzip_decoded(bytes@)) is None,
        },
{
    let (data, whole) = gunzip(bytes);
    if whole || data.len() > 0 {
        Some(data)
    } else {
        None
    }
}

/// Decodes a block of path attributes the strict way: an attribute whose
/// type code is not known is an error, not something to step over.
pub fn as_path_from_bgp_attributes(bgp_attributes: Vec<u8>) -> (r: Result<Vec<u32>, Error>)
    ensures
        path_result(r) == decode(bgp_attributes@, UnknownTypePolicy::Reject),
        r matches Ok(path) ==> path@.len() > 0,
{
    AsPathParser::parse_with(bgp_attributes.as_slice(), UnknownTypePolicy::Reject)
}

impl FindBottleneck {
    /// Walks the records of a routing-table dump and records the paths of
    /// every record with routes. Records of other kinds are stepped over;
    /// the walk ends where the bytes end.
    pub fn parse_mrt(bytes: &[u8], mrt_hm: &mut PathCollector) -> (r: Result<(), Error>)
        requires
            old(mrt_hm).wf(),
        ensures
            final(mrt_hm).wf(),
            r == Ok::<(), Error>(()),
            final(mrt_hm)@ == ingest_dump(old(mrt_hm)@, bytes@, 0),
    {
        let n = bytes.len();
        let mut pos: usize = 0;
        loop
            invariant
                n == bytes@.len(),
                pos <= n,
                mrt_hm.wf(),
                ingest_dump(old(mrt_hm)@, bytes@, 0) == ingest_dump(mrt_hm@, bytes@, pos as int),
            decreases n - pos,
        {
            if n - pos < HEADER_LEN {
                return Ok(());
            }
            let ghost rest = bytes@.skip(pos as int);
            proof {
                assert(rest[4] == bytes@[pos + 4]);
                assert(rest[5] == bytes@[pos + 5]);
                assert(rest[6] == bytes@[pos + 6]);
                assert(rest[7] == bytes@[pos + 7]);
                assert(rest[8] == bytes@[pos + 8]);
                assert(rest[9] == bytes@[pos + 9]);
                assert(rest[10] == bytes@[pos + 10]);
                assert(rest[11] == bytes@[pos + 11]);
            }
            let kind = compose_u16(bytes[pos + 4], bytes[pos + 5]);
            let subtype = compose_u16(bytes[pos + 6], bytes[pos + 7]);
            let length = compose_u32(
                bytes[pos + 8],
                bytes[pos + 9],
                bytes[pos + 10],
                bytes[pos + 11],
            );
            if length as u64 > (n - pos - HEADER_LEN) as u64 {
                return Ok(());
            }
            let end = pos + HEADER_LEN + length as usize;
            let record = slice_subrange(bytes, pos, end);
            proof {
                assert(record_at(bytes@, pos as int) == Some(record@));
                assert(record@[4] == bytes@[pos + 4]);
                assert(record@[5] == bytes@[pos + 5]);
                assert(record@[6] == bytes@[pos + 6]);
                assert(record@[7] == bytes@[pos + 7]);
                if record@.len() > 16 {
                    assert(record@[16] == bytes@[pos + 16]);
                }
            }
            if kind == TABLE_DUMP_V2 && (subtype == RIB_IPV4_UNICAST || subtype
                == RIB_IPV6_UNICAST) && !(record.len() > 16 && record[16] > MAX_PREFIX_LENGTH) {
                match read_rib_record(record) {
                    Some(rib) => {
                        let ip = crate::ip_address::IpAddress::from_octets(
                            rib.prefix.as_slice(),
                            subtype == RIB_IPV4_UNICAST,
                        );
                        let _ = Self::match_rib_entry(&rib.entries, ip, rib.prefix_length, mrt_hm);
                    },
                    None => {},
                }
            }
            pos = end;
        }
    }
    /// Walks the dumps as they are, without unpacking, and records their
    /// paths.
    pub fn collect(dumps: &Vec<Dump>) -> (mrt_hm: PathCollector)
        ensures
            mrt_hm.wf(),
            mrt_hm@ == ingest_dumps(Map::empty(), dump_views(dumps@)),
    {
        let ghost views = dump_views(dumps@);
        let mut mrt_hm = PathCollector::new();
        let mut i: usize = 0;
        proof {
            assert(views.skip(0) =~= views);
        }
        while i < dumps.len()
            invariant
                i <= dumps@.len(),
                views == dump_views(dumps@),
                mrt_hm.wf(),
                ingest_dumps(Map::empty(), views) == ingest_dumps(mrt_hm@, views.skip(i as int)),
            decreases dumps@.len() - i,
        {
            proof {
                let left = views.skip(i as int);
                assert(left[0] == dumps@[i as int]@);
                assert(left.skip(1) =~= views.skip(i + 1));
            }
            let _ = Self::parse_mrt(dumps[i].bytes.as_slice(), &mut mrt_hm);
            i += 1;
        }
        mrt_hm
    }

    /// Unpacks the gzip-packed dumps, walks them and finds the bottleneck
    /// of every prefix. An input of which nothing unpacks ends the run with
    /// an error that names it, unless `continue_on_error` asks to pass it
    /// over; it is then listed among the inputs that were skipped. An input
    /// that ends too early counts as far as it goes.
    pub fn locate(dumps: &Vec<Dump>, continue_on_error: bool) -> (r: Result<Self, Error>)
        ensures
            match ingest_packed(
                Map::empty(),
                Seq::empty(),
                dump_views(dumps@),
                continue_on_error,
            ) {
                Err(e) => r matches Err(err) && err@ == e,
                Ok((m, skipped)) => {
                    &&& r matches Ok(found)
                    &&& found.wf()
                    &&& found@ == bottlenecks(m)
                    &&& found.skipped_inputs() == skipped
                    &&& found.anomalous().no_duplicates()
                    &&& forall|k: RoutingPrefix|
                        found.anomalous().contains(k) <==> m.dom().contains(k) && bottleneck_of(
                            m[k],
                        ) is None
                },
            },
    {
        let ghost views = dump_views(dumps@);
        let mut mrt_hm = PathCollector::new();
        let mut found = FindBottleneck::new();
        let mut i: usize = 0;
        proof {
            assert(views.skip(0) =~= views);
        }
        while i < dumps.len()
            invariant
                i <= dumps@.len(),
                views == dump_views(dumps@),
                mrt_hm.wf(),
                found.wf(),
                found@ == Map::<RoutingPrefix, u32>::empty(),
                found.anomalous() == Seq::<RoutingPrefix>::empty(),
                ingest_packed(Map::empty(), Seq::empty(), views, continue_on_error)
                    == ingest_packed(
                    mrt_hm@,
                    found.skipped_inputs(),
                    views.skip(i as int),
                    continue_on_error,
                ),
            decreases dumps@.len() - i,
        {
            proof {
                let left = views.skip(i as int);
                assert(left[0] == dumps@[i as int]@);
                assert(left.skip(1) =~= views.skip(i + 1));
            }
            match unpack(dumps[i].bytes.as_slice()) {
                Some(data) => {
                    let _ = Self::parse_mrt(data.as_slice(), &mut mrt_hm);
                },
                None => {
                    let path = dumps[i].path.clone();
                    if continue_on_error {
                        found.note_skipped(path);
                    } else {
                        return Err(
                            Error::Io { io_error: String::from_str("not gzip data"), path },
                        );
                    }
                },
            }
            i += 1;
        }
        let _ = found.find_as_bottleneck(&mrt_hm);
        proof {
            let m = mrt_hm@;
            mrt_hm.lemma_wf();
            let prefixes = mrt_hm.prefixes();
            lemma_anomalies_among(prefixes, m, prefixes.len() as int);
            assert(prefixes.take(prefixes.len() as int) =~= prefixes);
            assert(found@ =~= bottlenecks(m));
            assert(found.anomalous() =~= anomalies_among(prefixes, m, prefixes.len() as int));
        }
        Ok(found)
    }
}

} // verus!
