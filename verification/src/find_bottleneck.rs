//! The bottleneck of every prefix: from collected paths to the report.

use vstd::prelude::*;

use crate::as_path_parser::{decode, AsPathParser, UnknownTypePolicy};
use crate::common_suffix::{bottleneck, bottleneck_of, common_suffix, common_suffix_of};
use crate::error::Error;
use crate::ip_address::{address_of_octets, IpAddress};
use crate::path_collector::{
    dedup_adjacent, lemma_with_path_merges, merged, with_path, PathCollector,
};
use crate::prefix_map::PrefixMap;
use crate::routing_prefix::{text_of_prefix, RoutingPrefix};
use crate::sequences::lemma_take_next;
use crate::text::{decimal_text, push_decimal, string_of};

verus! {

/// The bottleneck of every prefix of `m` that has one.
pub open spec fn bottlenecks(m: Map<RoutingPrefix, Set<Seq<u32>>>) -> Map<RoutingPrefix, u32> {
    Map::new(
        |k: RoutingPrefix| m.dom().contains(k) && bottleneck_of(m[k]) is Some,
        |k: RoutingPrefix| bottleneck_of(m[k])->Some_0,
    )
}

/// Among the first `n` of `prefixes`, those whose paths have nothing in
/// common, in their order.
pub open spec fn anomalies_among(
    prefixes: Seq<RoutingPrefix>,
    m: Map<RoutingPrefix, Set<Seq<u32>>>,
    n: int,
) -> Seq<RoutingPrefix>
    decreases n,
{
    if n <= 0 {
        Seq::empty()
    } else if bottleneck_of(m[prefixes[n - 1]]) is None {
        anomalies_among(prefixes, m, n - 1).push(prefixes[n - 1])
    } else {
        anomalies_among(prefixes, m, n - 1)
    }
}

/// What `m` is after one attribute block was seen for `prefix`: a block
/// that decodes adds its path, any other block changes nothing.
pub open spec fn ingest_one(
    m: Map<RoutingPrefix, Set<Seq<u32>>>,
    prefix: RoutingPrefix,
    block: Seq<u8>,
) -> Map<RoutingPrefix, Set<Seq<u32>>> {
    match decode(block, UnknownTypePolicy::Skip) {
        Ok(path) => with_path(m, prefix, dedup_adjacent(path)),
        Err(_) => m,
    }
}

/// What `m` is after the attribute blocks were seen for `prefix`, one
/// after the other.
pub open spec fn ingest(
    m: Map<RoutingPrefix, Set<Seq<u32>>>,
    prefix: RoutingPrefix,
    blocks: Seq<Seq<u8>>,
) -> Map<RoutingPrefix, Set<Seq<u32>>>
    decreases blocks.len(),
{
    if blocks.len() == 0 {
        m
    } else {
        ingest(ingest_one(m, prefix, blocks[0]), prefix, blocks.skip(1))
    }
}

/// Seeing attribute blocks on top of a collection is merging the collection
/// with what the blocks alone give.
pub proof fn lemma_ingest_merges(
    a: Map<RoutingPrefix, Set<Seq<u32>>>,
    b: Map<RoutingPrefix, Set<Seq<u32>>>,
    prefix: RoutingPrefix,
    blocks: Seq<Seq<u8>>,
)
    ensures
        ingest(merged(a, b), prefix, blocks) == merged(a, ingest(b, prefix, blocks)),
    decreases blocks.len(),
{
    if blocks.len() > 0 {
        match decode(blocks[0], UnknownTypePolicy::Skip) {
            Ok(path) => {
                lemma_with_path_merges(a, b, prefix, dedup_adjacent(path));
            },
            Err(_) => {},
        }
        lemma_ingest_merges(a, ingest_one(b, prefix, blocks[0]), prefix, blocks.skip(1));
    }
}

/// The views of attribute blocks.
pub open spec fn block_views(blocks: Seq<Vec<u8>>) -> Seq<Seq<u8>> {
    Seq::new(blocks.len(), |i: int| blocks[i]@)
}

/// Whether `after` is `before` with the common suffix of every prefix of
/// `m` that `before` did not hold; what `before` held stays.
pub open spec fn filled_with_suffixes(
    before: Map<RoutingPrefix, Vec<u32>>,
    after: Map<RoutingPrefix, Vec<u32>>,
    m: Map<RoutingPrefix, Set<Seq<u32>>>,
) -> bool {
    &&& forall|k: RoutingPrefix|
        after.dom().contains(k) <==> before.dom().contains(k) || (m.dom().contains(k)
            && common_suffix_of(m[k]) is Some)
    &&& forall|k: RoutingPrefix| before.dom().contains(k) ==> after[k] == before[k]
    &&& forall|k: RoutingPrefix|
        after.dom().contains(k) && !before.dom().contains(k) ==> Some(after[k]@)
            == common_suffix_of(m[k])
}

/// Whether `k` is one of `seen` and its paths in `m` have something in
/// common.
pub open spec fn has_suffix_among(
    seen: Set<RoutingPrefix>,
    m: Map<RoutingPrefix, Set<Seq<u32>>>,
    k: RoutingPrefix,
) -> bool {
    seen.contains(k) && common_suffix_of(m[k]) is Some
}

/// One line of the report: the prefix, a `|`, the bottleneck.
pub open spec fn report_line(prefix: RoutingPrefix, asn: u32) -> Seq<char> {
    text_of_prefix(prefix) + seq!['|'] + decimal_text(asn as nat)
}

/// Whether `lines` is the report of the bottlenecks `b`: one line for each
/// prefix of `b`, none twice, in the order of `keys`.
pub open spec fn is_report_in_order(
    lines: Seq<Seq<char>>,
    b: Map<RoutingPrefix, u32>,
    keys: Seq<RoutingPrefix>,
) -> bool {
    &&& keys.no_duplicates()
    &&& keys.to_set() == b.dom()
    &&& lines.len() == keys.len()
    &&& forall|i: int|
        0 <= i < keys.len() ==> #[trigger] lines[i] == report_line(keys[i], b[keys[i]])
}

/// Whether `lines` is the report of the bottlenecks `b`, in some order of
/// the prefixes.
pub open spec fn is_report_of(lines: Seq<Seq<char>>, b: Map<RoutingPrefix, u32>) -> bool {
    exists|keys: Seq<RoutingPrefix>| is_report_in_order(lines, b, keys)
}

/// The texts of lines.
pub open spec fn line_texts(lines: Seq<String>) -> Seq<Seq<char>> {
    Seq::new(lines.len(), |i: int| lines[i]@)
}

/// The prefixes that `anomalies_among` lists are those among the first
/// `n` whose paths have no bottleneck, each once.
pub proof fn lemma_anomalies_among(
    prefixes: Seq<RoutingPrefix>,
    m: Map<RoutingPrefix, Set<Seq<u32>>>,
    n: int,
)
    requires
        0 <= n <= prefixes.len(),
        prefixes.no_duplicates(),
    ensures
        anomalies_among(prefixes, m, n).no_duplicates(),
        forall|k: RoutingPrefix|
            anomalies_among(prefixes, m, n).contains(k) <==> prefixes.take(n).contains(k)
                && bottleneck_of(m[k]) is None,
    decreases n,
{
    let listed = anomalies_among(prefixes, m, n);
    if n > 0 {
        lemma_anomalies_among(prefixes, m, n - 1);
        let fewer = anomalies_among(prefixes, m, n - 1);
        let last = prefixes[n - 1];
        let first_n = prefixes.take(n);
        let before_last = prefixes.take(n - 1);
        let is_anomaly = bottleneck_of(m[last]) is None;
        assert(first_n[n - 1] == last);
        assert forall|k: RoutingPrefix|
            listed.contains(k) <==> first_n.contains(k) && bottleneck_of(m[k]) is None by {
            if first_n.contains(k) {
                let j = choose|j: int| 0 <= j < first_n.len() && first_n[j] == k;
                if j < n - 1 {
                    assert(before_last[j] == k);
                }
            }
            if before_last.contains(k) {
                let j = choose|j: int| 0 <= j < before_last.len() && before_last[j] == k;
                assert(first_n[j] == k);
            }
            if fewer.contains(k) {
                let j = choose|j: int| 0 <= j < fewer.len() && fewer[j] == k;
                if is_anomaly {
                    assert(listed[j] == k);
                }
            }
            if listed.contains(k) {
                let j = choose|j: int| 0 <= j < listed.len() && listed[j] == k;
                if is_anomaly {
                    if j < fewer.len() {
                        assert(fewer[j] == k);
                    }
                }
            }
            if is_anomaly {
                assert(listed[fewer.len() as int] == last);
            }
        }
        if is_anomaly {
            assert(!fewer.contains(last)) by {
                if before_last.contains(last) {
                    let j = choose|j: int| 0 <= j < before_last.len() && before_last[j] == last;
                    assert(prefixes[j] == prefixes[n - 1]);
                }
            }
            assert forall|a: int, b: int|
                0 <= a < listed.len() && 0 <= b < listed.len() && a != b implies listed[a]
                != listed[b] by {
                if a < fewer.len() && b < fewer.len() {
                    assert(fewer[a] != fewer[b]);
                } else if a < fewer.len() {
                    assert(fewer.contains(fewer[a]));
                } else {
                    assert(fewer.contains(fewer[b]));
                }
            }
        }
    }
}

/// The bottleneck of each prefix, and the prefixes that were left out
/// because their paths do not share an origin.
pub struct FindBottleneck {
    prefix_asn: PrefixMap<u32>,
    anomalies: Vec<RoutingPrefix>,
    skipped: Vec<String>,
}

impl FindBottleneck {
    /// The prefixes that have a bottleneck, in the order in which they
    /// came.
    pub closed spec fn prefixes(&self) -> Seq<RoutingPrefix> {
        self.prefix_asn.keys()
    }

    /// The bottlenecks, each at the place of its prefix.
    pub closed spec fn asns(&self) -> Seq<u32> {
        self.prefix_asn.values()
    }

    /// The prefixes that were left out, in the order in which they came.
    pub closed spec fn anomalous(&self) -> Seq<RoutingPrefix> {
        self.anomalies@
    }

    /// The inputs that could not be used and were passed over, by their
    /// names.
    pub closed spec fn skipped_inputs(&self) -> Seq<Seq<char>> {
        Seq::new(self.skipped@.len(), |i: int| self.skipped@[i]@)
    }

    /// No prefix occurs twice among those that have a bottleneck.
    pub closed spec fn wf(&self) -> bool {
        self.prefix_asn.wf()
    }

    /// The bottleneck of each prefix.
    pub closed spec fn view(&self) -> Map<RoutingPrefix, u32> {
        self.prefix_asn@
    }

    /// In a well-formed result every prefix has its bottleneck.
    pub proof fn lemma_wf(&self)
        requires
            self.wf(),
        ensures
            self.prefixes().len() == self.asns().len(),
            self.prefixes().no_duplicates(),
            forall|i: int|
                0 <= i < self.prefixes().len() ==> self@.dom().contains(
                    #[trigger] self.prefixes()[i],
                ) && self@[self.prefixes()[i]] == self.asns()[i],
    {
        assert forall|i: int| 0 <= i < self.prefixes().len() implies self@.dom().contains(
            #[trigger] self.prefixes()[i],
        ) && self@[self.prefixes()[i]] == self.asns()[i] by {
            self.prefix_asn.lemma_view_at(i);
        }
    }

    /// A result without prefixes.
    pub fn new() -> (result: Self)
        ensures
            result.wf(),
            result@ == Map::<RoutingPrefix, u32>::empty(),
            result.prefixes() == Seq::<RoutingPrefix>::empty(),
            result.anomalous() == Seq::<RoutingPrefix>::empty(),
            result.skipped_inputs() == Seq::<Seq<char>>::empty(),
    {
        let result = FindBottleneck {
            prefix_asn: PrefixMap::new(),
            anomalies: Vec::new(),
            skipped: Vec::new(),
        };
        assert(result.skipped_inputs() =~= Seq::<Seq<char>>::empty());
        result
    }

    /// The number of prefixes that have a bottleneck.
    pub fn len(&self) -> (n: usize)
        ensures
            n == self.prefixes().len(),
    {
        self.prefix_asn.len()
    }

    /// The bottleneck of `prefix`, if it has one.
    pub fn get(&self, prefix: &RoutingPrefix) -> (asn: Option<u32>)
        requires
            self.wf(),
        ensures
            asn == (if self@.dom().contains(*prefix) {
                Some(self@[*prefix])
            } else {
                None
            }),
    {
        match self.prefix_asn.get(prefix) {
            Some(asn) => Some(*asn),
            None => None,
        }
    }

    /// The prefixes that were left out because their paths do not share an
    /// origin.
    pub fn anomalies(&self) -> (list: &Vec<RoutingPrefix>)
        ensures
            list@ == self.anomalous(),
    {
        &self.anomalies
    }

    /// The inputs that could not be used and were passed over.
    pub fn skipped(&self) -> (list: &Vec<String>)
        ensures
            list@.len() == self.skipped_inputs().len(),
            forall|i: int|
                0 <= i < list@.len() ==> (#[trigger] list@[i])@ == self.skipped_inputs()[i],
    {
        &self.skipped
    }

    /// Notes that the input of the name `path` was passed over.
    pub fn note_skipped(&mut self, path: String)
        ensures
            final(self).wf() == old(self).wf(),
            final(self)@ == old(self)@,
            final(self).prefixes() == old(self).prefixes(),
            final(self).asns() == old(self).asns(),
            final(self).anomalous() == old(self).anomalous(),
            final(self).skipped_inputs() == old(self).skipped_inputs().push(path@),
    {
        self.skipped.push(path);
        assert(self.skipped_inputs() =~= old(self).skipped_inputs().push(path@));
    }

    /// Gives `prefix` the bottleneck `asn`.
    pub fn insert(&mut self, prefix: RoutingPrefix, asn: u32)
        requires
            old(self).wf(),
        ensures
            final(self).wf(),
            final(self)@ == old(self)@.insert(prefix, asn),
            final(self).anomalous() == old(self).anomalous(),
            final(self).skipped_inputs() == old(self).skipped_inputs(),
    {
        self.prefix_asn.insert(prefix, asn);
    }

    /// Builds an address from the leading octets that a routing table
    /// holds for a prefix.
    pub fn format_ip(ip: &[u8], is_ipv4: bool) -> (r: Result<IpAddress, Error>)
        ensures
            r == Ok::<IpAddress, Error>(address_of_octets(ip@, is_ipv4)),
    {
        Ok(IpAddress::from_octets(ip, is_ipv4))
    }

    /// Decodes the attribute blocks that a routing table holds for one
    /// prefix and records their paths. A block that does not decode is left
    /// out; the others still count.
    pub fn match_rib_entry(
        entries: &Vec<Vec<u8>>,
        ip: IpAddress,
        mask: u8,
        mrt_hm: &mut PathCollector,
    ) -> (r: Result<(), Error>)
        requires
            old(mrt_hm).wf(),
        ensures
            final(mrt_hm).wf(),
            r == Ok::<(), Error>(()),
            final(mrt_hm)@ == ingest(
                old(mrt_hm)@,
                RoutingPrefix { ip, mask },
                block_views(entries@),
            ),
    {
        let routing_prefix = RoutingPrefix { ip, mask };
        let ghost blocks = block_views(entries@);
        let mut i: usize = 0;
        proof {
            assert(blocks.skip(0) =~= blocks);
        }
        while i < entries.len()
            invariant
                i <= entries@.len(),
                mrt_hm.wf(),
                blocks == block_views(entries@),
                routing_prefix == (RoutingPrefix { ip, mask }),
                ingest(old(mrt_hm)@, routing_prefix, blocks) == ingest(
                    mrt_hm@,
                    routing_prefix,
                    blocks.skip(i as int),
                ),
            decreases entries@.len() - i,
        {
            proof {
                let left = blocks.skip(i as int);
                assert(left[0] == entries@[i as int]@);
                assert(left.skip(1) =~= blocks.skip(i + 1));
            }
            match AsPathParser::parse(entries[i].as_slice()) {
                Ok(as_path) => {
                    let _ = mrt_hm.insert(routing_prefix, as_path);
                },
                Err(_) => {},
            }
            i += 1;
        }
        Ok(())
    }

    /// Finds, for every prefix of `mrt_hm` that is not in
    /// `prefix_to_common_suffix` yet, what its paths have in common, and
    /// returns the prefixes whose paths have nothing in common.
    pub fn find_common_suffix(
        mrt_hm: &PathCollector,
        prefix_to_common_suffix: &mut PrefixMap<Vec<u32>>,
    ) -> (r: Result<Vec<RoutingPrefix>, Error>)
        requires
            mrt_hm.wf(),
            old(prefix_to_common_suffix).wf(),
        ensures
            final(prefix_to_common_suffix).wf(),
            filled_with_suffixes(
                old(prefix_to_common_suffix)@,
                final(prefix_to_common_suffix)@,
                mrt_hm@,
            ),
            r matches Ok(anomalies) && anomalies@ == anomalies_among(
                mrt_hm.prefixes(),
                mrt_hm@,
                mrt_hm.prefixes().len() as int,
            ),
    {
        let ghost before = prefix_to_common_suffix@;
        let ghost prefixes = mrt_hm.prefixes();
        let ghost m = mrt_hm@;
        let mut anomalies: Vec<RoutingPrefix> = Vec::new();
        let n = mrt_hm.len();
        let mut i: usize = 0;
        proof {
            mrt_hm.lemma_wf();
            assert(prefixes.take(0).to_set() =~= Set::<RoutingPrefix>::empty());
        }
        while i < n
            invariant
                i <= n,
                n == prefixes.len(),
                n == mrt_hm.path_lists().len(),
                mrt_hm.wf(),
                prefixes == mrt_hm.prefixes(),
                m == mrt_hm@,
                prefix_to_common_suffix.wf(),
                anomalies@ == anomalies_among(prefixes, m, i as int),
                forall|k: RoutingPrefix| #[trigger]
                    prefix_to_common_suffix@.dom().contains(k) <==> before.dom().contains(k)
                        || has_suffix_among(prefixes.take(i as int).to_set(), m, k),
                forall|k: RoutingPrefix| #[trigger]
                    before.dom().contains(k) ==> prefix_to_common_suffix@[k] == before[k],
                forall|k: RoutingPrefix|
                    #[trigger] prefix_to_common_suffix@.dom().contains(k) && !before.dom().contains(
                        k,
                    ) ==> Some(prefix_to_common_suffix@[k]@) == common_suffix_of(m[k]),
            decreases n - i,
        {
            let prefix = mrt_hm.prefix(i);
            let paths = mrt_hm.paths(i);
            let ghost seen = prefixes.take(i as int).to_set();
            let ghost seen_next = prefixes.take(i + 1).to_set();
            let ghost map_before = prefix_to_common_suffix@;
            proof {
                mrt_hm.lemma_view_at(i as int);
                lemma_take_next(prefixes, i as int);
                assert(bottleneck_of(m[prefix]) is None <==> common_suffix_of(m[prefix]) is None);
            }
            match common_suffix(paths) {
                Some(suffix) => {
                    if !prefix_to_common_suffix.contains_key(&prefix) {
                        prefix_to_common_suffix.insert(prefix, suffix);
                    }
                    proof {
                        assert forall|k: RoutingPrefix| #[trigger]
                            prefix_to_common_suffix@.dom().contains(k) <==> before.dom().contains(
                                k,
                            ) || has_suffix_among(seen_next, m, k) by {
                            assert(map_before.dom().contains(k) <==> before.dom().contains(k)
                                || has_suffix_among(seen, m, k));
                        }
                        assert forall|k: RoutingPrefix| #[trigger]
                            before.dom().contains(k) implies prefix_to_common_suffix@[k]
                            == before[k] by {
                            assert(map_before.dom().contains(k));
                        }
                        assert forall|k: RoutingPrefix|
                            #[trigger] prefix_to_common_suffix@.dom().contains(k)
                                && !before.dom().contains(k) implies Some(
                            prefix_to_common_suffix@[k]@,
                        ) == common_suffix_of(m[k]) by {
                            if k != prefix {
                                assert(map_before.dom().contains(k));
                            }
                        }
                    }
                },
                None => {
                    anomalies.push(prefix);
                    proof {
                        assert forall|k: RoutingPrefix| #[trigger]
                            prefix_to_common_suffix@.dom().contains(k) <==> before.dom().contains(
                                k,
                            ) || has_suffix_among(seen_next, m, k) by {
                            assert(map_before.dom().contains(k) <==> before.dom().contains(k)
                                || has_suffix_among(seen, m, k));
                        }
                    }
                },
            }
            i += 1;
        }
        proof {
            assert(prefixes.take(n as int) =~= prefixes);
            assert forall|k: RoutingPrefix|
                prefix_to_common_suffix@.dom().contains(k) <==> before.dom().contains(k) || (
                m.dom().contains(k) && common_suffix_of(m[k]) is Some) by {
                assert(prefix_to_common_suffix@.dom().contains(k) <==> before.dom().contains(k)
                    || has_suffix_among(prefixes.to_set(), m, k));
            }
        }
        Ok(anomalies)
    }

    /// Finds the bottleneck of every prefix of `mrt_hm` and records it;
    /// prefixes whose paths do not share an origin are left out and listed
    /// as anomalies.
    pub fn find_as_bottleneck(&mut self, mrt_hm: &PathCollector) -> (r: Result<(), Error>)
        requires
            old(self).wf(),
            mrt_hm.wf(),
        ensures
            final(self).wf(),
            r == Ok::<(), Error>(()),
            final(self)@ == old(self)@.union_prefer_right(bottlenecks(mrt_hm@)),
            final(self).anomalous() == old(self).anomalous() + anomalies_among(
                mrt_hm.prefixes(),
                mrt_hm@,
                mrt_hm.prefixes().len() as int,
            ),
            final(self).skipped_inputs() == old(self).skipped_inputs(),
    {
        let ghost before = self@;
        let ghost old_anomalies = self.anomalous();
        let ghost prefixes = mrt_hm.prefixes();
        let ghost m = mrt_hm@;
        let n = mrt_hm.len();
        let mut i: usize = 0;
        proof {
            mrt_hm.lemma_wf();
            assert(prefixes.take(0).to_set() =~= Set::<RoutingPrefix>::empty());
            assert(self@ =~= before.union_prefer_right(
                bottlenecks(m).restrict(prefixes.take(0).to_set()),
            ));
            assert(self.anomalous() =~= old_anomalies + anomalies_among(prefixes, m, 0));
        }
        while i < n
            invariant
                i <= n,
                n == prefixes.len(),
                mrt_hm.wf(),
                prefixes == mrt_hm.prefixes(),
                m == mrt_hm@,
                n == mrt_hm.path_lists().len(),
                self.wf(),
                self@ == before.union_prefer_right(
                    bottlenecks(m).restrict(prefixes.take(i as int).to_set()),
                ),
                self.anomalous() == old_anomalies + anomalies_among(prefixes, m, i as int),
                self.skipped_inputs() == old(self).skipped_inputs(),
            decreases n - i,
        {
            let prefix = mrt_hm.prefix(i);
            let paths = mrt_hm.paths(i);
            let ghost seen = prefixes.take(i as int).to_set();
            let ghost seen_next = prefixes.take(i + 1).to_set();
            proof {
                mrt_hm.lemma_view_at(i as int);
                lemma_take_next(prefixes, i as int);
            }
            match bottleneck(paths) {
                Some(asn) => {
                    self.prefix_asn.insert(prefix, asn);
                    proof {
                        assert(self@ =~= before.union_prefer_right(
                            bottlenecks(m).restrict(seen_next),
                        ));
                    }
                },
                None => {
                    let ghost listed = self.anomalies@;
                    self.anomalies.push(prefix);
                    proof {
                        assert(bottlenecks(m).restrict(seen_next) =~= bottlenecks(m).restrict(
                            seen,
                        ));
                        assert(self.anomalies@ =~= old_anomalies + anomalies_among(
                            prefixes,
                            m,
                            i + 1,
                        ));
                    }
                },
            }
            i += 1;
        }
        proof {
            assert(prefixes.take(n as int) =~= prefixes);
            assert(bottlenecks(m).restrict(prefixes.to_set()) =~= bottlenecks(m));
        }
        Ok(())
    }

    /// The lines of the report, one for each prefix that has a bottleneck,
    /// in the order in which the prefixes came.
    pub fn write_bottleneck(&self) -> (lines: Vec<String>)
        requires
            self.wf(),
        ensures
            lines@.len() == self.prefixes().len(),
            forall|i: int|
                0 <= i < lines@.len() ==> (#[trigger] lines@[i])@ == report_line(
                    self.prefixes()[i],
                    self.asns()[i],
                ),
            is_report_of(line_texts(lines@), self@),
    {
        proof {
            self.lemma_wf();
        }
        let mut lines: Vec<String> = Vec::new();
        let n = self.prefix_asn.len();
        let mut i: usize = 0;
        while i < n
            invariant
                i <= n,
                n == self.prefixes().len(),
                n == self.asns().len(),
                lines@.len() == i,
                forall|j: int|
                    0 <= j < i ==> (#[trigger] lines@[j])@ == report_line(
                        self.prefixes()[j],
                        self.asns()[j],
                    ),
            decreases n - i,
        {
            let prefix = self.prefix_asn.key(i);
            let asn = *self.prefix_asn.value(i);
            let mut chars = prefix.to_chars();
            chars.push('|');
            push_decimal(&mut chars, asn);
            let line = string_of(chars.as_slice());
            lines.push(line);
            i += 1;
        }
        proof {
            let keys = self.prefixes();
            assert(keys.to_set() =~= self@.dom());
            assert forall|j: int| 0 <= j < keys.len() implies #[trigger] line_texts(lines@)[j]
                == report_line(keys[j], self@[keys[j]]) by {
                assert(line_texts(lines@)[j] == lines@[j]@);
            }
            assert(is_report_in_order(line_texts(lines@), self@, keys));
        }
        lines
    }
}

} // verus!
