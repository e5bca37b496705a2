//! Bottleneck analysis of BGP routing-table snapshots.
//!
//! For every destination prefix seen in a set of MRT dumps, the library finds
//! the autonomous system farthest from the prefix's origin that lies on every
//! observed path towards it.

use vstd::prelude::*;

use crate::error::Error;
use crate::find_bottleneck::{bottlenecks, is_report_of, line_texts, FindBottleneck};
use crate::mrt_parse::{dump_views, ingest_dumps, ingest_packed, Dump};

pub mod address;
pub mod as_path_parser;
pub mod bgp_path;
pub mod common_suffix;
pub mod encoding;
pub mod error;
pub mod find_bottleneck;
pub mod helper;
pub mod ip_address;
pub mod ip_text;
pub mod mrt_parse;
pub mod path_collector;
pub mod prefix_map;
pub mod round_trip;
pub mod routing_prefix;
pub mod sequences;
pub mod text;

verus! {

/// Walks routing-table dumps that are not packed, finds the bottleneck of
/// every prefix and returns the lines of the report.
pub fn run_mrt_file(dumps: &Vec<Dump>) -> (r: Result<Vec<String>, Error>)
    ensures
        r matches Ok(lines) && is_report_of(
            line_texts(lines@),
            bottlenecks(ingest_dumps(Map::empty(), dump_views(dumps@))),
        ),
{
    let mrt_hm = FindBottleneck::collect(dumps);
    let mut found = FindBottleneck::new();
    let _ = found.find_as_bottleneck(&mrt_hm);
    assert(found@ =~= bottlenecks(mrt_hm@));
    Ok(found.write_bottleneck())
}

/// Unpacks gzip-packed routing-table dumps as they come from a collector,
/// walks them, finds the bottleneck of every prefix and returns the lines
/// of the report. The first input of which nothing unpacks ends the run
/// with an error that names it.
pub fn bottleneck_from_mrt_gz_url(dumps: &Vec<Dump>) -> (r: Result<Vec<String>, Error>)
    ensures
        match ingest_packed(Map::empty(), Seq::empty(), dump_views(dumps@), false) {
            Err(e) => r matches Err(err) && err@ == e,
            Ok((m, _)) => r matches Ok(lines) && is_report_of(line_texts(lines@), bottlenecks(m)),
        },
{
    match FindBottleneck::locate(dumps, false) {
        Ok(found) => Ok(found.write_bottleneck()),
        Err(e) => Err(e),
    }
}

} // verus!
