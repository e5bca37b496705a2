use std::io::Write;

use asmap::error::Error;
use asmap::find_bottleneck::FindBottleneck;
use asmap::ip_address::IpAddress;
use asmap::mrt_parse::{unpack, Dump};
use asmap::path_collector::PathCollector;
use asmap::routing_prefix::RoutingPrefix;
use asmap::{bottleneck_from_mrt_gz_url, run_mrt_file};

fn as_path_attributes(asns: &[u32]) -> Vec<u8> {
    let mut bytes = vec![64, 1, 1, 0, 64, 2, (2 + 4 * asns.len()) as u8, 2, asns.len() as u8];
    for asn in asns {
        bytes.extend_from_slice(&asn.to_be_bytes());
    }
    bytes
}

fn record(kind: u16, subtype: u16, body: &[u8]) -> Vec<u8> {
    let mut bytes = vec![0, 0, 0, 1];
    bytes.extend_from_slice(&kind.to_be_bytes());
    bytes.extend_from_slice(&subtype.to_be_bytes());
    bytes.extend_from_slice(&(body.len() as u32).to_be_bytes());
    bytes.extend_from_slice(body);
    bytes
}

fn rib_record(subtype: u16, prefix_length: u8, prefix: &[u8], paths: &[&[u32]]) -> Vec<u8> {
    let mut body = vec![0, 0, 0, 7, prefix_length];
    body.extend_from_slice(prefix);
    body.extend_from_slice(&(paths.len() as u16).to_be_bytes());
    for path in paths {
        let attributes = as_path_attributes(path);
        body.extend_from_slice(&[0, 3, 0, 0, 0, 9]);
        body.extend_from_slice(&(attributes.len() as u16).to_be_bytes());
        body.extend_from_slice(&attributes);
    }
    record(13, subtype, &body)
}

fn small_dump() -> Vec<u8> {
    let mut bytes = record(13, 1, &[1, 2, 3, 4, 0, 0, 0, 0]);
    bytes.extend(rib_record(
        2,
        24,
        &[1, 0, 139],
        &[
            &[2497, 38040, 23969],
            &[25152, 6939, 4766, 38040, 38040, 23969],
            &[4777, 6939, 4766, 38040, 23969],
        ],
    ));
    bytes.extend(record(16, 4, &[9, 9, 9]));
    bytes.extend(rib_record(4, 32, &[0x20, 0x01, 0x03, 0x18], &[&[7, 8, 9], &[8, 9]]));
    bytes.extend(rib_record(2, 8, &[10], &[&[1, 2], &[1, 3]]));
    bytes
}

fn gzip(bytes: &[u8]) -> Vec<u8> {
    let mut encoder =
        flate2::write::GzEncoder::new(Vec::new(), flate2::Compression::default());
    encoder.write_all(bytes).unwrap();
    encoder.finish().unwrap()
}

fn dump(path: &str, bytes: Vec<u8>) -> Dump {
    Dump { path: path.to_string(), bytes }
}

#[test]
fn parse_mrt_collects_the_paths_of_rib_records() -> Result<(), Error> {
    let mut mrt_hm = PathCollector::new();
    FindBottleneck::parse_mrt(&small_dump(), &mut mrt_hm)?;

    assert_eq!(mrt_hm.len(), 3);
    let v4 = RoutingPrefix { ip: IpAddress::V4(1, 0, 139, 0), mask: 24 };
    let v6 = RoutingPrefix { ip: IpAddress::V6(0x2001, 0x318, 0, 0, 0, 0, 0, 0), mask: 32 };
    assert_eq!(mrt_hm.prefix(0), v4);
    assert_eq!(
        mrt_hm.get(&v4),
        Some(&vec![
            vec![2497, 38040, 23969],
            vec![25152, 6939, 4766, 38040, 23969],
            vec![4777, 6939, 4766, 38040, 23969],
        ])
    );
    assert_eq!(mrt_hm.get(&v6), Some(&vec![vec![7, 8, 9], vec![8, 9]]));
    Ok(())
}

#[test]
fn parse_mrt_ends_quietly_where_the_bytes_end() -> Result<(), Error> {
    let whole = small_dump();
    for cut in [0, 5, 12, 30, whole.len() - 1] {
        let mut mrt_hm = PathCollector::new();
        assert_eq!(FindBottleneck::parse_mrt(&whole[..cut], &mut mrt_hm), Ok(()));
        assert!(mrt_hm.len() <= 2);
    }
    let mut mrt_hm = PathCollector::new();
    FindBottleneck::parse_mrt(&whole[..whole.len() - 1], &mut mrt_hm)?;
    assert_eq!(mrt_hm.len(), 2);
    Ok(())
}

#[test]
fn parse_mrt_leaves_out_what_it_cannot_use() -> Result<(), Error> {
    // A prefix length that no address has, and a record body that ends
    // inside an entry.
    let mut bytes = rib_record(2, 250, &[1; 32], &[&[1, 2]]);
    let mut broken = rib_record(2, 8, &[10], &[&[1, 2]]);
    let cut = broken.len() - 3;
    broken.truncate(cut);
    broken[8..12].copy_from_slice(&((cut - 12) as u32).to_be_bytes());
    bytes.extend(broken);
    bytes.extend(rib_record(2, 8, &[11], &[&[5, 6]]));
    let mut mrt_hm = PathCollector::new();
    FindBottleneck::parse_mrt(&bytes, &mut mrt_hm)?;
    assert_eq!(mrt_hm.len(), 1);
    assert_eq!(mrt_hm.prefix(0), RoutingPrefix { ip: IpAddress::V4(11, 0, 0, 0), mask: 8 });
    Ok(())
}

#[test]
fn match_rib_entry_leaves_out_blocks_that_do_not_decode() -> Result<(), Error> {
    let mut mrt_hm = PathCollector::new();
    let entries = vec![
        as_path_attributes(&[1, 2, 3]),
        vec![64, 1],
        Vec::new(),
        as_path_attributes(&[4, 4, 3]),
        vec![64, 2, 2, 9, 0],
    ];
    let ip = IpAddress::V4(10, 0, 0, 0);
    assert_eq!(FindBottleneck::match_rib_entry(&entries, ip, 8, &mut mrt_hm), Ok(()));
    assert_eq!(
        mrt_hm.get(&RoutingPrefix { ip, mask: 8 }),
        Some(&vec![vec![1, 2, 3], vec![4, 3]])
    );
    Ok(())
}

#[test]
fn run_mrt_file_reports_the_bottlenecks() {
    let dumps = vec![
        dump("gz-dumps/latest-bview-1", small_dump()),
        dump("gz-dumps/latest-bview-2", rib_record(2, 24, &[1, 0, 139], &[&[9, 23969]])),
    ];
    assert_eq!(
        run_mrt_file(&dumps),
        Ok(vec!["1.0.139.0/24|23969".to_string(), "2001:318::/32|8".to_string()])
    );
    assert_eq!(run_mrt_file(&Vec::new()), Ok(Vec::new()));
}

#[test]
fn bottleneck_from_mrt_gz_url_unpacks_and_reports() {
    let dumps = vec![dump("http://data.ris.ripe.net/rrc01/latest-bview.gz", gzip(&small_dump()))];
    assert_eq!(
        bottleneck_from_mrt_gz_url(&dumps),
        Ok(vec!["1.0.139.0/24|38040".to_string(), "2001:318::/32|8".to_string()])
    );
    let dumps = vec![
        dump("a.gz", gzip(&small_dump())),
        dump("b.gz", small_dump()),
        dump("c.gz", vec![1, 2, 3]),
    ];
    assert_eq!(
        bottleneck_from_mrt_gz_url(&dumps),
        Err(Error::Io { io_error: "not gzip data".to_string(), path: "b.gz".to_string() })
    );
}

#[test]
fn locate_passes_over_failing_inputs_when_asked() -> Result<(), Error> {
    let dumps = vec![
        dump("a.gz", vec![0x1f, 0x8b, 0, 0]),
        dump("b.gz", gzip(&small_dump())),
        dump("c.gz", Vec::new()),
    ];
    let found = FindBottleneck::locate(&dumps, true)?;
    assert_eq!(found.skipped(), &vec!["a.gz".to_string(), "c.gz".to_string()]);
    assert_eq!(found.len(), 2);
    assert_eq!(
        found.get(&RoutingPrefix { ip: IpAddress::V4(1, 0, 139, 0), mask: 24 }),
        Some(38040)
    );
    assert_eq!(
        found.anomalies(),
        &vec![RoutingPrefix { ip: IpAddress::V4(10, 0, 0, 0), mask: 8 }]
    );
    assert_eq!(
        FindBottleneck::locate(&dumps, false).err(),
        Some(Error::Io { io_error: "not gzip data".to_string(), path: "a.gz".to_string() })
    );
    Ok(())
}

#[test]
fn collect_walks_every_dump() {
    let dumps = vec![
        dump("one", rib_record(2, 8, &[10], &[&[1, 2]])),
        dump("two", rib_record(2, 8, &[10], &[&[3, 2]])),
    ];
    let mrt_hm = FindBottleneck::collect(&dumps);
    assert_eq!(mrt_hm.len(), 1);
    assert_eq!(mrt_hm.paths(0), &vec![vec![1, 2], vec![3, 2]]);
}

#[test]
fn a_download_that_was_cut_short_counts_as_far_as_it_goes() {
    let packed = gzip(&small_dump());
    assert_eq!(unpack(&packed), Some(small_dump()));

    // Without the checksum at the end every record is still there.
    let cut = packed[..packed.len() - 8].to_vec();
    assert_eq!(unpack(&cut), Some(small_dump()));
    assert_eq!(
        bottleneck_from_mrt_gz_url(&vec![dump("cut.gz", cut)]),
        Ok(vec!["1.0.139.0/24|38040".to_string(), "2001:318::/32|8".to_string()])
    );

    // Of a header alone, or of other data, nothing can be used.
    assert_eq!(unpack(&packed[..6]), None);
    assert_eq!(unpack(&small_dump()), None);
    assert_eq!(unpack(&[]), None);
}

#[test]
fn unpacked_data_that_ends_inside_a_record_gives_the_records_before() {
    let mut many = Vec::new();
    for n in 0..200u32 {
        let [_, _, c, d] = n.to_be_bytes();
        many.extend(rib_record(2, 32, &[10, 9, c, d], &[&[n + 1, 64500 + n % 7, 7]]));
    }
    let packed = gzip(&many);
    let half = packed[..packed.len() / 2].to_vec();
    let found = FindBottleneck::locate(&vec![dump("half.gz", half)], false).unwrap();
    assert!(found.len() > 0);
    assert!(found.len() < 200);
    assert_eq!(
        found.get(&RoutingPrefix { ip: IpAddress::V4(10, 9, 0, 0), mask: 32 }),
        Some(1)
    );
    assert!(found.skipped().is_empty());
}
