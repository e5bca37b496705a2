use asmap::common_suffix::{bottleneck, candidate, common_suffix};
use asmap::error::Error;
use asmap::find_bottleneck::FindBottleneck;
use asmap::ip_address::IpAddress;
use asmap::path_collector::{dedup, PathCollector};
use asmap::prefix_map::PrefixMap;
use asmap::routing_prefix::RoutingPrefix;

fn setup_mrt_hm() -> Result<PathCollector, Error> {
    let mut mrt_hm = PathCollector::new();
    let routing_prefix = RoutingPrefix::from_str("1.0.139.0/24")?;
    mrt_hm.insert(routing_prefix, vec![2497, 38040, 23969])?;
    mrt_hm.insert(routing_prefix, vec![25152, 6939, 4766, 38040, 23969])?;
    mrt_hm.insert(routing_prefix, vec![4777, 6939, 4766, 38040, 23969])?;

    let routing_prefix = RoutingPrefix::from_str("1.0.204.0/22")?;
    mrt_hm.insert(routing_prefix, vec![2497, 38040, 23969])?;
    mrt_hm.insert(routing_prefix, vec![4777, 6939, 4766, 38040, 23969])?;
    mrt_hm.insert(routing_prefix, vec![25152, 2914, 38040, 23969])?;

    let routing_prefix = RoutingPrefix::from_str("1.0.6.0/24")?;
    mrt_hm.insert(routing_prefix, vec![2497, 4826, 38803, 56203])?;
    mrt_hm.insert(routing_prefix, vec![25152, 6939, 4826, 38803, 56203])?;
    mrt_hm.insert(routing_prefix, vec![4777, 6939, 4826, 38803, 56203])?;

    Ok(mrt_hm)
}

#[test]
fn find_bottleneck_finds_common_suffix_from_mrt_hashmap() -> Result<(), Error> {
    let mut want: PrefixMap<Vec<u32>> = PrefixMap::new();
    want.insert(RoutingPrefix::from_str("1.0.139.0/24")?, vec![38040, 23969]);
    want.insert(RoutingPrefix::from_str("1.0.204.0/22")?, vec![38040, 23969]);
    want.insert(RoutingPrefix::from_str("1.0.6.0/24")?, vec![4826, 38803, 56203]);

    let mrt_hm = setup_mrt_hm()?;
    let mut have: PrefixMap<Vec<u32>> = PrefixMap::new();

    assert_eq!(FindBottleneck::find_common_suffix(&mrt_hm, &mut have)?, Vec::new());
    assert_eq!(have.len(), want.len());
    for i in 0..want.len() {
        assert_eq!(have.get(&want.key(i)), Some(want.value(i)));
    }

    Ok(())
}

#[test]
fn find_bottleneck_finds_as_bottleneck_from_mrt_hashmap() -> Result<(), Error> {
    let mut want = FindBottleneck::new();
    want.insert(RoutingPrefix::from_str("1.0.139.0/24")?, 38040);
    want.insert(RoutingPrefix::from_str("1.0.204.0/22")?, 38040);
    want.insert(RoutingPrefix::from_str("1.0.6.0/24")?, 4826);

    let mut have = FindBottleneck::new();
    let mrt_hm = setup_mrt_hm()?;
    have.find_as_bottleneck(&mrt_hm)?;

    assert_eq!(have.len(), want.len());
    for prefix in ["1.0.139.0/24", "1.0.204.0/22", "1.0.6.0/24"] {
        let prefix = RoutingPrefix::from_str(prefix)?;
        assert_eq!(have.get(&prefix), want.get(&prefix));
    }
    assert_eq!(have.write_bottleneck(), want.write_bottleneck());
    assert!(have.anomalies().is_empty());

    Ok(())
}

#[test]
fn bottleneck_finds_common_suffix_from_mrt_hashmap() -> Result<(), Error> {
    let mut want: PrefixMap<Vec<u32>> = PrefixMap::new();
    want.insert(RoutingPrefix::from_str("1.0.139.0/24")?, vec![23969, 38040]);
    want.insert(RoutingPrefix::from_str("1.0.204.0/22")?, vec![23969, 38040]);
    want.insert(RoutingPrefix::from_str("1.0.6.0/24")?, vec![56203, 38803, 4826]);

    let mrt_hm = setup_mrt_hm()?;

    assert_eq!(mrt_hm.len(), want.len());
    for i in 0..want.len() {
        let paths = mrt_hm.get(&want.key(i)).unwrap();
        assert_eq!(candidate(paths).as_ref(), Some(want.value(i)));
    }

    Ok(())
}

#[test]
fn bottleneck_finds_as_bottleneck_from_mrt_hashmap() -> Result<(), Error> {
    let mut have = FindBottleneck::new();
    let mrt_hm = setup_mrt_hm()?;
    have.find_as_bottleneck(&mrt_hm)?;

    assert_eq!(have.len(), 3);
    assert_eq!(have.get(&RoutingPrefix::from_str("1.0.139.0/24")?), Some(38040));
    assert_eq!(have.get(&RoutingPrefix::from_str("1.0.204.0/22")?), Some(38040));
    assert_eq!(have.get(&RoutingPrefix::from_str("1.0.6.0/24")?), Some(4826));

    Ok(())
}

#[test]
fn three_paths_share_two_hops() {
    let paths = vec![
        vec![2497, 38040, 23969],
        vec![25152, 6939, 4766, 38040, 23969],
        vec![4777, 6939, 4766, 38040, 23969],
    ];
    assert_eq!(bottleneck(&paths), Some(38040));
    assert_eq!(common_suffix(&paths), Some(vec![38040, 23969]));
    assert_eq!(candidate(&paths), Some(vec![23969, 38040]));
}

#[test]
fn the_order_of_the_paths_does_not_matter() {
    let a = vec![2497, 38040, 23969];
    let b = vec![25152, 6939, 4766, 38040, 23969];
    let c = vec![4777, 6939, 4766, 38040, 23969];
    let orders = [
        vec![a.clone(), b.clone(), c.clone()],
        vec![a.clone(), c.clone(), b.clone()],
        vec![b.clone(), a.clone(), c.clone()],
        vec![b.clone(), c.clone(), a.clone()],
        vec![c.clone(), a.clone(), b.clone()],
        vec![c.clone(), b.clone(), a.clone()],
        vec![c.clone(), b.clone(), a.clone(), c.clone(), b.clone()],
    ];
    for order in orders {
        assert_eq!(bottleneck(&order), Some(38040));
        assert_eq!(common_suffix(&order), Some(vec![38040, 23969]));
    }
}

#[test]
fn one_path_has_its_first_hop_as_bottleneck() {
    assert_eq!(bottleneck(&vec![vec![6894, 13335, 38803, 56203]]), Some(6894));
    assert_eq!(bottleneck(&vec![vec![7]]), Some(7));
    assert_eq!(common_suffix(&vec![vec![1, 2, 3]]), Some(vec![1, 2, 3]));
}

#[test]
fn a_path_that_is_the_tail_of_another_is_what_they_share() {
    assert_eq!(bottleneck(&vec![vec![1, 2, 3, 4], vec![3, 4]]), Some(3));
    assert_eq!(bottleneck(&vec![vec![3, 4], vec![1, 2, 3, 4]]), Some(3));
    assert_eq!(bottleneck(&vec![vec![9, 3, 4], vec![1, 2, 3, 4]]), Some(3));
}

#[test]
fn different_origins_have_no_bottleneck() {
    assert_eq!(bottleneck(&vec![vec![64271, 62240, 3356], vec![64271, 62240, 174]]), None);
    assert_eq!(common_suffix(&vec![vec![1, 2], vec![1, 3]]), None);
    assert_eq!(candidate(&vec![vec![1, 2], vec![1, 3]]), None);
    assert_eq!(bottleneck(&Vec::new()), None);
    assert_eq!(bottleneck(&vec![vec![1, 2], Vec::new()]), None);
}

#[test]
fn anomalous_prefixes_are_left_out_and_listed() -> Result<(), Error> {
    let good = RoutingPrefix::from_str("5.57.81.0/24")?;
    let first_bad = RoutingPrefix::from_str("195.66.225.77/0")?;
    let second_bad = RoutingPrefix::from_str("5.57.81.186/24")?;
    let mut mrt_hm = PathCollector::new();
    mrt_hm.insert(first_bad, vec![64271, 62240, 3356])?;
    mrt_hm.insert(good, vec![1, 2, 3])?;
    mrt_hm.insert(first_bad, vec![64271, 62240, 174])?;
    mrt_hm.insert(second_bad, vec![6894, 13335, 38803, 56203])?;
    mrt_hm.insert(second_bad, vec![6894, 13335, 4826, 174])?;
    mrt_hm.insert(good, vec![9, 2, 3])?;

    let mut have = FindBottleneck::new();
    have.find_as_bottleneck(&mrt_hm)?;

    assert_eq!(have.len(), 1);
    assert_eq!(have.get(&good), Some(2));
    assert_eq!(have.get(&first_bad), None);
    assert_eq!(have.get(&second_bad), None);
    assert_eq!(have.anomalies(), &vec![first_bad, second_bad]);
    assert_eq!(have.write_bottleneck(), vec!["5.57.81.0/24|2".to_string()]);

    let mut suffixes: PrefixMap<Vec<u32>> = PrefixMap::new();
    assert_eq!(
        FindBottleneck::find_common_suffix(&mrt_hm, &mut suffixes),
        Ok(vec![first_bad, second_bad])
    );
    assert_eq!(suffixes.len(), 1);
    assert_eq!(suffixes.get(&good), Some(&vec![2, 3]));
    Ok(())
}

#[test]
fn find_common_suffix_keeps_what_is_there() -> Result<(), Error> {
    let prefix = RoutingPrefix::from_str("10.0.0.0/8")?;
    let other = RoutingPrefix::from_str("11.0.0.0/8")?;
    let mut mrt_hm = PathCollector::new();
    mrt_hm.insert(prefix, vec![1, 2, 3])?;
    let mut suffixes: PrefixMap<Vec<u32>> = PrefixMap::new();
    suffixes.insert(prefix, vec![42]);
    suffixes.insert(other, vec![43]);
    FindBottleneck::find_common_suffix(&mrt_hm, &mut suffixes)?;
    assert_eq!(suffixes.get(&prefix), Some(&vec![42]));
    assert_eq!(suffixes.get(&other), Some(&vec![43]));
    assert_eq!(suffixes.len(), 2);
    Ok(())
}

#[test]
fn find_as_bottleneck_overwrites_what_is_there() -> Result<(), Error> {
    let prefix = RoutingPrefix::from_str("10.0.0.0/8")?;
    let other = RoutingPrefix::from_str("11.0.0.0/8")?;
    let mut mrt_hm = PathCollector::new();
    mrt_hm.insert(prefix, vec![1, 2, 3])?;
    let mut have = FindBottleneck::new();
    have.insert(prefix, 42);
    have.insert(other, 43);
    have.find_as_bottleneck(&mrt_hm)?;
    assert_eq!(have.get(&prefix), Some(1));
    assert_eq!(have.get(&other), Some(43));
    Ok(())
}

#[test]
fn collector_keeps_distinct_paths_without_prepending() -> Result<(), Error> {
    let prefix = RoutingPrefix { ip: IpAddress::V4(10, 0, 0, 0), mask: 8 };
    let mut mrt_hm = PathCollector::new();
    mrt_hm.insert(prefix, vec![1, 1, 2, 3, 3, 3])?;
    mrt_hm.insert(prefix, vec![1, 2, 2, 3])?;
    mrt_hm.insert(prefix, vec![4, 3])?;
    assert_eq!(mrt_hm.len(), 1);
    assert_eq!(mrt_hm.prefix(0), prefix);
    assert_eq!(mrt_hm.paths(0), &vec![vec![1, 2, 3], vec![4, 3]]);
    assert_eq!(mrt_hm.insert(prefix, Vec::new()), Err(Error::NoAsPathInAttributePath));
    assert_eq!(mrt_hm.paths(0).len(), 2);
    let unknown = RoutingPrefix { ip: IpAddress::V4(10, 0, 0, 0), mask: 9 };
    assert_eq!(mrt_hm.get(&unknown), None);
    assert_eq!(dedup(&vec![5, 5, 6, 5, 5]), vec![5, 6, 5]);
    Ok(())
}

#[test]
fn prefix_map_remembers_the_order_of_its_keys() {
    let a = RoutingPrefix { ip: IpAddress::V4(1, 0, 0, 0), mask: 8 };
    let b = RoutingPrefix { ip: IpAddress::V6(1, 0, 0, 0, 0, 0, 0, 0), mask: 8 };
    let mut map: PrefixMap<u32> = PrefixMap::new();
    assert_eq!(map.insert(a, 1), None);
    assert_eq!(map.insert(b, 2), None);
    assert_eq!(map.insert(a, 3), Some(1));
    assert_eq!(map.len(), 2);
    assert_eq!(map.key(0), a);
    assert_eq!(map.key(1), b);
    assert_eq!(map.value(0), &3);
    assert_eq!(map.index_of(&b), Some(1));
    assert!(map.contains_key(&a));
    *map.value_mut(1) = 9;
    assert_eq!(map.get(&b), Some(&9));
}

#[test]
fn report_lines_are_prefix_pipe_asn() -> Result<(), Error> {
    let mut found = FindBottleneck::new();
    found.insert(RoutingPrefix::from_str("195.66.225.77/0")?, 62240);
    found.insert(RoutingPrefix::from_str("2001:db8::/32")?, 4294967295);
    assert_eq!(
        found.write_bottleneck(),
        vec!["195.66.225.77/0|62240".to_string(), "2001:db8::/32|4294967295".to_string()]
    );
    Ok(())
}

#[test]
fn prefix_map_tells_apart_keys_that_are_filed_together() {
    let keys = [
        RoutingPrefix { ip: IpAddress::V6(1, 0, 0, 0, 0, 0, 0, 0), mask: 0 },
        RoutingPrefix { ip: IpAddress::V6(0, 0, 0, 0, 1, 0, 0, 0), mask: 0 },
        RoutingPrefix { ip: IpAddress::V6(0, 0, 0, 0, 0, 0, 0, 1), mask: 0 },
        RoutingPrefix { ip: IpAddress::V6(0, 0, 0, 0, 0, 0, 0, 0), mask: 1 },
        RoutingPrefix { ip: IpAddress::V6(0, 0, 0, 1, 0, 0, 0, 0), mask: 0 },
        RoutingPrefix { ip: IpAddress::V4(0, 0, 0, 1), mask: 0 },
        RoutingPrefix { ip: IpAddress::V4(0, 0, 0, 0), mask: 0 },
        RoutingPrefix { ip: IpAddress::V6(0, 0, 0, 0, 0, 0, 0, 0), mask: 0 },
    ];
    let mut map: PrefixMap<usize> = PrefixMap::new();
    for (i, key) in keys.iter().enumerate() {
        assert_eq!(map.index_of(key), None);
        assert_eq!(map.insert(*key, i), None);
    }
    assert_eq!(map.len(), keys.len());
    for (i, key) in keys.iter().enumerate() {
        assert_eq!(map.index_of(key), Some(i));
        assert_eq!(map.get(key), Some(&i));
        assert_eq!(map.key(i), *key);
    }
    for (i, key) in keys.iter().enumerate() {
        assert_eq!(map.insert(*key, i + 100), Some(i));
    }
    assert_eq!(map.len(), keys.len());
    let absent = RoutingPrefix { ip: IpAddress::V6(0, 0, 1, 0, 0, 0, 0, 0), mask: 0 };
    assert!(!map.contains_key(&absent));
}

#[test]
fn prefix_map_holds_many_prefixes() {
    let mut map: PrefixMap<u32> = PrefixMap::new();
    for n in 0..20000u32 {
        let [a, b, c, d] = n.to_be_bytes();
        let v4 = RoutingPrefix { ip: IpAddress::V4(a, b, c, d), mask: 24 };
        let v6 = RoutingPrefix {
            ip: IpAddress::V6(0x2001, (n >> 16) as u16, n as u16, 0, 0, 0, 0, 0),
            mask: 48,
        };
        assert_eq!(map.insert(v4, n), None);
        assert_eq!(map.insert(v6, n + 1), None);
    }
    assert_eq!(map.len(), 40000);
    for n in (0..20000u32).step_by(97) {
        let [a, b, c, d] = n.to_be_bytes();
        let v4 = RoutingPrefix { ip: IpAddress::V4(a, b, c, d), mask: 24 };
        assert_eq!(map.get(&v4), Some(&n));
        assert_eq!(map.index_of(&v4), Some(2 * n as usize));
    }
}

#[test]
fn merging_collectors_is_recording_everything_in_one() -> Result<(), Error> {
    let a = RoutingPrefix::from_str("1.0.139.0/24")?;
    let b = RoutingPrefix::from_str("1.0.204.0/22")?;
    let c = RoutingPrefix::from_str("2001:db8::/32")?;

    let mut left = PathCollector::new();
    left.insert(a, vec![2497, 38040, 23969])?;
    left.insert(b, vec![1, 2])?;
    let mut right = PathCollector::new();
    right.insert(a, vec![25152, 6939, 4766, 38040, 23969])?;
    right.insert(a, vec![2497, 38040, 23969])?;
    right.insert(c, vec![7, 8])?;

    let mut both = PathCollector::new();
    both.merge(&left);
    both.merge(&right);
    assert_eq!(both.len(), 3);
    assert_eq!(
        both.get(&a),
        Some(&vec![vec![2497, 38040, 23969], vec![25152, 6939, 4766, 38040, 23969]])
    );
    assert_eq!(both.get(&b), Some(&vec![vec![1, 2]]));
    assert_eq!(both.get(&c), Some(&vec![vec![7, 8]]));

    let mut other_way = PathCollector::new();
    other_way.merge(&right);
    other_way.merge(&left);
    let mut found = FindBottleneck::new();
    found.find_as_bottleneck(&both)?;
    let mut found_other_way = FindBottleneck::new();
    found_other_way.find_as_bottleneck(&other_way)?;
    for prefix in [a, b, c] {
        assert_eq!(found.get(&prefix), found_other_way.get(&prefix));
    }
    assert_eq!(found.get(&a), Some(38040));

    both.merge(&PathCollector::new());
    assert_eq!(both.len(), 3);
    Ok(())
}
