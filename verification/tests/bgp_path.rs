use std::io::BufRead;
use std::io::Cursor;

use asmap::address::Address;
use asmap::bgp_path::BGPPath;
use asmap::error::Error;
use asmap::ip_address::IpAddress;

#[test]
// "223.255.245.0/24|31742 174 6453 4755 45820 45954 45954 45954 45954"
fn bgp_path_from_str() -> Result<(), Error> {
    let ip = "223.255.245.0";
    let mask = 24;
    let asn_list = "31742 174 6453 4755 45820 45954 45954 45954 45954";
    let text = format!("{}/{}|{}", ip, mask, asn_list);
    let have = BGPPath::from_str(&text).unwrap();

    let addr = Address { ip: IpAddress::V4(223, 255, 245, 0), mask };

    let asn_list_dedup: Vec<u32> = vec![31742, 174, 6453, 4755, 45820, 45954];
    let want = BGPPath { addr, as_path: asn_list_dedup };

    assert_eq!(have, want);

    Ok(())
}

#[test]
fn parse_int() {
    let text = "223.255.245.0/24|31742 174 4294967296 4755 45820 45954 45954 45954 45954";
    let have = BGPPath::from_str(&text).unwrap_err();

    match have {
        Error::ParseInt { .. } => {}
        _ => panic!("Expected BGPPath ParseInt Error type"),
    };
}

#[test]
fn load_data_as_bgp_path_vec() -> Result<(), Error> {
    let cursor = Cursor::new(String::from(
        "223.255.245.0/24|31742 174 6453 4755 45820 45954 45954 45954 45954",
    ));
    let lines: Vec<String> = cursor.lines().map(|line| line.unwrap()).collect();
    let have = BGPPath::load(&lines)?;

    let mut want: Vec<BGPPath> = Vec::new();
    let ip = IpAddress::V4(223, 255, 245, 0);
    let mask = 24;
    let addr_entry = Address { ip, mask };

    let as_vec = vec![31742, 174, 6453, 4755, 45820, 45954];
    let bgp_entry = BGPPath { addr: addr_entry, as_path: as_vec };

    want.push(bgp_entry);

    assert_eq!(want, have);

    Ok(())
}

#[test]
fn lines_without_one_pipe_are_refused() {
    assert_eq!(
        BGPPath::from_str("1.2.3.0/24 1 2 3"),
        Err(Error::NoPipe { bad_quagga: "1.2.3.0/24 1 2 3".to_string() })
    );
    assert_eq!(
        BGPPath::from_str("1.2.3.0/24|1|2"),
        Err(Error::NoPipe { bad_quagga: "1.2.3.0/24|1|2".to_string() })
    );
}

#[test]
fn the_first_bad_part_of_a_line_decides() {
    assert_eq!(
        BGPPath::from_str("1.2.3/24|x"),
        Err(Error::AddrParse { bad_addr: "1.2.3".to_string() })
    );
    assert_eq!(
        BGPPath::from_str("1.2.3.0/24|7 x 8 y"),
        Err(Error::ParseInt { bad_num: "x".to_string() })
    );
    assert_eq!(
        BGPPath::from_str("1.2.3.0/24|7  8"),
        Err(Error::ParseInt { bad_num: "".to_string() })
    );
    assert_eq!(
        BGPPath::from_str("1.2.3.0/24|4294967295"),
        Ok(BGPPath {
            addr: Address { ip: IpAddress::V4(1, 2, 3, 0), mask: 24 },
            as_path: vec![4294967295]
        })
    );
}

#[test]
fn load_keeps_the_order_and_stops_at_the_first_bad_line() {
    let lines = vec!["1.0.0.0/8|1 1 2".to_string(), "2.0.0.0/8|3".to_string()];
    let have = BGPPath::load(&lines).unwrap();
    assert_eq!(have.len(), 2);
    assert_eq!(have[0].as_path, vec![1, 2]);
    assert_eq!(have[1].addr, Address { ip: IpAddress::V4(2, 0, 0, 0), mask: 8 });

    let lines = vec!["1.0.0.0/8|1".to_string(), "oops".to_string(), "x/y|z".to_string()];
    assert_eq!(BGPPath::load(&lines), Err(Error::NoPipe { bad_quagga: "oops".to_string() }));
    assert_eq!(BGPPath::load(&Vec::new()), Ok(Vec::new()));
}
