use asmap::address::Address;
use asmap::error::Error;
use asmap::find_bottleneck::FindBottleneck;
use asmap::ip_address::IpAddress;
use asmap::routing_prefix::RoutingPrefix;

fn parse_ip(text: &str) -> Option<IpAddress> {
    let chars: Vec<char> = text.chars().collect();
    IpAddress::parse(&chars)
}

fn ip_text(ip: IpAddress) -> String {
    ip.to_chars().into_iter().collect()
}

#[test]
fn address_from_str() -> Result<(), Error> {
    let ip = "127.0.0.1";
    let mask = 23;
    let ip_and_mask = format!("{}/{}", ip, mask);
    let want = Address { ip: IpAddress::V4(127, 0, 0, 1), mask: mask };

    let have = Address::from_str(&ip_and_mask).unwrap();

    assert_eq!(have, want);

    Ok(())
}

#[test]
fn routing_prefix_from_str_ipv4() -> Result<(), Error> {
    let ip = "127.0.0.1";
    let mask = 23;
    let ip_and_mask = format!("{}/{}", ip, mask);
    let want = RoutingPrefix { ip: IpAddress::V4(127, 0, 0, 1), mask };

    let have = RoutingPrefix::from_str(&ip_and_mask).unwrap();

    assert_eq!(have, want);

    Ok(())
}

#[test]
fn routing_prefix_from_str_ipv6() -> Result<(), Error> {
    let ip = "2001::";
    let mask = 32;
    let ip_and_mask = format!("{}/{}", ip, mask);
    let want = RoutingPrefix { ip: IpAddress::V6(0x2001, 0, 0, 0, 0, 0, 0, 0), mask };

    let have = RoutingPrefix::from_str(&ip_and_mask).unwrap();

    assert_eq!(have, want);

    Ok(())
}

#[test]
fn ipaddr_from_ipv6_short() -> Result<(), Error> {
    let have = FindBottleneck::format_ip(&[32, 1, 3, 24], false)?;
    assert_eq!(parse_ip("2001:318::"), Some(have));

    Ok(())
}

#[test]
fn ipaddr_from_ipv6_long() -> Result<(), Error> {
    let have = FindBottleneck::format_ip(&[32, 1, 2, 248, 16, 8], false)?;
    assert_eq!(parse_ip("2001:2f8:1008::"), Some(have));

    Ok(())
}

#[test]
fn from_binary_pads_with_zero_octets() {
    assert_eq!(
        RoutingPrefix::from_binary(&[1, 0, 139], 24, false),
        RoutingPrefix { ip: IpAddress::V4(1, 0, 139, 0), mask: 24 }
    );
    assert_eq!(
        RoutingPrefix::from_binary(&[], 0, false),
        RoutingPrefix { ip: IpAddress::V4(0, 0, 0, 0), mask: 0 }
    );
    assert_eq!(
        RoutingPrefix::from_binary(&[0x20, 0x01, 0x0d, 0xb8, 0xff], 40, true),
        RoutingPrefix { ip: IpAddress::V6(0x2001, 0x0db8, 0xff00, 0, 0, 0, 0, 0), mask: 40 }
    );
    // All sixteen octets count, the seventh too.
    assert_eq!(
        FindBottleneck::format_ip(&[0, 1, 0, 2, 0, 3, 0, 4, 0, 5, 0, 6, 0, 7, 0, 8], false),
        Ok(IpAddress::V6(1, 2, 3, 4, 5, 6, 7, 8))
    );
    // Octets beyond the width do not count.
    assert_eq!(
        FindBottleneck::format_ip(&[9, 8, 7, 6, 5], true),
        Ok(IpAddress::V4(9, 8, 7, 6))
    );
}

#[test]
fn from_str_reports_what_is_wrong() {
    assert_eq!(
        RoutingPrefix::from_str("10.0.0.0"),
        Err(Error::NoSlash { bad_prefix: "10.0.0.0".to_string() })
    );
    assert_eq!(
        RoutingPrefix::from_str("bad_address/23"),
        Err(Error::AddrParse { bad_addr: "bad_address".to_string() })
    );
    assert_eq!(
        RoutingPrefix::from_str("10.0.0.0/x"),
        Err(Error::ParseInt { bad_num: "x".to_string() })
    );
    assert_eq!(
        RoutingPrefix::from_str("10.0.0.0/256"),
        Err(Error::ParseInt { bad_num: "256".to_string() })
    );
    assert_eq!(
        RoutingPrefix::from_str("10.0.0.0/"),
        Err(Error::ParseInt { bad_num: "".to_string() })
    );
    assert_eq!(
        RoutingPrefix::from_str("10.0.0.0/255"),
        Ok(RoutingPrefix { ip: IpAddress::V4(10, 0, 0, 0), mask: 255 })
    );
    assert_eq!(
        RoutingPrefix::from_str("10.0.0.0/+8"),
        Ok(RoutingPrefix { ip: IpAddress::V4(10, 0, 0, 0), mask: 8 })
    );
    assert_eq!(
        RoutingPrefix::from_str("10.0.0.0/008"),
        Ok(RoutingPrefix { ip: IpAddress::V4(10, 0, 0, 0), mask: 8 })
    );
}

#[test]
fn to_text_writes_ip_slash_mask() {
    let prefix = RoutingPrefix { ip: IpAddress::V4(195, 66, 225, 77), mask: 0 };
    assert_eq!(prefix.to_text(), "195.66.225.77/0");
    let prefix = RoutingPrefix { ip: IpAddress::V6(0x2001, 0x318, 0, 0, 0, 0, 0, 0), mask: 32 };
    assert_eq!(prefix.to_text(), "2001:318::/32");
}

#[test]
fn text_round_trip_gives_the_prefix_back() {
    let ips = [
        IpAddress::V4(0, 0, 0, 0),
        IpAddress::V4(255, 255, 255, 255),
        IpAddress::V4(1, 20, 203, 0),
        IpAddress::V6(0, 0, 0, 0, 0, 0, 0, 0),
        IpAddress::V6(0, 0, 0, 0, 0, 0, 0, 1),
        IpAddress::V6(1, 0, 0, 0, 0, 0, 0, 0),
        IpAddress::V6(0x2001, 0xdb8, 0, 0, 1, 0, 0, 1),
        IpAddress::V6(0x2001, 0, 0, 1, 0, 0, 0, 1),
        IpAddress::V6(1, 2, 3, 4, 5, 6, 7, 8),
        IpAddress::V6(1, 0, 3, 4, 5, 6, 7, 8),
        IpAddress::V6(0, 0, 0, 0, 0, 0xffff, 0x0102, 0x0304),
        IpAddress::V6(0, 0, 0, 0, 0, 0, 0x0102, 0x0304),
        IpAddress::V6(0xffff, 0xffff, 0xffff, 0xffff, 0xffff, 0xffff, 0xffff, 0xffff),
        IpAddress::V6(0, 1, 0, 0, 2, 0, 0, 0),
    ];
    for ip in ips {
        for mask in [0u8, 7, 24, 128, 255] {
            let prefix = RoutingPrefix { ip, mask };
            assert_eq!(RoutingPrefix::from_str(&prefix.to_text()), Ok(prefix));
        }
    }
}

#[test]
fn addresses_read_and_write_in_the_usual_notation() {
    let cases = [
        ("0.0.0.0", IpAddress::V4(0, 0, 0, 0), "0.0.0.0"),
        ("127.0.0.1", IpAddress::V4(127, 0, 0, 1), "127.0.0.1"),
        ("255.255.255.255", IpAddress::V4(255, 255, 255, 255), "255.255.255.255"),
        ("1.2.3.4", IpAddress::V4(1, 2, 3, 4), "1.2.3.4"),
        ("::", IpAddress::V6(0, 0, 0, 0, 0, 0, 0, 0), "::"),
        ("::1", IpAddress::V6(0, 0, 0, 0, 0, 0, 0, 1), "::1"),
        ("1::", IpAddress::V6(1, 0, 0, 0, 0, 0, 0, 0), "1::"),
        ("2001:db8::1", IpAddress::V6(0x2001, 0xdb8, 0, 0, 0, 0, 0, 1), "2001:db8::1"),
        (
            "2001:db8:0:0:1:0:0:1",
            IpAddress::V6(0x2001, 0xdb8, 0, 0, 1, 0, 0, 1),
            "2001:db8::1:0:0:1",
        ),
        ("1:2:3:4:5:6:7:8", IpAddress::V6(1, 2, 3, 4, 5, 6, 7, 8), "1:2:3:4:5:6:7:8"),
        ("1:0:3:4:5:6:7:8", IpAddress::V6(1, 0, 3, 4, 5, 6, 7, 8), "1:0:3:4:5:6:7:8"),
        (
            "::ffff:1.2.3.4",
            IpAddress::V6(0, 0, 0, 0, 0, 0xffff, 0x0102, 0x0304),
            "::ffff:1.2.3.4",
        ),
        ("::1.2.3.4", IpAddress::V6(0, 0, 0, 0, 0, 0, 0x0102, 0x0304), "::102:304"),
        (
            "1:2:3:4:5:6:1.2.3.4",
            IpAddress::V6(1, 2, 3, 4, 5, 6, 0x0102, 0x0304),
            "1:2:3:4:5:6:102:304",
        ),
        ("1::1.2.3.4", IpAddress::V6(1, 0, 0, 0, 0, 0, 0x0102, 0x0304), "1::102:304"),
        ("fe80::ABCD:0", IpAddress::V6(0xfe80, 0, 0, 0, 0, 0, 0xabcd, 0), "fe80::abcd:0"),
        ("0:0:0:0:0:0:0:0", IpAddress::V6(0, 0, 0, 0, 0, 0, 0, 0), "::"),
        ("1:2:3:4:5:6:7::", IpAddress::V6(1, 2, 3, 4, 5, 6, 7, 0), "1:2:3:4:5:6:7:0"),
        ("::2:3:4:5:6:7:8", IpAddress::V6(0, 2, 3, 4, 5, 6, 7, 8), "0:2:3:4:5:6:7:8"),
        ("0:1:0:0:2:0:0:0", IpAddress::V6(0, 1, 0, 0, 2, 0, 0, 0), "0:1:0:0:2::"),
        (
            "ffff:ffff:ffff:ffff:ffff:ffff:ffff:ffff",
            IpAddress::V6(0xffff, 0xffff, 0xffff, 0xffff, 0xffff, 0xffff, 0xffff, 0xffff),
            "ffff:ffff:ffff:ffff:ffff:ffff:ffff:ffff",
        ),
    ];
    for (text, ip, written) in cases {
        assert_eq!(parse_ip(text), Some(ip), "reading {:?}", text);
        assert_eq!(ip_text(ip), written, "writing {:?}", text);
        assert_eq!(parse_ip(written), Some(ip), "reading {:?}", written);
    }
}

#[test]
fn what_is_no_address_is_not_read() {
    let texts = [
        "",
        "1.2.3",
        "1.2.3.4.5",
        "01.2.3.4",
        "256.1.1.1",
        "1.2.3.4 ",
        "1..2.3",
        ":",
        ":::",
        "1:::2",
        "1::2::3",
        "1:2:3:4:5:6:7",
        "1:2:3:4:5:6:7:8:9",
        "1:2:3:4:5:6:7::8",
        "12345::",
        "g::",
        "1.2.3.4::",
        "::1.2.3.4:5",
        "1:2:3:4:5:6:7:1.2.3.4",
        "bad_address",
    ];
    for text in texts {
        assert_eq!(parse_ip(text), None, "reading {:?}", text);
    }
}
