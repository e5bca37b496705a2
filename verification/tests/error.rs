use asmap::error::Error;
use asmap::routing_prefix::RoutingPrefix;

#[test]
fn routing_prefix_parse_display() {
    let ip = "bad_address";
    let mask = 23;
    let text = format!("{}/{}", ip, mask);
    let err = RoutingPrefix::from_str(&text).unwrap_err();
    assert_eq!(err.to_string(), "Invalid address, invalid IP address syntax: bad_address");
}

#[test]
fn no_slash_display() {
    let err = Error::NoSlash { bad_prefix: String::from("INVALID_IP_AND_MASK") };

    assert_eq!(
        err.to_string(),
        "Invalid IP and mask: INVALID_IP_AND_MASK. Missing `/`, expected format `IP/mask`",
    );
}

#[test]
fn every_error_has_its_sentence() {
    assert_eq!(
        Error::Io { io_error: "not gzip data".to_string(), path: "a.gz".to_string() }.to_string(),
        "I/O error at `a.gz`: not gzip data"
    );
    assert_eq!(
        Error::MissingPathAttribute { missing_attribute: "all attributes".to_string() }
            .to_string(),
        "Invalid mrt entry. Missing all attributes."
    );
    assert_eq!(
        Error::UnknownAsValue { unknown_as_value: 207 }.to_string(),
        "Did not recognize as path value `207`, expected AS_SET (1) or AS_SEQUENCE (2)."
    );
    assert_eq!(
        Error::UnknownTypeCode { unknown_type_code: 0 }.to_string(),
        "Did not recognize attribute type code `0`."
    );
    assert_eq!(
        Error::UnexpectedEndOfBuffer.to_string(),
        "Expected another byte but buffer is exhausted."
    );
    assert_eq!(
        Error::MultipleAsPaths.to_string(),
        "Expected one AS_PATH attribute in BGP Attribute Path, found multiple."
    );
    assert_eq!(
        Error::NoAsPathInAttributePath.to_string(),
        "Expected an AS_PATH attribute in BGP Attribute Path."
    );
    assert_eq!(
        Error::AttributeOverflow.to_string(),
        "Overflow encountered during AS parsing. Ignoring invalid attribute."
    );
    assert_eq!(
        Error::NoPipe { bad_quagga: "x".to_string() }.to_string(),
        "Invalid path line: x. Missing `|`, expected format `IP/mask|asn asn`"
    );
    assert_eq!(Error::ParseInt { bad_num: "4x".to_string() }.to_string(), "Invalid number: 4x");
}
