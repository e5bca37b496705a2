use asmap::as_path_parser::{AsPathParser, UnknownTypePolicy};
use asmap::error::Error;
use asmap::mrt_parse::as_path_from_bgp_attributes;

#[test]
fn creates_new_as_path_parser() -> Result<(), Error> {
    let buffer = &[0, 1, 2, 3, 4];

    let want = AsPathParser::resume(buffer, 0).unwrap();

    let have = AsPathParser::new(buffer);

    assert_eq!(want, have);
    Ok(())
}

#[test]
fn returns_true_if_buffer_exhausted() -> Result<(), Error> {
    let want = true;

    let have = AsPathParser::resume(&[0, 1, 2, 3, 4], 5).unwrap().done();

    assert_eq!(want, have);
    Ok(())
}

#[test]
fn returns_false_if_buffer_has_contents() -> Result<(), Error> {
    let have = AsPathParser::resume(&[0, 1, 2, 3, 4], 1).unwrap().done();

    let want = false;

    assert_eq!(want, have);
    Ok(())
}

#[test]
fn advances_buffer_one_forward() -> Result<(), Error> {
    let want = AsPathParser::resume(&[0, 1, 2, 3, 4], 1).unwrap();

    let mut have = AsPathParser::resume(&[0, 1, 2, 3, 4], 0).unwrap();
    let next_byte = have.advance()?;

    assert_eq!(have, want);
    assert_eq!(0, next_byte);
    Ok(())
}

#[test]
fn advances_buffer_four_forward_returns_u32() -> Result<(), Error> {
    let want = AsPathParser::resume(&[0, 1, 2, 3, 4], 4).unwrap();

    let mut have = AsPathParser::resume(&[0, 1, 2, 3, 4], 0).unwrap();
    let new_u32 = have.parse_u32()?;

    assert_eq!(have, want);
    assert_eq!(66051, new_u32);
    Ok(())
}

#[test]
fn parses_attributes_0() -> Result<(), Error> {
    let bgp_attributes = &[
        64, 1, 1, 0, 80, 2, 0, 10, 2, 2, 0, 0, 251, 15, 0, 0, 243, 32, 64, 3, 4, 195, 66, 225, 77,
    ];
    let have = AsPathParser::parse(bgp_attributes)?;
    let want = &[64271u32, 62240u32];
    assert_eq!(have, want);
    Ok(())
}

#[test]
fn parses_attributes_1() -> Result<(), Error> {
    let bgp_attributes = &[
        64, 1, 1, 0, 64, 2, 14, 2, 3, 0, 0, 12, 231, 0, 0, 50, 74, 0, 3, 49, 30, 64, 3, 4, 195, 66,
        224, 110, 192, 8, 28, 12, 231, 3, 232, 12, 231, 3, 238, 12, 231, 3, 252, 12, 231, 12, 21,
        50, 74, 2, 188, 50, 74, 3, 243, 50, 74, 11, 210,
    ];
    let have = AsPathParser::parse(bgp_attributes)?;
    let want = &[3303, 12874, 209182];

    assert_eq!(have, want);
    Ok(())
}

#[test]
fn parses_attributes_2() -> Result<(), Error> {
    let bgp_attributes = &[
        64, 1, 1, 0, 64, 2, 10, 2, 2, 0, 0, 165, 233, 0, 0, 5, 19, 64, 3, 4, 195, 66, 226, 113,
        128, 4, 4, 0, 0, 0, 0, 192, 8, 24, 184, 43, 5, 222, 184, 43, 7, 208, 184, 43, 8, 64, 184,
        43, 8, 252, 184, 43, 9, 112, 184, 43, 10, 40,
    ];
    let have = AsPathParser::parse(bgp_attributes)?;
    let want = &[42473u32, 1299u32];

    assert_eq!(have, want);
    Ok(())
}

#[test]
fn parses_attributes_3() -> Result<(), Error> {
    let bgp_attributes = &[
        64, 1, 1, 0, 80, 2, 0, 10, 2, 2, 0, 2, 1, 149, 0, 0, 229, 255, 64, 3, 4, 103, 102, 5, 1,
        192, 16, 8, 2, 2, 0, 2, 1, 149, 0, 200,
    ];
    let have = AsPathParser::parse(bgp_attributes)?;
    let want = &[131477u32, 58879u32];

    assert_eq!(have, want);
    Ok(())
}

#[test]
fn parse_long_as_path_attr() -> Result<(), Error> {
    let bgp_attributes = &[
        64, 1, 1, 2, 64, 2, 24, 2, 4, 0, 0, 58, 59, 0, 0, 11, 98, 0, 0, 25, 53, 0, 0, 50, 49, 1, 1,
        0, 0, 50, 49, 64, 3, 4, 27, 111, 228, 186, 192, 7, 8, 0, 0, 50, 49, 213, 57, 3, 1, 192, 8,
        32, 11, 98, 1, 164, 11, 98, 5, 125, 11, 98, 9, 102, 11, 98, 13, 72, 25, 53, 7, 208, 25, 53,
        8, 52, 25, 53, 8, 57, 58, 59, 0, 4,
    ];

    let have = AsPathParser::parse(bgp_attributes)?;
    let want = &[14907u32, 2914u32, 6453u32, 12849u32];

    assert_eq!(have, want);
    Ok(())
}

#[test]
fn returns_err_if_buffer_empty() -> Result<(), Error> {
    let have = match AsPathParser::parse(&[]) {
        Ok(_) => panic!("exepceted errr"),
        Err(e) => e,
    };
    let want = Error::MissingPathAttribute { missing_attribute: "all attributes".to_string() };
    assert_eq!(want, have);
    Ok(())
}

#[test]
fn finds_as_path_from_bgp_attributes_64() -> Result<(), Error> {
    let bgp_attributes = vec![
        64, 1, 1, 0, 64, 2, 14, 2, 3, 0, 0, 12, 231, 0, 0, 50, 74, 0, 3, 49, 30, 64, 3, 4, 195, 66,
        224, 110, 192, 8, 28, 12, 231, 3, 232, 12, 231, 3, 238, 12, 231, 3, 252, 12, 231, 12, 21,
        50, 74, 2, 188, 50, 74, 3, 243, 50, 74, 11, 210,
    ];
    let have = as_path_from_bgp_attributes(bgp_attributes)?;
    let want = vec![3303, 12874, 209182];

    assert_eq!(have, want);
    Ok(())
}

#[test]
fn finds_as_path_from_bgp_attributes_80() -> Result<(), Error> {
    let bgp_attributes = vec![
        64, 1, 1, 0, 80, 2, 0, 10, 2, 2, 0, 0, 251, 15, 0, 0, 243, 32, 64, 3, 4, 195, 66, 225, 77,
    ];
    let have = as_path_from_bgp_attributes(bgp_attributes)?;
    let want = vec![64271u32, 62240u32];

    assert_eq!(want, have);
    Ok(())
}

#[test]
fn extracts_as_path_from_bgp_attributes_vector() -> Result<(), Error> {
    let attributes = vec![
        64, 1, 1, 0, 64, 2, 10, 2, 2, 0, 0, 165, 233, 0, 0, 5, 19, 64, 3, 4, 195, 66, 226, 113,
        128, 4, 4, 0, 0, 0, 0, 192, 8, 24, 184, 43, 5, 222, 184, 43, 7, 208, 184, 43, 8, 64, 184,
        43, 8, 252, 184, 43, 9, 112, 184, 43, 10, 40,
    ];

    let have = as_path_from_bgp_attributes(attributes)?;
    let want = vec![42473u32, 1299u32];

    assert_eq!(have, want);
    Ok(())
}

fn as_path_attribute(asns: &[u32]) -> Vec<u8> {
    let mut bytes = vec![64, 2, (2 + 4 * asns.len()) as u8, 2, asns.len() as u8];
    for asn in asns {
        bytes.extend_from_slice(&asn.to_be_bytes());
    }
    bytes
}

#[test]
fn cursor_never_reads_past_the_end() {
    let mut cursor = AsPathParser::new(&[7]);
    assert_eq!(cursor.advance(), Ok(7));
    assert!(cursor.done());
    assert_eq!(cursor.advance(), Err(Error::UnexpectedEndOfBuffer));
    assert_eq!(cursor.position(), 1);
    assert_eq!(AsPathParser::resume(&[1, 2], 3), None);
}

#[test]
fn short_u32_fails_and_uses_up_the_rest() {
    let mut cursor = AsPathParser::new(&[1, 2, 3]);
    assert_eq!(cursor.parse_u32(), Err(Error::UnexpectedEndOfBuffer));
    assert!(cursor.done());
}

#[test]
fn as_set_is_never_reported() {
    // An AS_PATH attribute with an AS_SET, then one with an AS_SEQUENCE.
    let mut bytes = vec![64, 2, 6, 1, 1, 0, 0, 0, 9];
    bytes.extend(as_path_attribute(&[64271, 62240]));
    assert_eq!(AsPathParser::parse(&bytes), Ok(vec![64271, 62240]));

    // The other order.
    let mut bytes = as_path_attribute(&[64271, 62240]);
    bytes.extend([64, 2, 6, 1, 1, 0, 0, 0, 9]);
    assert_eq!(AsPathParser::parse(&bytes), Ok(vec![64271, 62240]));

    // An AS_SET alone yields no path.
    assert_eq!(
        AsPathParser::parse(&[64, 2, 6, 1, 1, 0, 0, 0, 9]),
        Err(Error::NoAsPathInAttributePath)
    );
}

#[test]
fn buffer_without_as_path_has_no_path() {
    assert_eq!(
        AsPathParser::parse(&[64, 1, 1, 0, 64, 3, 4, 195, 66, 225, 77]),
        Err(Error::NoAsPathInAttributePath)
    );
}

#[test]
fn two_as_paths_are_refused() {
    let mut bytes = as_path_attribute(&[1, 2]);
    bytes.extend([64, 1, 1, 0]);
    bytes.extend(as_path_attribute(&[3]));
    assert_eq!(AsPathParser::parse(&bytes), Err(Error::MultipleAsPaths));
}

#[test]
fn empty_sequence_is_no_path() {
    assert_eq!(AsPathParser::parse(&[64, 2, 2, 2, 0]), Err(Error::NoAsPathInAttributePath));
}

#[test]
fn unknown_segment_type_is_reported() {
    assert_eq!(
        AsPathParser::parse(&[64, 2, 2, 7, 0]),
        Err(Error::UnknownAsValue { unknown_as_value: 7 })
    );
}

#[test]
fn truncated_buffers_end_too_early() {
    let whole = [
        64, 1, 1, 0, 80, 2, 0, 10, 2, 2, 0, 0, 251, 15, 0, 0, 243, 32, 64, 3, 4, 195, 66, 225, 77,
    ];
    assert_eq!(
        AsPathParser::parse(&whole[..whole.len() - 1]),
        Err(Error::UnexpectedEndOfBuffer)
    );
    let only_path = as_path_attribute(&[1, 2, 3]);
    assert_eq!(
        AsPathParser::parse(&only_path[..only_path.len() - 1]),
        Err(Error::UnexpectedEndOfBuffer)
    );
    assert_eq!(AsPathParser::parse(&[64, 1]), Err(Error::UnexpectedEndOfBuffer));
}

#[test]
fn segment_never_reads_past_its_attribute() {
    // The header declares a value of two bytes; the segment asks for more,
    // and the bytes behind the attribute are not lent to it.
    let bytes = [64, 2, 2, 2, 1, 0, 0, 0, 5, 64, 1, 1, 0];
    assert_eq!(AsPathParser::parse(&bytes), Err(Error::UnexpectedEndOfBuffer));
}

#[test]
fn leftover_bytes_of_an_as_path_are_stepped_over() {
    // Two bytes of the declared value are left after the sequence.
    let bytes = [64, 2, 8, 2, 1, 0, 0, 0, 5, 9, 9, 64, 1, 1, 0];
    assert_eq!(AsPathParser::parse(&bytes), Ok(vec![5]));
    let mut cursor = AsPathParser::new(&bytes);
    assert_eq!(cursor.parse_attribute(), Ok(Some(vec![5])));
    assert_eq!(cursor.position(), 11);
}

#[test]
fn unknown_type_codes_are_stepped_over_or_rejected() {
    let mut bytes = vec![64, 200, 1, 0];
    bytes.extend(as_path_attribute(&[10, 20]));
    assert_eq!(AsPathParser::parse(&bytes), Ok(vec![10, 20]));
    assert_eq!(
        AsPathParser::parse_with(&bytes, UnknownTypePolicy::Reject),
        Err(Error::UnknownTypeCode { unknown_type_code: 200 })
    );
    assert_eq!(
        as_path_from_bgp_attributes(bytes),
        Err(Error::UnknownTypeCode { unknown_type_code: 200 })
    );
}
