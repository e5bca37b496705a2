use asmap::error::Error;
use asmap::helper::{compose_u16, compose_u32, read_be_u16, read_be_u32};

#[test]
fn convert_bytes_to_u16() -> Result<(), Error> {
    let length_bytes = vec![0, 10];
    let have = read_be_u16(&mut length_bytes.as_slice())?;
    let want = 10u16;

    assert_eq!(have, want);

    Ok(())
}

#[test]
fn convert_bytes_to_u32() -> Result<(), Error> {
    let length_bytes = vec![0, 0, 0, 10];
    let have = read_be_u32(&mut length_bytes.as_slice())?;
    let want = 10u32;

    assert_eq!(have, want);

    Ok(())
}

#[test]
fn reading_takes_the_bytes_off_the_front() {
    let bytes = vec![1, 2, 3, 4, 5, 6, 7];
    let mut input = bytes.as_slice();
    assert_eq!(read_be_u16(&mut input), Ok(0x0102));
    assert_eq!(input, &[3, 4, 5, 6, 7]);
    assert_eq!(read_be_u32(&mut input), Ok(0x03040506));
    assert_eq!(input, &[7]);
    assert_eq!(read_be_u32(&mut input), Err(Error::UnexpectedEndOfBuffer));
    assert_eq!(read_be_u16(&mut input), Err(Error::UnexpectedEndOfBuffer));
    assert_eq!(input, &[7]);
}

#[test]
fn composes_big_endian_numbers() {
    assert_eq!(compose_u16(0xab, 0xcd), 0xabcd);
    assert_eq!(compose_u32(0, 1, 2, 3), 66051);
    assert_eq!(compose_u32(255, 255, 255, 255), u32::MAX);
}
