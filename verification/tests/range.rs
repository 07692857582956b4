use scalpel::byte_offset::{parse_offset, ByteOffset, Magnitude};
use scalpel::range::{parse_range, Range};

#[test]
fn docopt_hex() {
    let range = parse_range("0x0..0x450").expect("Failed to parse range");
    assert_eq!(
        range,
        Range::new(
            ByteOffset::new(0, Magnitude::Unit),
            ByteOffset::new(1104, Magnitude::Unit)
        )
    );
}

#[test]
fn docopt_dec() {
    let range = parse_range("20Ki..21Ki").expect("Failed to parse range");
    assert_eq!(
        range,
        Range::new(
            ByteOffset::new(20, Magnitude::Ki),
            ByteOffset::new(1024, Magnitude::Unit)
        )
    );
}

#[test]
fn docopt_bad_hex() {
    let range = parse_range("0x20Fg..0xFA");
    assert!(range.is_err());
}

#[test]
fn docopt_bigger_end() {
    let range = parse_range("0xFF..0xFE");
    assert!(range.is_err());
}

#[test]
fn docopt_hex_and_dec() {
    let range = parse_range("0xFF..1K");
    assert_eq!(
        range.expect("Failed to parse range"),
        Range::new(
            ByteOffset::new(255, Magnitude::Unit),
            ByteOffset::new(745, Magnitude::Unit)
        )
    );
}

#[test]
fn docopt_byteoffset() {
    let offsets: Vec<ByteOffset> = vec!["10", "0x100", "1Ki"]
        .iter()
        .map(|bo| parse_offset(bo).expect("Failed to parse"))
        .collect();

    let mut offset_it = offsets.iter();
    assert_eq!(
        offset_it.next().unwrap(),
        &ByteOffset::new(10, Magnitude::Unit)
    );
    assert_eq!(
        offset_it.next().unwrap(),
        &ByteOffset::new(256, Magnitude::Unit)
    );
    assert_eq!(offset_it.next().unwrap(), &ByteOffset::new(1, Magnitude::Ki));
}

#[test]
fn size_form_keeps_the_size_as_written() {
    let range = parse_range("12M+512").expect("Failed to parse range");
    assert_eq!(
        range,
        Range::new(
            ByteOffset::new(12, Magnitude::M),
            ByteOffset::new(512, Magnitude::Unit)
        )
    );
    let range = parse_range("0xFF+1K").expect("Failed to parse range");
    assert_eq!(range.size, ByteOffset::new(1, Magnitude::K));
}

#[test]
fn malformed_ranges_are_refused() {
    assert!(parse_range("12").is_err());
    assert!(parse_range("..12").is_err());
    assert!(parse_range("12..").is_err());
    assert!(parse_range("12.13").is_err());
    assert!(parse_range("12+").is_err());
    assert!(parse_range("5+3+2").is_err());
    let err = parse_range("0xFF..0xFE").unwrap_err();
    assert!(matches!(
        err,
        scalpel::errors::ScalpelError::ParsingError { .. }
    ));
}

#[test]
fn equal_bounds_give_an_empty_range() {
    let range = parse_range("0xFE..0xFE").expect("Failed to parse range");
    assert_eq!(range.size, ByteOffset::new(0, Magnitude::Unit));
}
