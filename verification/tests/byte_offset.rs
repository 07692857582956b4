use scalpel::byte_offset::{parse_offset, ByteOffset, Magnitude};

#[test]
fn bo_decimal_from_string() {
    let byte_offset_string = vec!["0", "45K", "12Ki", "92M", "999Mi", "012G", "209Gi"];

    let byte_offsets: Vec<ByteOffset> = byte_offset_string
        .iter()
        .map(|bo| parse_offset(bo).expect("Failed to parse"))
        .collect();

    assert_eq!(byte_offsets[0], ByteOffset::new(0, Magnitude::Unit));
    assert_eq!(byte_offsets[1], ByteOffset::new(45, Magnitude::K));
    assert_eq!(byte_offsets[2], ByteOffset::new(12, Magnitude::Ki));
    assert_eq!(byte_offsets[3], ByteOffset::new(92, Magnitude::M));
    assert_eq!(byte_offsets[4], ByteOffset::new(999, Magnitude::Mi));
    assert_eq!(byte_offsets[5], ByteOffset::new(12, Magnitude::G));
    assert_eq!(byte_offsets[6], ByteOffset::new(209, Magnitude::Gi));
}

#[test]
fn bo_hex_from_string() {
    let byte_offset_strings = vec!["0x0", "0x100", "0XFAcBd"];
    let byte_offsets: Vec<ByteOffset> = byte_offset_strings
        .iter()
        .map(|bo| parse_offset(bo).expect("failed to parse"))
        .collect();

    assert_eq!(byte_offsets[0], ByteOffset::new(0, Magnitude::Unit));
    assert_eq!(byte_offsets[1], ByteOffset::new(256, Magnitude::Unit));
    assert_eq!(byte_offsets[2], ByteOffset::new(1027261, Magnitude::Unit));
}

#[test]
fn dec_bad_unit() {
    let bo_dec = vec!["1Ke", "10B", "100AA", "34Li"];
    bo_dec.iter().for_each(|bo_str| {
        let bo = parse_offset(bo_str);
        assert!(bo.is_err());
    });
}

#[test]
fn resolved_values_are_exact() {
    assert_eq!(parse_offset("45K").unwrap().as_u64(), 45000);
    assert_eq!(parse_offset("12Ki").unwrap().as_u64(), 12288);
    assert_eq!(parse_offset("0x100").unwrap().as_u64(), 256);
    assert_eq!(parse_offset("92M").unwrap().as_u64(), 92_000_000);
    assert_eq!(parse_offset("999Mi").unwrap().as_u64(), 999 * 1024 * 1024);
    assert_eq!(parse_offset("209Gi").unwrap().as_u64(), 209 * 1024 * 1024 * 1024);
}

#[test]
fn magnitude_suffix_parse() {
    assert_eq!(Magnitude::parse("").unwrap(), Magnitude::Unit);
    assert_eq!(Magnitude::parse("K").unwrap(), Magnitude::K);
    assert_eq!(Magnitude::parse("Ki").unwrap(), Magnitude::Ki);
    assert_eq!(Magnitude::parse("M").unwrap(), Magnitude::M);
    assert_eq!(Magnitude::parse("Mi").unwrap(), Magnitude::Mi);
    assert_eq!(Magnitude::parse("G").unwrap(), Magnitude::G);
    assert_eq!(Magnitude::parse("Gi").unwrap(), Magnitude::Gi);
    assert!(Magnitude::parse("k").is_err());
    assert!(Magnitude::parse("KiB").is_err());
}

#[test]
fn magnitude_factors() {
    assert_eq!(Magnitude::K.as_u64(), 1000);
    assert_eq!(Magnitude::Ki.as_u64(), 1024);
    assert_eq!(Magnitude::M.as_u64(), 1_000_000);
    assert_eq!(Magnitude::Mi.as_u64(), 1024 * 1024);
    assert_eq!(Magnitude::G.as_u64(), 1_000_000_000);
    assert_eq!(Magnitude::Gi.as_u64(), 1024 * 1024 * 1024);
    assert_eq!(Magnitude::Unit.as_usize(), 1);
    assert_eq!(Magnitude::Gi.as_usize(), 1024 * 1024 * 1024);
}

#[test]
fn equality_compares_absolute_values() {
    assert_eq!(
        ByteOffset::new(1000, Magnitude::Unit),
        ByteOffset::new(1, Magnitude::K)
    );
    assert!(ByteOffset::new(1, Magnitude::K) < ByteOffset::new(1, Magnitude::Ki));
    assert!(ByteOffset::new(2, Magnitude::K) > ByteOffset::new(1, Magnitude::Ki));
}

#[test]
fn arithmetic_is_expressed_in_unit() {
    let sum = ByteOffset::new(1, Magnitude::K).add(ByteOffset::new(24, Magnitude::Unit));
    assert_eq!(sum, ByteOffset::new(1024, Magnitude::Unit));
    let diff = ByteOffset::new(1, Magnitude::Ki).sub(ByteOffset::new(1, Magnitude::K));
    assert_eq!(diff, ByteOffset::new(24, Magnitude::Unit));
}

#[test]
fn saturation_instead_of_wraparound() {
    let big = ByteOffset::new(u64::MAX, Magnitude::Gi);
    assert_eq!(big.as_u64(), u64::MAX);
}

#[test]
fn mantissa_overflow_is_rejected() {
    assert!(parse_offset("99999999999999999999").is_err());
    assert!(parse_offset("0x10000000000000000").is_err());
    assert_eq!(
        parse_offset("18446744073709551615").unwrap().as_u64(),
        u64::MAX
    );
}

#[test]
fn render_shows_mantissa_and_label() {
    assert_eq!(ByteOffset::new(45, Magnitude::K).render(), "45KB");
    assert_eq!(ByteOffset::new(12, Magnitude::Ki).render(), "12KiB");
    assert_eq!(ByteOffset::new(7, Magnitude::Unit).render(), "7");
    assert_eq!(ByteOffset::new(1024, Magnitude::Mi).render(), "1024MiB");
}
