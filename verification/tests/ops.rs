use scalpel::byte_offset::{ByteOffset, Magnitude};
use scalpel::errors::ScalpelError;
use scalpel::ops::{extract, splice, AnnotatedBytes, FillPattern, MetaInfo};

#[test]
fn graft() {
    let size = 80usize;

    let mut in_bytes = AnnotatedBytes::new();
    let mut graft_bytes = AnnotatedBytes::new();
    in_bytes.bytes.resize(200, 1u8);
    graft_bytes.bytes.resize(50, 2u8);
    let graft_len = graft_bytes.bytes.len();

    in_bytes
        .graft(
            graft_bytes,
            ByteOffset::new(10, Magnitude::Unit),
            ByteOffset::new(size as u64, Magnitude::Unit),
            FillPattern::One,
        )
        .expect("Failed to graft");

    let ones = vec![1u8; 200 - 10 - size];
    let twos = vec![2u8; graft_len];
    let ffs = vec![0xffu8; size - graft_len];
    assert_eq!(in_bytes.bytes[0..10], ones[..10]);
    assert_eq!(in_bytes.bytes[10..10 + graft_len], twos[..]);
    assert_eq!(in_bytes.bytes[10 + graft_len..10 + size], ffs[..]);
    assert_eq!(in_bytes.bytes[10 + size..], ones[..]);
}

#[test]
fn stitch() {
    let bos: Vec<ByteOffset> = vec![
        ByteOffset::new(0, Magnitude::Unit),
        ByteOffset::new(1, Magnitude::K),
        ByteOffset::new(1, Magnitude::Ki),
    ];

    let mut byts: Vec<AnnotatedBytes> = vec![
        AnnotatedBytes::new(),
        AnnotatedBytes::new(),
        AnnotatedBytes::new(),
    ];

    byts[0].bytes.resize(30, 1u8);
    byts[1].bytes.resize(4, 2u8);
    byts[2].bytes.resize(100, 3u8);

    let stitch_vec: Vec<(AnnotatedBytes, ByteOffset)> =
        byts.into_iter().zip(bos.into_iter()).collect();

    let stitched =
        AnnotatedBytes::stitch(stitch_vec, FillPattern::One).expect("Failed to stitch");

    let ones = vec![1u8; 100];
    let twos = vec![2u8; 4];
    let threes = vec![3u8; 100];
    let ffs = vec![255u8; 1000];
    assert_eq!(stitched.bytes.len(), 1124);
    assert_eq!(stitched.bytes[..30], ones[..30]);
    assert_eq!(stitched.bytes[30..1000], ffs[30..1000]);
    assert_eq!(stitched.bytes[1000..1004], twos[..]);
    assert_eq!(stitched.bytes[1004..1024], ffs[..20]);
    assert_eq!(stitched.bytes[1024..], threes[..]);
}

#[test]
fn stance() {
    let mut in_bytes = AnnotatedBytes::new();
    in_bytes.bytes.resize(100, 2u8);

    let start = ByteOffset::new(10, Magnitude::Unit);
    let size = ByteOffset::new(40, Magnitude::Unit);
    in_bytes.stance(start, size).expect("Failed to cut");
    assert_eq!(in_bytes.bytes.len(), size.as_usize());

    in_bytes.bytes.resize(100, 2u8);
    let size = ByteOffset::new(1, Magnitude::K);
    in_bytes.stance(start, size).expect("Failed to cut");
    assert_eq!(in_bytes.bytes.len(), 100 - start.as_usize());
}

#[test]
fn stance_at_the_first_byte() {
    let mut in_bytes = AnnotatedBytes::new();
    for v in 0u8..16 {
        in_bytes.bytes.push(v);
    }
    let start = ByteOffset::new(0, Magnitude::Unit);
    let size = ByteOffset::new(4, Magnitude::Unit);
    in_bytes.stance(start, size).expect("Failed to cut");
    assert_eq!(in_bytes.bytes, vec![0u8, 1, 2, 3]);
}

#[test]
fn extract_returns_the_window() {
    let buffer: Vec<u8> = (0u8..16).collect();
    let out = extract(buffer, 5, 4).expect("Failed to extract");
    assert_eq!(out, vec![5u8, 6, 7, 8]);
}

#[test]
fn extract_clamps_a_long_window() {
    let buffer: Vec<u8> = (0u8..16).collect();
    let out = extract(buffer, 12, 100).expect("Failed to extract");
    assert_eq!(out, vec![12u8, 13, 14, 15]);
}

#[test]
fn extract_refuses_a_start_beyond_the_end() {
    let buffer: Vec<u8> = (0u8..16).collect();
    assert_eq!(extract(buffer, 17, 1), Err(ScalpelError::RangeError));
    let buffer: Vec<u8> = (0u8..16).collect();
    assert_eq!(extract(buffer, 16, 4), Ok(vec![]));
}

#[test]
fn splice_example() {
    let target = vec![1u8; 200];
    let replacement = vec![2u8; 50];
    let out = splice(target, replacement, 10, 80, &FillPattern::One).expect("Failed to splice");
    assert_eq!(out.len(), 200);
    assert!(out[0..10].iter().all(|&b| b == 1));
    assert!(out[10..60].iter().all(|&b| b == 2));
    assert!(out[60..90].iter().all(|&b| b == 0xFF));
    assert!(out[90..200].iter().all(|&b| b == 1));
}

#[test]
fn splice_refuses_an_oversized_replacement() {
    let target = vec![1u8; 200];
    let replacement = vec![2u8; 81];
    assert_eq!(
        splice(target, replacement, 10, 80, &FillPattern::Zero),
        Err(ScalpelError::ReplaceError)
    );
}

#[test]
fn splice_refuses_a_window_past_the_end() {
    let target = vec![1u8; 100];
    let replacement = vec![2u8; 10];
    assert_eq!(
        splice(target, replacement, 50, 60, &FillPattern::Zero),
        Err(ScalpelError::RangeError)
    );
}

#[test]
fn stitch_overlap_is_an_error() {
    let mut first = AnnotatedBytes::new();
    first.bytes.resize(30, 1u8);
    let mut second = AnnotatedBytes::new();
    second.bytes.resize(4, 2u8);
    let entries = vec![
        (first, ByteOffset::new(0, Magnitude::Unit)),
        (second, ByteOffset::new(29, Magnitude::Unit)),
    ];
    let res = AnnotatedBytes::stitch(entries, FillPattern::Zero);
    assert!(matches!(res, Err(ScalpelError::OverlapError)));
}

#[test]
fn random_fill_pins_everything_but_the_gap() {
    let target = vec![7u8; 64];
    let replacement = vec![9u8; 8];
    let out = splice(target, replacement, 8, 32, &FillPattern::Random).expect("Failed to splice");
    assert_eq!(out.len(), 64);
    assert!(out[0..8].iter().all(|&b| b == 7));
    assert!(out[8..16].iter().all(|&b| b == 9));
    assert!(out[40..64].iter().all(|&b| b == 7));
}

#[test]
fn splice_checks_the_replacement_size_first() {
    // both the replacement and the window are wrong; the size check wins
    let target = vec![1u8; 10];
    let replacement = vec![2u8; 30];
    assert_eq!(
        splice(target, replacement, 5, 20, &FillPattern::Zero),
        Err(ScalpelError::ReplaceError)
    );
}

#[test]
fn stance_beyond_the_end_leaves_the_buffer() {
    let mut in_bytes = AnnotatedBytes::new();
    in_bytes.bytes.resize(10, 3u8);
    let start = ByteOffset::new(11, Magnitude::Unit);
    let size = ByteOffset::new(1, Magnitude::Unit);
    assert_eq!(in_bytes.stance(start, size), Err(ScalpelError::RangeError));
    assert_eq!(in_bytes.bytes, vec![3u8; 10]);
}

#[test]
fn meta_info_from_file_extension() {
    assert_eq!(
        MetaInfo::from_file_extension("image.bin").unwrap(),
        MetaInfo::Bin
    );
    assert_eq!(
        MetaInfo::from_file_extension("tmp/image.hex").unwrap(),
        MetaInfo::IntelHex
    );
    assert_eq!(
        MetaInfo::from_file_extension("image.elf"),
        Err(ScalpelError::UnknownFileFormat)
    );
    assert_eq!(
        MetaInfo::from_file_extension("image"),
        Err(ScalpelError::UnknownFileFormat)
    );
}
