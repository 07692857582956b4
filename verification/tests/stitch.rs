use scalpel::concat::derive_output_filename;
use scalpel::errors::ScalpelError;
use scalpel::ops::FillPattern;
use scalpel::stitch::{check_file_format, sort_vec_by_offset, stitch, FileFormat};

#[test]
fn test_ext_hex() {
    let ext = check_file_format("tmp/test.hex").expect("Failed to check file format");
    assert_eq!(ext, FileFormat::Hex);
}

#[test]
fn test_ext_bin() {
    let ext = check_file_format("tmp/signme.bin").expect("Failed to check file format");
    assert_eq!(ext, FileFormat::Bin);
}

#[test]
fn test_no_ext() {
    let ext = check_file_format("tmp/test_bytes").expect("Failed to check file format");
    assert_eq!(ext, FileFormat::NoEnd);
}

#[test]
fn unknown_extension_is_an_error() {
    assert_eq!(
        check_file_format("tmp/image.txt"),
        Err(ScalpelError::UnknownFileFormat)
    );
    assert_eq!(check_file_format("tmp/test.elf"), Ok(FileFormat::Elf));
    // a leading dot alone does not make an extension
    assert_eq!(check_file_format("tmp/.hex"), Ok(FileFormat::NoEnd));
}

#[test]
fn stitch_pads_and_appends() {
    let bytes = vec![1u8; 4];
    let new = vec![2u8; 3];
    let out = stitch(bytes, new, 8, &FillPattern::One).expect("Failed to stitch");
    assert_eq!(out, vec![1u8, 1, 1, 1, 0xFF, 0xFF, 0xFF, 0xFF, 2, 2, 2]);
}

#[test]
fn stitch_zero_fill() {
    let bytes = vec![];
    let new = vec![9u8; 2];
    let out = stitch(bytes, new, 3, &FillPattern::Zero).expect("Failed to stitch");
    assert_eq!(out, vec![0u8, 0, 0, 9, 9]);
}

#[test]
fn stitch_overlapping_offset_is_refused() {
    let bytes = vec![1u8; 10];
    let new = vec![2u8; 3];
    assert_eq!(
        stitch(bytes, new, 9, &FillPattern::Zero),
        Err(ScalpelError::OverlapError)
    );
}

#[test]
fn stitch_random_fill_keeps_the_ends() {
    let bytes = vec![5u8; 4];
    let new = vec![6u8; 4];
    let out = stitch(bytes, new, 20, &FillPattern::Random).expect("Failed to stitch");
    assert_eq!(out.len(), 24);
    assert!(out[0..4].iter().all(|&b| b == 5));
    assert!(out[20..24].iter().all(|&b| b == 6));
}

#[test]
fn sort_keeps_values_beside_their_offsets() {
    let values = vec!["c", "a", "b"];
    let offsets = vec![30usize, 10, 20];
    let (values, offsets) =
        sort_vec_by_offset(values, offsets).expect("Failed to sort");
    assert_eq!(offsets, vec![10usize, 20, 30]);
    assert_eq!(values, vec!["a", "b", "c"]);
}

#[test]
fn sort_of_unequal_lengths_is_refused() {
    let values = vec![1u32, 2];
    let offsets = vec![5usize];
    assert_eq!(
        sort_vec_by_offset(values, offsets),
        Err(ScalpelError::ArgumentError)
    );
}

#[test]
fn output_filename_with_extension() {
    assert_eq!(derive_output_filename("image.bin"), "image-signed.bin");
    assert_eq!(derive_output_filename("a.b.c"), "a.b-signed.c");
}

#[test]
fn output_filename_without_extension() {
    assert_eq!(derive_output_filename("tmp/test_bytes"), "tmp/test_bytes-signed");
}
