use ppm_steg::header::{get_header, header_is_admissible, is_ascii_whitespace, PPMHeader, PPMerr};

fn image(head: &str, pixels: usize) -> Vec<u8> {
    let mut v = head.as_bytes().to_vec();
    for i in 0..pixels {
        v.push((i * 37 % 251) as u8);
    }
    v
}

#[test]
fn reads_p6_header() {
    let data = image("P6\n3 2\n255\n", 18);
    assert_eq!(get_header(&data), Ok(PPMHeader { width: 3, height: 2, offset: 11 }));
}

#[test]
fn reads_p3_header_ending_the_input() {
    let data = image("P3 10 20 255 ", 0);
    assert_eq!(get_header(&data), Ok(PPMHeader { width: 10, height: 20, offset: 13 }));
}

#[test]
fn any_ascii_whitespace_ends_a_field() {
    let data = image("P6\t3\r2\x0c255\t", 4);
    assert_eq!(get_header(&data), Ok(PPMHeader { width: 3, height: 2, offset: 11 }));
}

#[test]
fn the_byte_after_the_magic_number_is_not_read() {
    let data = image("P6x12 7 1\n", 4);
    assert_eq!(get_header(&data), Ok(PPMHeader { width: 12, height: 7, offset: 10 }));
}

#[test]
fn refuses_bad_magic_numbers() {
    assert_eq!(get_header(&image("X6\n3 2\n255\n", 4)), Err(PPMerr::InvalidHeader));
    assert_eq!(get_header(&image("P5\n3 2\n255\n", 4)), Err(PPMerr::InvalidHeader));
    assert_eq!(get_header(&image("Q", 0)), Err(PPMerr::InvalidHeader));
}

#[test]
fn refuses_truncated_headers() {
    assert_eq!(get_header(&image("P6", 0)), Err(PPMerr::InvalidHeader));
    assert_eq!(get_header(&image("P6 12", 0)), Err(PPMerr::InvalidHeader));
    assert_eq!(get_header(&image("P6 12 ", 0)), Err(PPMerr::InvalidHeader));
    assert_eq!(get_header(&image("P6 12 3 255", 0)), Err(PPMerr::InvalidHeader));
}

#[test]
fn refuses_non_digits_in_fields() {
    assert_eq!(get_header(&image("P6 1x 2 255\n", 4)), Err(PPMerr::InvalidHeader));
    assert_eq!(get_header(&image("P6 1 -2 255\n", 4)), Err(PPMerr::InvalidHeader));
    assert_eq!(get_header(&image("P6 1 2 25a\n", 4)), Err(PPMerr::InvalidHeader));
}

#[test]
fn empty_fields_read_as_zero() {
    assert_eq!(get_header(&image("P6   255\n", 4)), Ok(PPMHeader { width: 0, height: 0, offset: 9 }));
}

#[test]
fn admissible_headers() {
    assert!(!header_is_admissible(&Vec::new()));
    assert!(!header_is_admissible(&b"P".to_vec()));
    assert!(header_is_admissible(&b"Q".to_vec()));
    assert!(header_is_admissible(&b"P6".to_vec()));
    assert!(header_is_admissible(&image("P6\n3 2\n255\n", 18)));
    assert!(!header_is_admissible(&image("P6 99999999999999999999999 1 255\n", 4)));
    assert!(!header_is_admissible(&image("P6 1 99999999999999999999999 255\n", 4)));
    // the maximal colour value is never accumulated
    assert!(header_is_admissible(&image("P6 1 1 99999999999999999999999\n", 4)));
    // the width overflows before its bad byte is reached
    assert!(!header_is_admissible(&image("P6 99999999999999999999999x 1 255\n", 4)));
    assert!(header_is_admissible(&image("P5 99999999999999999999999 1 255\n", 4)));
}

#[test]
fn ascii_whitespace() {
    for b in [b' ', b'\t', b'\n', 0x0c, b'\r'] {
        assert!(is_ascii_whitespace(b));
    }
    for b in [0x0b, b'0', b'a', 0x00, 0xa0] {
        assert!(!is_ascii_whitespace(b));
    }
}
