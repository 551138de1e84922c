use ppm_steg::decode::{assemble_message, concat_texts, decode_file, sort_by_name};
use ppm_steg::header::{get_header, PPMHeader};
use ppm_steg::stego::encode;

fn image(width: usize, height: usize) -> Vec<u8> {
    let mut v = format!("P6\n{} {}\n255\n", width, height).into_bytes();
    for i in 0..width * height * 3 {
        v.push((i as u8).wrapping_mul(13));
    }
    v
}

fn with_message(message: &[u8]) -> Vec<u8> {
    let mut img = image(16, 16);
    let header = get_header(&img).ok().unwrap();
    encode(message, &mut img, &header);
    img
}

fn pair(a: &str, b: &str) -> (String, String) {
    (String::from(a), String::from(b))
}

#[test]
fn decodes_the_text_of_an_image() {
    let img = with_message("grüße".as_bytes());
    let header = get_header(&img).ok().unwrap();
    assert_eq!(decode_file(&header, &img), Some(String::from("grüße")));
}

#[test]
fn hidden_bytes_that_are_not_utf8() {
    let img = with_message(&[0x66, 0xff, 0x66]);
    let header = get_header(&img).ok().unwrap();
    assert_eq!(decode_file(&header, &img), None);
}

#[test]
fn an_image_without_a_message_gives_the_empty_text() {
    let data = vec![0xFFu8; 64];
    let header = PPMHeader { width: 4, height: 4, offset: 0 };
    assert_eq!(decode_file(&header, &data), Some(String::new()));
    let header_at_end = PPMHeader { width: 4, height: 4, offset: 64 };
    assert_eq!(decode_file(&header_at_end, &data), Some(String::new()));
}

#[test]
fn sorts_entries_by_name() {
    let sorted = sort_by_name(vec![pair("b.ppm", "2"), pair("a.ppm", "1"), pair("ab", "x"), pair("B", "0")]);
    let names: Vec<&str> = sorted.iter().map(|e| e.0.as_str()).collect();
    assert_eq!(names, vec!["B", "a.ppm", "ab", "b.ppm"]);
    assert!(sort_by_name(Vec::new()).is_empty());
}

#[test]
fn concatenates_texts_in_order() {
    assert_eq!(concat_texts(&vec![pair("z", "x"), pair("a", "yz")]), String::from("xyz"));
    assert_eq!(concat_texts(&Vec::new()), String::new());
}

#[test]
fn assembles_the_message_in_the_order_of_the_names() {
    let entries = vec![
        pair("out/00000002.ppm", "!"),
        pair("out/00000000.ppm", "Hello, "),
        pair("out/00000001.ppm", "world"),
    ];
    assert_eq!(assemble_message(entries), String::from("Hello, world!"));
}

#[test]
fn the_order_of_the_entries_does_not_matter() {
    let one = assemble_message(vec![pair("c", "3"), pair("a", "1"), pair("b", "2")]);
    let two = assemble_message(vec![pair("b", "2"), pair("c", "3"), pair("a", "1")]);
    assert_eq!(one, String::from("123"));
    assert_eq!(one, two);
}
