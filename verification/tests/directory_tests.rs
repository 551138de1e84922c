use ppm_steg::decode::{assemble_message, decode_file};
use ppm_steg::header::get_header;
use ppm_steg::names::output_file_name;
use ppm_steg::plan::{covers, encode_directory, encode_piece, plan_encoding};

fn image(width: usize, height: usize, seed: u8) -> Vec<u8> {
    let mut v = format!("P6\n{} {}\n255\n", width, height).into_bytes();
    for i in 0..width * height * 3 {
        v.push((i as u8).wrapping_mul(17).wrapping_add(seed));
    }
    v
}

#[test]
fn names_are_padded_numbers() {
    assert_eq!(output_file_name(0), String::from("00000000.ppm"));
    assert_eq!(output_file_name(7), String::from("00000007.ppm"));
    assert_eq!(output_file_name(1234), String::from("00001234.ppm"));
    assert_eq!(output_file_name(99999999), String::from("99999999.ppm"));
    assert_eq!(output_file_name(123456789), String::from("123456789.ppm"));
    for k in [0usize, 5, 42, 1000, 31337] {
        assert_eq!(output_file_name(k), format!("{:0>8}.ppm", k.to_string()));
    }
}

#[test]
fn names_sort_in_number_order() {
    let mut names: Vec<String> = (0..120).map(|k| format!("out/{}", output_file_name(k))).collect();
    let ordered = names.clone();
    names.reverse();
    names.sort();
    assert_eq!(names, ordered);
}

#[test]
fn images_that_carry_the_message_cover_it() {
    let a = image(8, 4, 1);
    let b = image(8, 4, 2);
    // 8 x 4 pixels carry 3 message bytes
    assert!(covers(3, &vec![a.clone()]));
    assert!(!covers(4, &vec![a.clone()]));
    assert!(covers(6, &vec![a.clone(), b"junk".to_vec(), b.clone()]));
    assert!(!covers(7, &vec![a.clone(), b.clone()]));
    assert!(!covers(3, &vec![b"junk".to_vec()]));
    assert!(!covers(3, &vec![Vec::new(), a.clone()]));
    assert!(covers(0, &Vec::new()));
}

#[test]
fn encoding_one_piece() {
    let images = vec![image(8, 4, 1), image(8, 4, 2)];
    let message = b"abcdefgh".to_vec();
    let plan = plan_encoding(message.len(), &images).unwrap();
    let all = encode_directory(&message, &images);
    for (c, chunk) in plan.iter().enumerate() {
        assert_eq!(encode_piece(&message, &images, *chunk), all[c]);
    }
}

#[test]
fn decoding_the_written_directory_gives_the_message() {
    let message = b"The quick brown fox jumps over the lazy dog.".to_vec();
    let images = vec![image(8, 8, 1), b"junk".to_vec(), image(16, 4, 2), image(8, 4, 3)];
    let outputs = encode_directory(&message, &images);
    assert!(outputs.len() > 3);
    // files as the directory lists them, in any order, read without their last byte
    let mut entries = Vec::new();
    for (k, out) in outputs.iter().enumerate().rev() {
        let stored = out[..out.len() - 1].to_vec();
        let header = get_header(&stored).ok().unwrap();
        let text = decode_file(&header, &stored).unwrap();
        entries.push((format!("out/{}", output_file_name(k)), text));
    }
    assert_eq!(assemble_message(entries), String::from_utf8(message).unwrap());
}
