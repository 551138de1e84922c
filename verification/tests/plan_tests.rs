use ppm_steg::header::get_header;
use ppm_steg::plan::{encode_directory, has_room, plan_encoding, repeat_bytes, Chunk};
use ppm_steg::stego::get_hidden_message;

fn image(width: usize, height: usize, seed: u8) -> Vec<u8> {
    let mut v = format!("P6\n{} {}\n255\n", width, height).into_bytes();
    for i in 0..width * height * 3 {
        v.push((i as u8).wrapping_mul(31).wrapping_add(seed));
    }
    v
}

fn read_back(img: &Vec<u8>) -> Vec<u8> {
    let header = get_header(img).ok().unwrap();
    let mut out = Vec::new();
    get_hidden_message(&img[header.offset..], &mut out);
    out
}

fn chunk(image: usize, start: usize, end: usize, copies: usize) -> Chunk {
    Chunk { image, start, end, copies }
}

#[test]
fn pieces_follow_the_images_then_repeat_the_last() {
    // 8 x 4 pixels carry 4 bytes: 3 of the message and the terminator
    let images = vec![image(8, 4, 1), b"junk".to_vec(), image(8, 4, 2)];
    let plan = plan_encoding(10, &images).unwrap();
    assert_eq!(
        plan,
        vec![chunk(0, 0, 3, 1), chunk(2, 3, 6, 1), chunk(2, 6, 9, 1), chunk(2, 9, 10, 2)]
    );
}

#[test]
fn the_plan_stops_when_the_message_is_used_up() {
    let images = vec![image(8, 8, 1), image(8, 4, 2), b"P9".to_vec()];
    // 8 x 8 pixels carry 7 message bytes
    assert_eq!(plan_encoding(5, &images).unwrap(), vec![chunk(0, 0, 5, 1)]);
    assert_eq!(plan_encoding(7, &images).unwrap(), vec![chunk(0, 0, 7, 1)]);
    assert_eq!(plan_encoding(8, &images).unwrap(), vec![chunk(0, 0, 7, 1), chunk(1, 7, 8, 1)]);
}

#[test]
fn an_empty_message_needs_no_image() {
    let images: Vec<Vec<u8>> = vec![b"".to_vec()];
    assert_eq!(plan_encoding(0, &images).unwrap(), Vec::<Chunk>::new());
    assert!(encode_directory(&Vec::new(), &images).is_empty());
}

#[test]
fn plans_that_do_not_go_through() {
    // no valid image
    assert!(plan_encoding(3, &vec![b"junk".to_vec()]).is_none());
    assert!(plan_encoding(3, &Vec::new()).is_none());
    // an image read before the message ends has an unreadable header
    assert!(plan_encoding(3, &vec![Vec::new()]).is_none());
    // an image that holds only the terminator cannot be used again
    assert!(plan_encoding(3, &vec![image(8, 1, 0)]).is_none());
    // an image with too few pixels for the terminator
    assert!(plan_encoding(3, &vec![image(2, 3, 0), image(8, 4, 0)]).is_none());
    // a header that promises more pixels than there are bytes
    let mut short = b"P6\n80 80\n255\n".to_vec();
    short.extend_from_slice(&[0; 10]);
    assert!(plan_encoding(3, &vec![short]).is_none());
}

#[test]
fn an_image_with_one_byte_of_room_carries_an_empty_piece() {
    let images = vec![image(8, 1, 0), image(8, 4, 0)];
    assert_eq!(plan_encoding(2, &images).unwrap(), vec![chunk(0, 0, 0, 1), chunk(1, 0, 2, 1)]);
    let out = encode_directory(&b"hi".to_vec(), &images);
    assert_eq!(read_back(&out[0]), Vec::<u8>::new());
    assert_eq!(read_back(&out[1]), b"hi".to_vec());
}

#[test]
fn encode_directory_then_read_back() {
    let message = b"HELLO, WORLD".to_vec();
    let images = vec![image(8, 4, 1), b"junk".to_vec(), image(8, 8, 2)];
    let out = encode_directory(&message, &images);
    assert_eq!(out.len(), 3);
    let mut all = Vec::new();
    for (c, img) in out.iter().enumerate() {
        let src = if c == 0 { &images[0] } else { &images[2] };
        assert_eq!(img.len(), src.len());
        assert_eq!(get_header(img), get_header(src));
        all.extend(read_back(img));
    }
    assert_eq!(read_back(&out[0]), b"HEL".to_vec());
    assert_eq!(read_back(&out[1]), b"LO, WOR".to_vec());
    assert_eq!(read_back(&out[2]), b"LD".to_vec());
    assert_eq!(all, message);
}

#[test]
fn room_for_a_piece() {
    assert!(has_room(16, 1, 0));
    assert!(!has_room(15, 1, 0));
    assert!(has_room(27, 1, 11));
    assert!(!has_room(26, 1, 11));
    assert!(!has_room(usize::MAX, usize::MAX, 0));
    assert!(!has_room(usize::MAX, 0, usize::MAX));
}

#[test]
fn each_reuse_of_the_last_image_adds_a_copy_of_it() {
    let images = vec![image(8, 4, 1), b"junk".to_vec(), image(8, 4, 2)];
    let message = b"0123456789".to_vec();
    let out = encode_directory(&message, &images);
    assert_eq!(out.len(), 4);
    let b = &images[2];
    assert_eq!(out[2].len(), b.len());
    assert_eq!(out[3].len(), 2 * b.len());
    // the second copy is untouched; the first hides the piece
    assert_eq!(&out[3][b.len()..], &b[..]);
    for i in 0..b.len() {
        assert_eq!(out[3][i] & 0xFE, b[i] & 0xFE);
    }
    assert_eq!(read_back(&out[2]), b"678".to_vec());
    assert_eq!(read_back(&out[3]), b"9".to_vec());
}

#[test]
fn repeats_bytes() {
    assert_eq!(repeat_bytes(&[1, 2], 3), vec![1, 2, 1, 2, 1, 2]);
    assert_eq!(repeat_bytes(&[1, 2], 0), Vec::<u8>::new());
    assert_eq!(repeat_bytes(&[], 5), Vec::<u8>::new());
}
