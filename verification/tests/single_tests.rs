use ppm_steg::single::{can_fit_message, get_hidden_message, get_start, hide_message, scan_start, ScanOutcome};

fn image(head: &str, pixels: usize) -> Vec<u8> {
    let mut v = head.as_bytes().to_vec();
    for i in 0..pixels {
        v.push((i * 29 % 256) as u8);
    }
    v
}

#[test]
fn scans_the_header() {
    assert_eq!(scan_start(&image("P6\n3 2\n255\n", 18)), ScanOutcome::Start(11));
    assert_eq!(scan_start(&image("P3 10 20 255 ", 0)), ScanOutcome::Start(13));
    assert_eq!(scan_start(&image("Q", 0)), ScanOutcome::Invalid);
    assert_eq!(scan_start(&image("P5\n3 2\n255\n", 4)), ScanOutcome::Invalid);
    assert_eq!(scan_start(&image("P6 3\t2 255\n", 4)), ScanOutcome::Invalid);
    assert_eq!(scan_start(&image("P6 3 2 25x\n", 4)), ScanOutcome::Invalid);
}

#[test]
fn scans_that_run_out() {
    assert_eq!(scan_start(&Vec::new()), ScanOutcome::OutOfBounds);
    assert_eq!(scan_start(&image("P", 0)), ScanOutcome::OutOfBounds);
    assert_eq!(scan_start(&image("P6", 0)), ScanOutcome::OutOfBounds);
    assert_eq!(scan_start(&image("P6 3 2 255", 0)), ScanOutcome::OutOfBounds);
}

#[test]
fn get_start_sets_the_start_only_on_success() {
    let mut start = 99;
    assert!(get_start(&image("P6\n3 2\n255\n", 18), &mut start));
    assert_eq!(start, 11);
    let mut start2 = 99;
    assert!(!get_start(&image("P6\n3x 2\n255\n", 18), &mut start2));
    assert_eq!(start2, 99);
}

#[test]
fn reads_a_terminated_message_only() {
    let mut data = Vec::new();
    for &c in b"ok\0" {
        for b in 0..8 {
            data.push(0x10 | ((c >> (7 - b)) & 1));
        }
    }
    assert_eq!(get_hidden_message(&data), Some(b"ok".to_vec()));
    assert_eq!(get_hidden_message(&data[..16]), None);
    assert_eq!(get_hidden_message(&data[16..]), Some(Vec::new()));
}

#[test]
fn room_for_a_message() {
    let data = image("P6 1 1 255\n", 16);
    assert!(can_fit_message(&data, &String::from("a")));
    assert!(!can_fit_message(&data, &String::from("ab")));
    assert!(can_fit_message(&data, &String::new()));
    // the room counts bytes, not characters
    let wide = image("P6 1 1 255\n", 24);
    assert!(can_fit_message(&wide, &String::from("ab")));
    assert!(can_fit_message(&wide, &String::from("é")));
    assert!(!can_fit_message(&wide, &String::from("aé")));
}

#[test]
fn hide_then_read() {
    let mut data = image("P6\n4 4\n255\n", 48);
    let before = data.clone();
    hide_message(&mut data, b"abc");
    assert_eq!(&data[..11], &before[..11]);
    let mut start = 0;
    assert!(get_start(&data, &mut start));
    assert_eq!(start, 11);
    assert_eq!(get_hidden_message(&data[start..]), Some(b"abc".to_vec()));
}
