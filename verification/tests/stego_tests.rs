use ppm_steg::header::PPMHeader;
use ppm_steg::stego::{encode, get_hidden_message, hide_at, is_one, scan_hidden};

/// The carrier bytes of `bytes`, one bit each, most significant first.
fn carrier(bytes: &[u8]) -> Vec<u8> {
    let mut v = Vec::new();
    for &c in bytes {
        for b in 0..8 {
            v.push((c >> (7 - b)) & 1);
        }
    }
    v
}

#[test]
fn is_one_counts_from_the_top_bit() {
    assert!(is_one(0b1000_0000, 0));
    assert!(!is_one(0b1000_0000, 7));
    assert!(is_one(0b0000_0001, 7));
    assert!(is_one(b'A', 1));
    assert!(!is_one(b'A', 0));
    assert!(is_one(b'A', 7));
    assert!(!is_one(0, 3));
    assert!(is_one(0xff, 4));
}

#[test]
fn reads_a_message_ended_by_zero() {
    let mut data = carrier(b"Hi\0");
    data.extend_from_slice(&[1, 1, 1]);
    let mut ansr = vec![9];
    get_hidden_message(&data, &mut ansr);
    assert_eq!(ansr, vec![9, b'H', b'i']);
}

#[test]
fn only_the_lowest_bit_counts() {
    let data: Vec<u8> = carrier(b"Z\0").iter().map(|b| b | 0b1010_1110).collect();
    let mut ansr = Vec::new();
    get_hidden_message(&data, &mut ansr);
    assert_eq!(ansr, b"Z".to_vec());
}

#[test]
fn no_terminator_clears_the_answer() {
    let data = carrier(b"abc");
    let mut ansr = vec![7, 8];
    get_hidden_message(&data, &mut ansr);
    assert_eq!(ansr, Vec::<u8>::new());
}

#[test]
fn a_partial_byte_is_not_read() {
    // seven zero bits do not make a zero byte
    let mut data = carrier(b"ok");
    data.extend_from_slice(&[0, 0, 0, 0, 0, 0, 0]);
    let mut ansr = vec![1];
    get_hidden_message(&data, &mut ansr);
    assert!(ansr.is_empty());
}

#[test]
fn an_empty_message() {
    let data = carrier(b"\0rest");
    let mut ansr = Vec::new();
    get_hidden_message(&data, &mut ansr);
    assert!(ansr.is_empty());
    let mut seen = Vec::new();
    assert!(scan_hidden(&data, &mut seen));
    assert!(seen.is_empty());
    let mut none = Vec::new();
    assert!(!scan_hidden(&carrier(b"ab"), &mut none));
    assert_eq!(none, b"ab".to_vec());
}

#[test]
fn hiding_sets_the_lowest_bits() {
    let mut data = vec![0xAAu8; 20];
    hide_at(b"A", &mut data, 2);
    let mut expected = vec![0xAAu8; 20];
    expected[3] = 0xAB;
    expected[9] = 0xAB;
    assert_eq!(data, expected);

    let mut ones = vec![0xFFu8; 16];
    hide_at(b"A", &mut ones, 0);
    assert_eq!(ones, vec![0xFE, 0xFF, 0xFE, 0xFE, 0xFE, 0xFE, 0xFE, 0xFF, 0xFE, 0xFE, 0xFE, 0xFE, 0xFE, 0xFE, 0xFE, 0xFE]);
}

#[test]
fn encode_then_read_back() {
    let mut data: Vec<u8> = (0..100u32).map(|i| (i * 73 % 256) as u8).collect();
    let before = data.clone();
    let header = PPMHeader { width: 4, height: 3, offset: 11 };
    encode(b"secret", &mut data, &header);
    assert_eq!(data.len(), before.len());
    assert_eq!(&data[..11], &before[..11]);
    assert_eq!(&data[11 + 56..], &before[11 + 56..]);
    for i in 0..data.len() {
        assert_eq!(data[i] & 0xFE, before[i] & 0xFE);
    }
    let mut ansr = Vec::new();
    get_hidden_message(&data[11..], &mut ansr);
    assert_eq!(ansr, b"secret".to_vec());
}
