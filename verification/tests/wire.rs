use nak::keys::{key_from, random_key, socket_path};
use nak::recording::{color_coded, split_records, RecordError};
use nak::wire::{frame, frame_end, handshake, is_handshake, unframe, HANDSHAKE};

#[test]
fn handshake_is_the_fixed_line() {
    assert_eq!(&HANDSHAKE[..], b"nxQh6wsIiiFomXWE+7HQhQ==\n");
    assert_eq!(handshake(), b"nxQh6wsIiiFomXWE+7HQhQ==\n".to_vec());
    assert_eq!(handshake().len(), 25);
    assert!(is_handshake(b"nxQh6wsIiiFomXWE+7HQhQ==\n"));
    assert!(!is_handshake(b"nxQh6wsIiiFomXWE+7HQhQ=="));
    assert!(!is_handshake(b"nxQh6wsIiiFomXWE+7HQhq==\n"));
    assert!(!is_handshake(b"nxQh6wsIiiFomXWE+7HQhQ==\n\n"));
    assert!(!is_handshake(b""));
}

#[test]
fn frames() {
    assert_eq!(frame(b"{}".to_vec()), b"{}\n".to_vec());
    assert_eq!(unframe(b"{}\n"), Some(b"{}".to_vec()));
    assert_eq!(unframe(&frame(b"{\"remote_id\":0}".to_vec())), Some(b"{\"remote_id\":0}".to_vec()));
    assert_eq!(unframe(b"\n"), Some(vec![]));
    assert_eq!(unframe(b""), None);
    assert_eq!(unframe(b"{}"), None);
    assert_eq!(unframe(b"a\nb\n"), None);
}

#[test]
fn first_frame_of_a_buffer() {
    assert_eq!(frame_end(b"ab\ncd\n"), Some(3));
    assert_eq!(frame_end(b"\n"), Some(1));
    assert_eq!(frame_end(b"ab"), None);
    assert_eq!(frame_end(b""), None);
}

#[test]
fn keys_are_url_safe_base64() {
    assert_eq!(key_from(b"hello internet~"), "aGVsbG8gaW50ZXJuZXR-");
    assert_eq!(key_from(&[0u8; 16]), "AAAAAAAAAAAAAAAAAAAAAA==");
    assert_eq!(key_from(&[0xff, 0xef]), "_-8=");
    assert_eq!(key_from(b""), "");
}

#[test]
fn random_keys_are_twenty_four_characters() {
    let key = random_key();
    assert_eq!(key.len(), 24);
    assert!(key.ends_with("=="));
    assert!(key.bytes().all(|b| b.is_ascii_alphanumeric() || b == b'-' || b == b'_' || b == b'='));
}

#[test]
fn socket_path_holds_the_key() {
    assert_eq!(socket_path("abc"), "/tmp/nak-backend-abc");
    assert_eq!(socket_path(""), "/tmp/nak-backend-");
}

#[test]
fn records_are_length_then_bytes() {
    assert_eq!(split_records(&[]), Ok(vec![]));
    assert_eq!(split_records(&[2, 0, 0, 0, 7, 8]), Ok(vec![vec![7, 8]]));
    assert_eq!(
        split_records(&[1, 0, 0, 0, 9, 0, 0, 0, 0, 3, 0, 0, 0, 1, 2, 3]),
        Ok(vec![vec![9], vec![], vec![1, 2, 3]])
    );
}

#[test]
fn record_length_is_little_endian() {
    let mut data = vec![0x02, 0x01, 0, 0];
    data.extend(std::iter::repeat(5u8).take(258));
    let records = split_records(&data).unwrap();
    assert_eq!(records.len(), 1);
    assert_eq!(records[0].len(), 258);
}

#[test]
fn short_tail_is_passed_over_and_long_record_is_an_error() {
    assert_eq!(split_records(&[1, 0, 0, 0, 9, 1, 2]), Ok(vec![vec![9]]));
    assert_eq!(split_records(&[3, 0, 0, 0, 9]), Err(RecordError::Truncated));
    assert_eq!(split_records(&[0, 0, 0, 1]), Err(RecordError::Truncated));
}

#[test]
fn text_is_shown_as_it_is() {
    assert_eq!(color_coded(b""), Vec::<u8>::new());
    assert_eq!(color_coded(b"ls -l ~"), b"ls -l ~".to_vec());
    assert_eq!(color_coded(b" "), b" ".to_vec());
}

#[test]
fn other_bytes_are_shown_as_red_digits() {
    assert_eq!(color_coded(b"\x1b"), b"\x1b[38;5;1m1b\x1b[39m".to_vec());
    assert_eq!(
        color_coded(b"a\r\nb"),
        b"a\x1b[38;5;1m0d0a\x1b[39mb".to_vec()
    );
    assert_eq!(
        color_coded(&[0x1f, 0x20, 0x7e, 0x7f, 0xff, 0x00]),
        b"\x1b[38;5;1m1f\x1b[39m ~\x1b[38;5;1m7fff00\x1b[39m".to_vec()
    );
}

#[test]
fn the_marks_are_the_terminal_library_s() {
    let red = format!("{}", termion::color::Fg(termion::color::Red));
    let plain = format!("{}", termion::color::Fg(termion::color::Reset));
    let expected = format!("{}{:02x}{}", red, 0xabu8, plain);
    assert_eq!(color_coded(&[0xab]), expected.into_bytes());
}
