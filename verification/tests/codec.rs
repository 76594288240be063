use kvs::codec::{command_from_fields, confirms, decode, encode, seal, TAG_PUT, TAG_RM};
use kvs::framing::{escape, unescape, ESCAPE, ESCAPED_SEPARATOR, SEPARATOR};
use kvs::KvsCommand;

fn put(key: &str, value: &str) -> KvsCommand {
    KvsCommand::Put { key: key.to_owned(), value: value.to_owned() }
}

fn rm(key: &str) -> KvsCommand {
    KvsCommand::Rm { key: key.to_owned() }
}

#[test]
fn escape_leaves_plain_bytes() {
    assert_eq!(escape(b"abc"), b"abc".to_vec());
    assert_eq!(escape(b""), Vec::<u8>::new());
}

#[test]
fn escape_replaces_separator_and_escape_byte() {
    assert_eq!(escape(&[SEPARATOR]), vec![ESCAPE, ESCAPED_SEPARATOR]);
    assert_eq!(escape(&[ESCAPE]), vec![ESCAPE, ESCAPE]);
    assert_eq!(escape(&[1, 0x0A, 2, 0x5C, 3]), vec![1, 0x5C, 0x6E, 2, 0x5C, 0x5C, 3]);
}

#[test]
fn escaped_frame_holds_no_separator() {
    let payload: Vec<u8> = (0..=255u8).collect();
    let frame = escape(&payload);
    assert!(!frame.contains(&SEPARATOR));
    assert_eq!(frame.len(), 258);
}

#[test]
fn unescape_inverts_escape() {
    let payload: Vec<u8> = (0..=255u8).chain([0x0A, 0x0A, 0x5C, 0x5C, 0x6E]).collect();
    assert_eq!(unescape(&escape(&payload)), Some(payload));
    assert_eq!(unescape(b""), Some(Vec::new()));
    assert_eq!(unescape(&[0x5C, 0x6E]), Some(vec![0x0A]));
    assert_eq!(unescape(&[0x5C, 0x5C]), Some(vec![0x5C]));
}

#[test]
fn unescape_refuses_what_is_no_frame() {
    assert_eq!(unescape(&[0x0A]), None);
    assert_eq!(unescape(&[1, 2, 0x0A, 3]), None);
    assert_eq!(unescape(&[0x5C]), None);
    assert_eq!(unescape(&[1, 0x5C]), None);
    assert_eq!(unescape(&[0x5C, 0x41]), None);
    assert_eq!(unescape(&[0x5C, 0x0A]), None);
}

#[test]
fn confirms_compares_the_fields_with_the_command() {
    let triple = |t: u8, k: &str, v: &str| Some((t, k.to_owned(), v.to_owned()));
    assert!(confirms(&put("k", "v"), &triple(TAG_PUT, "k", "v")));
    assert!(confirms(&put("", ""), &triple(TAG_PUT, "", "")));
    assert!(confirms(&rm("k"), &triple(TAG_RM, "k", "")));
    assert!(!confirms(&put("k", "v"), &None));
    assert!(!confirms(&rm("k"), &None));
    assert!(!confirms(&put("k", "v"), &triple(TAG_RM, "k", "v")));
    assert!(!confirms(&put("k", "v"), &triple(TAG_PUT, "k", "w")));
    assert!(!confirms(&put("k", "v"), &triple(TAG_PUT, "j", "v")));
    assert!(!confirms(&put("k", ""), &triple(TAG_RM, "k", "")));
    assert!(!confirms(&rm("k"), &triple(TAG_PUT, "k", "")));
    assert!(!confirms(&rm("k"), &triple(TAG_RM, "k", "v")));
    assert!(!confirms(&rm("k"), &triple(TAG_RM, "j", "")));
    assert!(!confirms(&rm("k"), &triple(2, "k", "")));
}

#[test]
fn seal_hands_out_a_frame_only_for_confirmed_bytes() {
    let triple = |t: u8, k: &str, v: &str| Some((t, k.to_owned(), v.to_owned()));
    let bytes = vec![1, 0x0A, 2, 0x5C];
    let frame = vec![1, 0x5C, 0x6E, 2, 0x5C, 0x5C];
    assert_eq!(seal(&put("k", "v"), bytes.clone(), triple(TAG_PUT, "k", "v")), Some(frame));
    assert_eq!(seal(&rm("k"), Vec::new(), triple(TAG_RM, "k", "")), Some(Vec::new()));
    assert_eq!(seal(&put("k", "v"), bytes.clone(), triple(TAG_PUT, "k", "w")), None);
    assert_eq!(seal(&put("k", "v"), bytes.clone(), triple(TAG_RM, "k", "v")), None);
    assert_eq!(seal(&rm("k"), bytes.clone(), triple(TAG_RM, "k", "v")), None);
    assert_eq!(seal(&put("k", "v"), bytes.clone(), None), None);
}

#[test]
fn encode_succeeds_on_every_kind_of_text() {
    let long = "x".repeat(70_000);
    let cases = vec![
        put("", ""),
        put("k", &long),
        put(&long, "v"),
        put("\n\r\t\\", "\u{0}\u{7f}"),
        put("\u{10ffff}", "\u{1f600}"),
        rm(""),
        rm(&long),
    ];
    for cmd in cases {
        let frame = encode(&cmd);
        assert!(frame.is_some());
        assert_eq!(decode(&frame.unwrap()), Some(cmd));
    }
}

#[test]
fn command_from_fields_reads_the_tag() {
    assert_eq!(command_from_fields(TAG_PUT, "k".to_owned(), "v".to_owned()), Some(put("k", "v")));
    assert_eq!(command_from_fields(TAG_PUT, "k".to_owned(), String::new()), Some(put("k", "")));
    assert_eq!(command_from_fields(TAG_RM, "k".to_owned(), String::new()), Some(rm("k")));
    assert_eq!(command_from_fields(TAG_RM, "k".to_owned(), "v".to_owned()), None);
    assert_eq!(command_from_fields(2, "k".to_owned(), String::new()), None);
    assert_eq!(command_from_fields(255, "k".to_owned(), "v".to_owned()), None);
}

#[test]
fn encode_packs_a_put_as_message_pack() {
    let frame = encode(&put("a", "b")).unwrap();
    assert_eq!(frame, vec![0x93, 0x00, 0xA1, b'a', 0xA1, b'b']);
}

#[test]
fn encode_packs_a_removal_with_an_empty_value() {
    let frame = encode(&rm("key1")).unwrap();
    assert_eq!(frame, vec![0x93, 0x01, 0xA4, b'k', b'e', b'y', b'1', 0xA0]);
}

#[test]
fn encode_escapes_a_newline_in_the_value() {
    let frame = encode(&put("k", "a\nb")).unwrap();
    assert_eq!(frame, vec![0x93, 0x00, 0xA1, b'k', 0xA3, b'a', 0x5C, 0x6E, b'b']);
    assert!(!frame.contains(&SEPARATOR));
}

#[test]
fn encode_escapes_a_length_header_that_holds_the_separator() {
    let value = "x".repeat(0x0A00);
    let frame = encode(&put("k", &value)).unwrap();
    assert!(!frame.contains(&SEPARATOR));
    assert_eq!(&frame[..8], &[0x93, 0x00, 0xA1, b'k', 0xDA, 0x5C, 0x6E, 0x00]);
    assert_eq!(decode(&frame), Some(put("k", &value)));
}

#[test]
fn decode_inverts_encode() {
    let cases = vec![
        put("key1", "value1"),
        put("", ""),
        put("k", "line one\nline two\\n"),
        put("\n", "\\"),
        put("schl\u{fc}ssel", "\u{1f511} wert"),
        rm("key1"),
        rm(""),
        rm("a\nb"),
    ];
    for cmd in cases {
        let frame = encode(&cmd).unwrap();
        assert!(!frame.contains(&SEPARATOR));
        assert_eq!(decode(&frame), Some(cmd));
    }
}

#[test]
fn decode_refuses_bytes_that_are_no_record() {
    assert_eq!(decode(b""), None);
    assert_eq!(decode(b"garbage"), None);
    assert_eq!(decode(&[0x93, 0x00, 0xA1, b'a']), None);
    assert_eq!(decode(&[0x93, 0x02, 0xA1, b'a', 0xA1, b'b']), None);
    assert_eq!(decode(&[0x93, 0x01, 0xA1, b'a', 0xA1, b'b']), None);
    assert_eq!(decode(&[0x93, 0x00, 0xA1, 0x0A, 0xA1, b'b']), None);
    assert_eq!(decode(&[0x93, 0x00, 0xA1, 0xFF, 0xA1, b'b']), None);
}

#[test]
fn decode_reads_a_hand_packed_record() {
    assert_eq!(decode(&[0x93, 0x00, 0xA1, b'a', 0xA1, b'b']), Some(put("a", "b")));
    assert_eq!(decode(&[0x93, 0x01, 0xA1, b'a', 0xA0]), Some(rm("a")));
    assert_eq!(decode(&[0x93, 0x00, 0xA1, 0x5C, 0x6E, 0xA0]), Some(put("\n", "")));
}
