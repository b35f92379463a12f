use symspell::suggest_item::{encode_suggestions, Encode, SuggestItem};
use symspell::utils::{is_alpha_numeric, to_char_code};

#[test]
fn to_char_code_test() {
    let char_code = to_char_code("踰");
    assert_eq!(char_code, 0x8e30)
}

#[test]
fn char_codes_of_other_widths() {
    assert_eq!(to_char_code("a"), 0x61);
    assert_eq!(to_char_code("é"), 0xe9);
    assert_eq!(to_char_code("🚀"), 0x1f680);
    assert_eq!(to_char_code("ab"), 0);
}

#[test]
fn word_characters() {
    assert!(is_alpha_numeric("a"));
    assert!(is_alpha_numeric("_"));
    assert!(is_alpha_numeric("é"));
    assert!(!is_alpha_numeric(" "));
    assert!(!is_alpha_numeric("-"));
    assert!(!is_alpha_numeric("7"));
}

#[test]
fn encode_test() {
    let si = SuggestItem::new("test".into(), 1, 2);
    let encoded = si.encode();
    assert_eq!(encoded[0], 2); // count
    assert_eq!(encoded[4], 1); // distance
    assert_eq!(encoded[8], 4); // term.len()
    let term = std::str::from_utf8(&encoded[9..]).unwrap();
    assert_eq!(term, "test")
}

#[test]
fn encode_list_frames_each_record() {
    let items = vec![SuggestItem::new("ab".into(), 1, 300), SuggestItem::new("é".into(), 0, 5)];
    let bytes = encode_suggestions(&items);
    assert_eq!(&bytes[0..4], &[2, 0, 0, 0]);
    assert_eq!(&bytes[4..8], &[11, 0, 0, 0]);
    assert_eq!(&bytes[8..12], &[44, 1, 0, 0]);
    assert_eq!(&bytes[12..16], &[1, 0, 0, 0]);
    assert_eq!(bytes[16], 2);
    assert_eq!(&bytes[17..19], b"ab");
    assert_eq!(&bytes[19..23], &[11, 0, 0, 0]);
    assert_eq!(bytes[31], 2);
    assert_eq!(&bytes[32..34], "é".as_bytes());
    assert_eq!(bytes.len(), 34);
}
