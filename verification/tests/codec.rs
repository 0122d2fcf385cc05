use wordcount::errors::GuestError;
use wordcount::json::{decode_table, decode_text, encode_table, encode_text};
use wordcount::table::FreqTable;
use wordcount::tokens::word_count;

#[test]
fn text_decode_rejects_bad_bytes() {
    assert_eq!(
        decode_text(&[0xFF, 0xFE]),
        Err(GuestError::InvalidEncoding)
    );
}

#[test]
fn text_codec_round_trips() {
    let bytes = encode_text("héllo wörld");
    assert_eq!(decode_text(&bytes), Ok("héllo wörld".to_string()));
}

#[test]
fn table_round_trips_through_the_wire() {
    let t = word_count("to be or not to be");
    let bytes = encode_table(&t);
    let back = decode_table(&bytes).unwrap();
    assert_eq!(back.len(), t.len());
    assert_eq!(back.get(&"to".to_string()), Some(2));
    assert_eq!(back.get(&"be".to_string()), Some(2));
    assert_eq!(back.get(&"or".to_string()), Some(1));
    assert_eq!(back.get(&"not".to_string()), Some(1));
}

#[test]
fn empty_table_round_trips() {
    let t = FreqTable::new();
    let bytes = encode_table(&t);
    assert_eq!(bytes, b"{\"x\":{}}".to_vec());
    let back = decode_table(&bytes).unwrap();
    assert_eq!(back.len(), 0);
}

#[test]
fn encoder_output_is_valid_json_for_serde() {
    let t = word_count("alpha beta beta gamma gamma gamma");
    let bytes = encode_table(&t);
    let v: serde_json::Value = serde_json::from_slice(&bytes).unwrap();
    assert_eq!(v["x"]["alpha"], serde_json::Value::from(1u32));
    assert_eq!(v["x"]["beta"], serde_json::Value::from(2u32));
    assert_eq!(v["x"]["gamma"], serde_json::Value::from(3u32));
}

#[test]
fn decoder_accepts_serde_output() {
    let v: serde_json::Value = serde_json::from_str("{\"x\":{\"k\":7}}").unwrap();
    let bytes = serde_json::to_string(&v).unwrap().into_bytes();
    let t = decode_table(&bytes).unwrap();
    assert_eq!(t.get(&"k".to_string()), Some(7));
}

#[test]
fn decoder_keeps_non_ascii_tokens() {
    let t = word_count("Äpfel und äpfel");
    let bytes = encode_table(&t);
    let back = decode_table(&bytes).unwrap();
    assert_eq!(back.get(&"äpfel".to_string()), Some(2));
    assert_eq!(back.get(&"und".to_string()), Some(1));
}

#[test]
fn decoder_rejects_wrong_shapes() {
    assert!(decode_table(b"").is_err());
    assert!(decode_table(&[0xFF, 0xFE]).is_err());
    assert!(decode_table(b"{\"y\":{\"a\":1}}").is_err());
    assert!(decode_table(b"{\"x\":[1,2]}").is_err());
    assert!(decode_table(b"{\"x\":{\"a\":1}").is_err());
    assert!(decode_table(b"{\"x\":{\"a\":1}}trailing").is_err());
}

#[test]
fn decoder_rejects_zero_and_padded_counts() {
    assert!(decode_table(b"{\"x\":{\"a\":0}}").is_err());
    assert!(decode_table(b"{\"x\":{\"a\":01}}").is_err());
    assert!(decode_table(b"{\"x\":{\"a\":-1}}").is_err());
    assert!(decode_table(b"{\"x\":{\"a\":4294967295}}").is_ok());
    assert!(decode_table(b"{\"x\":{\"a\":4294967296}}").is_err());
}

#[test]
fn decoder_rejects_repeated_tokens() {
    assert!(decode_table(b"{\"x\":{\"a\":1,\"a\":2}}").is_err());
}

#[test]
fn decoder_is_strict_about_escapes_and_spacing() {
    assert!(decode_table(b"{\"x\":{\"a\\\\b\":1}}").is_err());
    assert!(decode_table(b"{\"x\": {\"a\":1}}").is_err());
}

#[test]
fn word_count_lowercases_and_splits() {
    let t = word_count("The CAT, the THE cat!");
    assert_eq!(t.get(&"the".to_string()), Some(3));
    assert_eq!(t.get(&"cat".to_string()), Some(2));
    assert_eq!(t.get(&"The".to_string()), None);
    assert_eq!(t.get(&"CAT".to_string()), None);
    assert_eq!(t.len(), 2);
}

#[test]
fn word_count_keeps_digits_in_tokens() {
    let t = word_count("room 101 and room 101");
    assert_eq!(t.get(&"room".to_string()), Some(2));
    assert_eq!(t.get(&"101".to_string()), Some(2));
    assert_eq!(t.get(&"and".to_string()), Some(1));
}

#[test]
fn word_count_of_separators_is_empty() {
    let t = word_count("... --- !!!");
    assert_eq!(t.len(), 0);
}

#[test]
fn merge_from_adds_counts() {
    let mut t1 = word_count("a b b");
    let t2 = word_count("b c c c");
    t1.merge_from(&t2);
    assert_eq!(t1.get(&"a".to_string()), Some(1));
    assert_eq!(t1.get(&"b".to_string()), Some(3));
    assert_eq!(t1.get(&"c".to_string()), Some(3));
}
