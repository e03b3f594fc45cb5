use synapse::bridge::{base64_encode, hits_to_json, lookup_json, suggestions_to_json};

#[test]
fn base64_matches_the_standard_alphabet_and_padding() {
    assert_eq!(base64_encode(b""), "");
    assert_eq!(base64_encode(b"f"), "Zg==");
    assert_eq!(base64_encode(b"fo"), "Zm8=");
    assert_eq!(base64_encode(b"foo"), "Zm9v");
    assert_eq!(base64_encode(b"foobar"), "Zm9vYmFy");
    assert_eq!(base64_encode(&[0xfb, 0xff, 0xbf]), "+/+/");
    assert_eq!(base64_encode(b"value_a").len(), 4 * ((7 + 2) / 3));
}

#[test]
fn lookups_are_framed_as_json() {
    assert_eq!(lookup_json(&Some(b"hi".to_vec())), r#"{"found":true,"value":"aGk="}"#);
    assert_eq!(lookup_json(&None), r#"{"found":false,"value":""}"#);
}

#[test]
fn suggestions_and_hits_are_json_arrays() {
    assert_eq!(suggestions_to_json(&vec![]), "[]");
    assert_eq!(
        suggestions_to_json(&vec!["iphone".to_string(), "say \"hi\"".to_string()]),
        r#"["iphone","say \"hi\""]"#
    );
    assert_eq!(hits_to_json(&vec![]), "[]");
    assert_eq!(
        hits_to_json(&vec![(1, "iPhone".to_string()), (1234567890123, "a\"b".to_string())]),
        r#"[{"id":1,"text":"iPhone"},{"id":1234567890123,"text":"a\"b"}]"#
    );
}
