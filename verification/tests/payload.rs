use rustscan::payload::decode_payload;

#[test]
fn preserves_literal_bytes_and_decodes_hex_pairs() {
    assert_eq!(
        decode_payload(r#""\x04\x06public\xa1\xFF0""#).unwrap(),
        b"\x04\x06public\xa1\xff0"
    );
}

#[test]
fn concatenates_strings_without_losing_literal_whitespace() {
    assert_eq!(
        decode_payload("  \" public \"\n\t\"\"\"name \"  ").unwrap(),
        b" public name "
    );
}

#[test]
fn decodes_escapes_without_treating_escaped_quotes_as_delimiters() {
    assert_eq!(
        decode_payload(r#""\0\r\n\t\\\"public\"""#).unwrap(),
        b"\0\r\n\t\\\"public\""
    );
}

#[test]
fn stops_before_metadata_even_when_it_contains_quotes() {
    assert_eq!(
        decode_payload(r#""public" source 161 future "metadata""#).unwrap(),
        b"public"
    );
}

#[test]
fn rejects_malformed_payloads() {
    for input in [
        "",
        "public",
        "\"public",
        "\"public\" \"unfinished",
        "\"\\",
        r#""\q""#,
        r#""\x""#,
        r#""\x0""#,
        r#""\xGG""#,
        r#""\x0" "1""#,
        r#""public\""#,
    ] {
        assert!(decode_payload(input).is_err(), "accepted {:?}", input);
    }
}

#[test]
fn each_payload_error_has_its_message() {
    assert_eq!(decode_payload("public"), Err("expected a quoted payload"));
    assert_eq!(decode_payload("   "), Err("expected a quoted payload"));
    assert_eq!(decode_payload("\"public"), Err("unterminated payload string"));
    assert_eq!(decode_payload("\"\\"), Err("incomplete escape"));
    assert_eq!(decode_payload(r#""\x0""#), Err("expected two hex digits after \\x"));
    assert_eq!(decode_payload(r#""\xG0""#), Err("expected two hex digits after \\x"));
    assert_eq!(decode_payload(r#""\q""#), Err("unsupported escape"));
}

#[test]
fn non_ascii_characters_are_kept_as_utf8_bytes() {
    assert_eq!(decode_payload("\"é€😀\"").unwrap(), "é€😀".as_bytes());
}

#[test]
fn leading_unicode_whitespace_is_skipped_but_only_ascii_whitespace_separates_strings() {
    assert_eq!(decode_payload("\u{a0}\u{3000}\"a\"").unwrap(), b"a");
    // A no-break space between strings ends the payload.
    assert_eq!(decode_payload("\"a\"\u{a0}\"b\"").unwrap(), b"a");
    // A vertical tab is not ASCII white space for the separator either.
    assert_eq!(decode_payload("\"a\"\x0b\"b\"").unwrap(), b"a");
    assert_eq!(decode_payload("\"a\"\x0c\"b\"").unwrap(), b"ab");
}

#[test]
fn appended_metadata_does_not_change_the_payload() {
    let base = "\"ab\\x41\"  ";
    let plain = decode_payload(base).unwrap();
    for metadata in ["source 1", "x\"y\"", "#", "\u{a0}\"z\""] {
        let text = format!("{base}{metadata}");
        assert_eq!(decode_payload(&text).unwrap(), plain);
    }
}

#[test]
fn hex_escapes_of_both_cases_give_the_same_byte() {
    assert_eq!(decode_payload(r#""\xaB\xAb\x00\xff""#).unwrap(), vec![0xab, 0xab, 0x00, 0xff]);
}

#[test]
fn metadata_after_white_space_or_nothing_is_ignored() {
    let plain = decode_payload("\"ab\"").unwrap();
    for text in ["\"ab\"", "\"ab\" source 161", "\"ab\"\t\n x", "\"ab\"   "] {
        assert_eq!(decode_payload(text).unwrap(), plain);
    }
}

#[test]
fn quoted_plain_text_decodes_to_its_utf8_bytes() {
    for text in ["", " spaced  out ", "tab\there", "ünïcödé ✓", "#not a comment"] {
        let quoted = format!("\"{text}\"");
        assert_eq!(decode_payload(&quoted).unwrap(), text.as_bytes());
    }
}

#[test]
fn hex_escape_runs_decode_to_their_bytes() {
    let bytes: Vec<u8> = (0..=255).collect();
    let lower: String = bytes.iter().map(|b| format!("\\x{:02x}", b)).collect();
    let upper: String = bytes.iter().map(|b| format!("\\x{:02X}", b)).collect();
    assert_eq!(decode_payload(&format!("\"{lower}\"")).unwrap(), bytes);
    assert_eq!(decode_payload(&format!("\"{upper}\"")).unwrap(), bytes);
}

#[test]
fn consecutive_payloads_concatenate() {
    let q1 = "\"a\\x01\" \"b\"";
    let q2 = "\"\\\"c\"\t\"d\"";
    let mut expected = decode_payload(q1).unwrap();
    expected.extend(decode_payload(q2).unwrap());
    for w in ["", " ", "\n\t \r"] {
        assert_eq!(decode_payload(&format!("{q1}{w}{q2}")).unwrap(), expected);
    }
}
