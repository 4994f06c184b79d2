use rustscan::database::{parse, payloads_for};

#[test]
fn comments_do_not_remove_payloads_or_literal_hashes() {
    let entries = parse(
        r##"
# comment with "unbalanced quotes
udp 623 # header comment
"a#b" # trailing comment
"\"#\\" # escaped quote and backslash before the closing quote
"\x80\0"
"##,
    )
    .unwrap();
    assert_eq!(entries.len(), 1);
    assert_eq!(entries[0].payload, b"a#b\"#\\\x80\0");
}

#[test]
fn ranges_include_both_endpoints_and_deduplicate_ports() {
    let entries = parse("udp 1198-1199,1199,65534-65535,8-8 \"probe\"").unwrap();
    assert_eq!(entries[0].ports, [8, 1198, 1199, 65534, 65535]);
}

#[test]
fn duplicate_and_overlapping_port_lists_preserve_every_entry() {
    let entries =
        parse("udp 53,123 \"first\"\nudp 53,123 \"second\"\nudp 123-124 \"third\"").unwrap();
    assert_eq!(entries.len(), 3);
    assert_eq!(entries[0].payload, b"first");
    assert_eq!(entries[1].payload, b"second");
    assert_eq!(entries[2].ports, [123, 124]);
    assert_eq!(entries[2].payload, b"third");
}

#[test]
fn flushes_single_and_final_entries_without_a_trailing_newline() {
    for input in ["udp 48899 \"ads\"", "udp 53 \"dns\"\nudp 48899 \"ads\""] {
        let entries = parse(input).unwrap();
        assert_eq!(entries.last().unwrap().ports, [48899]);
        assert_eq!(entries.last().unwrap().payload, b"ads");
    }
}

#[test]
fn accepts_indented_headers_tabs_and_multiline_entries() {
    let entries =
        parse("  udp\t53\n\"a\"\n\"b\"\nsource 123 future \"metadata\"\n\tudp\n123\n\"c\"")
            .unwrap();
    assert_eq!(entries[0].ports, [53]);
    assert_eq!(entries[0].payload, b"ab");
    assert_eq!(entries[1].ports, [123]);
    assert_eq!(entries[1].payload, b"c");
}

#[test]
fn invalid_entries_fail_with_the_source_line_instead_of_losing_coverage() {
    for entry in [
        "udp 2-1 \"x\"",
        "udp 65536 \"x\"",
        "udp 53",
        "udp 53 \"unterminated",
        "udp 53 \"\\q\"",
        "tcp 53 \"x\"",
    ] {
        let error = parse(&format!("# comment\n{entry}")).unwrap_err();
        assert!(error.starts_with("line 2:"), "{}", error);
    }
}

#[test]
fn error_messages_name_the_line_and_the_reason() {
    assert_eq!(parse("udp 2-1 \"x\"").unwrap_err(), "line 1: reversed port range");
    assert_eq!(parse("\n\nudp abc \"x\"").unwrap_err(), "line 3: invalid port \"abc\"");
    assert_eq!(parse("udp 1-\"x\" \"y\"").unwrap_err(), "line 1: invalid port \"\\\"x\\\"\"");
    assert_eq!(parse("udp 53").unwrap_err(), "line 1: expected a quoted payload");
    assert_eq!(parse("udp").unwrap_err(), "line 1: expected ports and quoted payload");
    assert_eq!(parse("x\nudp 53 \"a\"").unwrap_err(), "line 1: expected udp entry");
    assert_eq!(
        parse("udp 53 \"a\"\n\n\n\n\n\n\n\n\n\nudp 54 \"\\q\"").unwrap_err(),
        "line 11: unsupported escape"
    );
}

#[test]
fn an_error_in_an_entry_is_reported_on_its_header_line() {
    let error = parse("udp 53\n\"a\"\n\"\\x0\"").unwrap_err();
    assert_eq!(error, "line 1: expected two hex digits after \\x");
}

#[test]
fn blank_and_comment_only_texts_have_no_entries() {
    assert!(parse("").unwrap().is_empty());
    assert!(parse("\n  \n# only a comment\n\t\n").unwrap().is_empty());
}

#[test]
fn a_plus_sign_and_leading_zeros_are_accepted_in_ports() {
    let entries = parse("udp +7,0009,0-1 \"x\"").unwrap();
    assert_eq!(entries[0].ports, [0, 1, 7, 9]);
}

#[test]
fn carriage_returns_at_line_ends_are_ignored() {
    let entries = parse("udp 53 \"a\"\r\n\"b\"\r\nudp 54 \"c\"\r\n").unwrap();
    assert_eq!(entries.len(), 2);
    assert_eq!(entries[0].payload, b"ab");
    assert_eq!(entries[1].ports, [54]);
}

#[test]
fn payloads_for_sends_each_distinct_payload_once_in_database_order() {
    let entries = parse(
        "udp 53,123 \"first\"\nudp 53 \"second\"\nudp 50-60 \"first\"\nudp 123 \"third\"",
    )
    .unwrap();
    assert_eq!(payloads_for(&entries, 53), vec![b"first".to_vec(), b"second".to_vec()]);
    assert_eq!(payloads_for(&entries, 123), vec![b"first".to_vec(), b"third".to_vec()]);
    assert_eq!(payloads_for(&entries, 60), vec![b"first".to_vec()]);
    assert!(payloads_for(&entries, 61).is_empty());
}

#[test]
fn every_udp_line_starts_its_own_entry() {
    let text = "udp 1 \"a\"\n# udp 9 \"commented\"\nudp 1 \"a\"\n\"b\"\n  udp 2 \"c\" # udp 3\n";
    let entries = parse(text).unwrap();
    assert_eq!(entries.len(), 3);
    assert_eq!(entries[1].payload, b"ab");
    assert_eq!(entries[2].ports, [2]);
}

#[test]
fn two_databases_written_one_after_the_other_keep_all_entries() {
    let a = "udp 53 \"a\"\n\"b\" # more\nudp 1-2 \"c\"";
    let b = "\n# second file\nudp 53 \"a\"\nudp 7 \"d\" source 1";
    let mut expected = parse(a).unwrap();
    expected.extend(parse(b).unwrap());
    assert_eq!(parse(&format!("{a}\n{b}")).unwrap(), expected);
}
