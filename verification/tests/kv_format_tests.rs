use consensus_retrieval::kv_format::{format_kv_line, is_blank_line, parse_kv_line, KvLineError};

#[test]
fn a_line_holds_a_key_and_a_value() {
    assert_eq!(parse_kv_line(b"abc 12"), Ok((b"abc".to_vec(), 12)));
}

#[test]
fn the_value_is_trimmed_and_may_have_a_plus() {
    assert_eq!(parse_kv_line(b"k  +7 \t"), Ok((b"k".to_vec(), 7)));
    let line = "k \u{3000}5\u{a0}";
    assert_eq!(parse_kv_line(line.as_bytes()), Ok((b"k".to_vec(), 5)));
}

#[test]
fn the_key_ends_at_the_first_space() {
    assert_eq!(parse_kv_line(b"a b 3"), Err(KvLineError::InvalidValue));
    assert_eq!(parse_kv_line("\u{e9}t\u{e9} 0".as_bytes()), Ok(("\u{e9}t\u{e9}".as_bytes().to_vec(), 0)));
}

#[test]
fn a_line_without_space_is_refused() {
    assert_eq!(parse_kv_line(b"abc"), Err(KvLineError::MissingSeparator));
    assert_eq!(parse_kv_line(b""), Err(KvLineError::MissingSeparator));
}

#[test]
fn values_must_be_decimal_and_fit() {
    assert_eq!(parse_kv_line(b"k x"), Err(KvLineError::InvalidValue));
    assert_eq!(parse_kv_line(b"k -1"), Err(KvLineError::InvalidValue));
    assert_eq!(parse_kv_line(b"k +"), Err(KvLineError::InvalidValue));
    assert_eq!(parse_kv_line(b"k "), Err(KvLineError::InvalidValue));
    assert_eq!(parse_kv_line(b"k 18446744073709551616"), Err(KvLineError::InvalidValue));
    assert_eq!(parse_kv_line(b"k 18446744073709551615"), Ok((b"k".to_vec(), u64::MAX)));
}

#[test]
fn blank_lines_hold_only_white_space() {
    assert!(is_blank_line(b""));
    assert!(is_blank_line(" \t\u{2003}".as_bytes()));
    assert!(!is_blank_line(b" a "));
}

#[test]
fn lines_agree_with_the_text_functions() {
    for line in ["a 1", "b\t 2", "c  \u{2028}33\u{85}", "d 4 5", "e", " 6", "f 0x7"] {
        let expected = line
            .split_once(' ')
            .map(|(k, v)| (k, v.trim().parse::<u64>()));
        let got = parse_kv_line(line.as_bytes());
        match expected {
            None => assert_eq!(got, Err(KvLineError::MissingSeparator), "{line:?}"),
            Some((k, Ok(v))) => assert_eq!(got, Ok((k.as_bytes().to_vec(), v)), "{line:?}"),
            Some((_, Err(_))) => assert_eq!(got, Err(KvLineError::InvalidValue), "{line:?}"),
        }
        assert_eq!(is_blank_line(line.as_bytes()), line.trim().is_empty(), "{line:?}");
    }
}

#[test]
fn a_pair_is_written_as_key_space_value_newline() {
    assert_eq!(format_kv_line(b"abc", 0), b"abc 0\n".to_vec());
    assert_eq!(format_kv_line(b"k", 1234567890), b"k 1234567890\n".to_vec());
    assert_eq!(
        format_kv_line(b"max", u64::MAX),
        format!("max {}\n", u64::MAX).into_bytes()
    );
}

#[test]
fn a_written_line_reads_back() {
    for (key, value) in [("a", 0u64), ("\u{e9}t\u{e9}", 42), ("\u{3000}x", u64::MAX), ("", 7)] {
        let line = format_kv_line(key.as_bytes(), value);
        let text = std::str::from_utf8(&line).unwrap();
        let read: Vec<&str> = text.lines().collect();
        assert_eq!(read.len(), 1);
        assert!(!is_blank_line(read[0].as_bytes()));
        assert_eq!(parse_kv_line(read[0].as_bytes()), Ok((key.as_bytes().to_vec(), value)));
    }
}
