use agent24_os_proto::frame::{read_frame, FrameError, FrameReader, Progress, MAX_FRAME_BYTES};
use agent24_os_proto::json::{lookup, parse, Json};
use agent24_os_proto::repeats::find_duplicate_key;
use agent24_os_proto::text::{
    clip_to, decimal_string, hex_string, is_before, join, octal4_string, parse_i32, parse_i64,
    parse_u32, signed_decimal_string,
};
use agent24_os_proto::version::{kernel_range, negotiate, VersionMismatch, VersionRange};

#[test]
fn a_frame_ends_at_its_newline() {
    assert_eq!(read_frame(b"abc\nrest").unwrap(), b"abc");
    assert!(matches!(read_frame(b"abc"), Err(FrameError::Eof)));
    let mut line = vec![b'x'; MAX_FRAME_BYTES];
    line.push(b'\n');
    assert_eq!(read_frame(&line).unwrap().len(), MAX_FRAME_BYTES);
    let mut long = vec![b'x'; MAX_FRAME_BYTES + 1];
    long.push(b'\n');
    assert!(matches!(
        read_frame(&long),
        Err(FrameError::TooLong { limit: MAX_FRAME_BYTES })
    ));
}

#[test]
fn a_frame_is_joined_from_what_was_read() {
    let mut reader = FrameReader::new();
    assert!(reader.room() > 0);
    assert!(matches!(reader.feed(b"ab"), Progress::More { .. }));
    match reader.feed(b"c\nd") {
        Progress::Frame { frame, consumed } => {
            assert_eq!(frame, b"abc");
            assert_eq!(consumed, 2);
        }
        _ => panic!("a newline ends a frame"),
    }
}

#[test]
fn the_highest_shared_version_is_settled_on() {
    let range = |a: u32, b: u32| VersionRange::new(a, b).unwrap();
    assert_eq!(negotiate(Some(range(1, 3)), range(2, 5)), Ok(3));
    assert_eq!(negotiate(Some(range(1, 9)), range(2, 5)), Ok(5));
    assert_eq!(
        negotiate(Some(range(6, 9)), range(2, 5)),
        Err(VersionMismatch::NoOverlap { module: range(6, 9), kernel: range(2, 5) })
    );
    assert_eq!(
        negotiate(None, range(2, 5)),
        Err(VersionMismatch::NotDeclared { kernel: range(2, 5) })
    );
    assert!(VersionRange::new(2, 1).is_none());
    assert_eq!((kernel_range().min(), kernel_range().max()), (1, 1));
}

#[test]
fn texts_are_cut_at_a_character() {
    assert_eq!(clip_to("abc", 3), "abc");
    assert_eq!(clip_to("abcd", 3), "abc…");
    assert_eq!(clip_to("éé", 3), "é…");
    assert_eq!(clip_to("é", 1), "…");
}

#[test]
fn numbers_are_written_and_read() {
    assert_eq!(decimal_string(0), "0");
    assert_eq!(decimal_string(u64::MAX), u64::MAX.to_string());
    assert_eq!(signed_decimal_string(i32::MIN), i32::MIN.to_string());
    assert_eq!(parse_u32("4294967295"), Some(u32::MAX));
    assert_eq!(parse_u32("4294967296"), None);
    assert_eq!(parse_u32("01"), None);
    assert_eq!(parse_u32("é"), None);
    for s in ["0", "-0", "+7", "007", "2147483647", "-2147483648", "2147483648", "-2147483649", "", "+", "-", "x", "1x", "99999999999999999999"] {
        assert_eq!(parse_i32(s), s.parse::<i32>().ok(), "{s}");
    }
    for s in ["0", "-7", "9223372036854775807", "-9223372036854775808", "9223372036854775808", "", "1.0"] {
        assert_eq!(parse_i64(s), s.parse::<i64>().ok(), "{s}");
    }
    assert_eq!(hex_string(&[0, 0x1f, 0xff]), "001fff");
    assert_eq!(octal4_string(0o1755), "1755");
    assert_eq!(octal4_string(0o7), "0007");
}

#[test]
fn texts_are_ordered_by_their_bytes() {
    assert!(is_before("a", "b"));
    assert!(is_before("a", "ab"));
    assert!(is_before("z", "é"));
    assert!(!is_before("a", "a"));
    assert_eq!(join(&vec!["a".to_owned(), "b".to_owned()], "."), "a.b");
}

#[test]
fn json_is_read_and_written_as_serde_json_does() {
    for text in [
        "null",
        "true",
        "-12",
        "1.5",
        "1e300",
        r#""\u0000\b\f\n\r\t\"\\ é 😀""#,
        r#"{"b":[1,{"x":{}}],"a":"","é":null}"#,
    ] {
        let ours = parse(text.as_bytes()).unwrap().to_text();
        let theirs: serde_json::Value = serde_json::from_str(text).unwrap();
        assert_eq!(ours, serde_json::to_string(&theirs).unwrap(), "{text}");
    }
    let bad = parse(b"{\"a\":}").unwrap_err();
    let theirs = serde_json::from_slice::<serde_json::Value>(b"{\"a\":}").unwrap_err();
    assert_eq!(bad, theirs.to_string());
    let Json::Object(members) = parse(br#"{"k":"v"}"#).unwrap() else {
        panic!("an object")
    };
    assert!(matches!(lookup(&members, "k"), Some(Json::Text(s)) if s == "v"));
    assert!(lookup(&members, "x").is_none());
}

#[test]
fn what_is_written_is_read_back_in_the_order_of_its_keys() {
    let v = Json::Object(vec![
        ("z".to_owned(), Json::Number("-9223372036854775808".to_owned())),
        ("a".to_owned(), Json::Text("\u{0} \u{7f} \" \\ \u{2028} 😀".to_owned())),
        (
            "é".to_owned(),
            Json::Array(vec![Json::Null, Json::Object(Vec::new()), Json::Array(Vec::new())]),
        ),
        ("".to_owned(), Json::Number("18446744073709551615".to_owned())),
    ]);
    let text = v.to_text();
    let Json::Object(members) = v else { panic!("an object") };
    let Json::Object(read) = parse(text.as_bytes()).unwrap() else { panic!("an object") };
    let keys: Vec<&str> = read.iter().map(|m| m.0.as_str()).collect();
    assert_eq!(keys, ["", "a", "z", "é"]);
    for (key, value) in &members {
        assert_eq!(lookup(&read, key), Some(value), "{key}");
    }
    assert_eq!(find_duplicate_key(text.as_bytes()), None);
    let deepest = format!("{}0{}", "[".repeat(127), "]".repeat(127));
    assert_eq!(parse(deepest.as_bytes()).unwrap().to_text(), deepest);
    assert_eq!(find_duplicate_key(deepest.as_bytes()), None);
    let deeper = format!("[{deepest}]");
    assert!(parse(deeper.as_bytes()).is_err());
}

#[test]
fn a_line_is_one_frame_whatever_its_texts_hold() {
    let v = Json::Array(vec![Json::Text("a\nb\u{85}\u{2028}ü\n".to_owned()), Json::Null]);
    let text = v.to_text();
    let mut stream = text.clone().into_bytes();
    stream.extend_from_slice(b"\nmore\n");
    assert_eq!(read_frame(&stream).unwrap(), text.as_bytes());
}

#[test]
fn repeats_are_found_where_they_stand() {
    assert_eq!(find_duplicate_key(br#"{"a":1,"b":2}"#), None);
    assert_eq!(find_duplicate_key(br#"{"a":1,"a":2}"#), Some(vec!["a".to_owned()]));
    assert_eq!(
        find_duplicate_key(br#"{"x":[{"y":{"z":1,"z":2}}]}"#).map(|p| p.last().cloned()),
        Some(Some("z".to_owned()))
    );
    assert_eq!(find_duplicate_key(b"not json"), None);
    assert_eq!(find_duplicate_key(b"[1,2]"), None);
}

#[test]
fn how_a_stream_is_cut_does_not_show_in_its_first_frame() {
    let stream = b"{\"a\":1}\nrest";
    for cut in 0..=stream.len() {
        let mut reader = FrameReader::new();
        let mut found = None;
        for piece in [&stream[..cut], &stream[cut..]] {
            if found.is_none() && !piece.is_empty() {
                if let Progress::Frame { frame, .. } = reader.feed(piece) {
                    found = Some(frame);
                }
            }
        }
        assert_eq!(found.as_deref(), Some(&b"{\"a\":1}"[..]), "{cut}");
    }
    let mut reader = FrameReader::new();
    let piece = vec![b'x'; MAX_FRAME_BYTES];
    assert!(matches!(reader.feed(&piece), Progress::More { consumed } if consumed == piece.len()));
    assert!(matches!(reader.feed(b"xx\n"), Progress::More { consumed: 1 }));
    assert_eq!(reader.room(), 0);
}
