use rust_warc::CaseString;
use rust_warc::WarcError;
use rust_warc::WarcReader;
use rust_warc::WarcRecord;

fn record(warc_type: &str, content: &[u8]) -> Vec<u8> {
    let mut data = Vec::new();
    data.extend_from_slice(b"WARC/1.1\r\n");
    data.extend_from_slice(format!("WARC-Type: {}\r\n", warc_type).as_bytes());
    data.extend_from_slice(format!("Content-Length: {}\r\n", content.len()).as_bytes());
    data.extend_from_slice(b"\r\n");
    data.extend_from_slice(content);
    data.extend_from_slice(b"\r\n\r\n");
    data
}

#[test]
fn it_works() {
    let mut data = record("warcinfo", b"test");
    data.extend_from_slice(&record("request", b"abc"));
    // an incomplete third record: its declared content never arrives
    data.extend_from_slice(b"WARC/1.1\r\nWARC-Type: response\r\nContent-Length: 100\r\n\r\nshort");

    let mut warc = WarcReader::new(data);

    let item = warc.next();
    assert!(item.is_some());
    let item = item.unwrap();
    assert!(item.is_ok());
    let item = item.unwrap();
    let expected = b"warcinfo".to_vec();
    assert_eq!(
        item.header.get(&CaseString::from(b"WARC-Type".to_vec())),
        Some(&expected)
    );

    let item = warc.next();
    assert!(item.is_some());
    let item = item.unwrap();
    assert!(item.is_ok());
    let item = item.unwrap();
    let expected = b"request".to_vec();
    assert_eq!(
        item.header.get(&CaseString::from(b"WARC-Type".to_vec())),
        Some(&expected)
    );

    let item = warc.next();
    assert!(item.is_some());
    let item = item.unwrap();
    assert!(item.is_err()); // incomplete record
}

#[test]
fn minimal_record() {
    let data = b"WARC/1.1\r\nWARC-Type: warcinfo\r\nContent-Length: 4\r\n\r\ntest\r\n\r\n".to_vec();
    let mut warc = WarcReader::new(data);
    let item = warc.next().unwrap().unwrap();
    assert_eq!(item.version, b"WARC/1.1".to_vec());
    let expected = b"warcinfo".to_vec();
    assert_eq!(
        item.header.get(&CaseString::from(b"warc-type".to_vec())),
        Some(&expected)
    );
    assert_eq!(item.content, b"test".to_vec());
    assert!(warc.next().is_none());
}

#[test]
fn two_records_in_order() {
    let mut data = record("warcinfo", b"test");
    data.extend_from_slice(&record("response", b"abc"));
    let mut warc = WarcReader::new(data);
    let first = warc.next().unwrap().unwrap();
    assert_eq!(first.content, b"test".to_vec());
    let second = warc.next().unwrap().unwrap();
    assert_eq!(second.content, b"abc".to_vec());
    let expected = b"response".to_vec();
    assert_eq!(
        second.header.get(&CaseString::from(b"WARC-Type".to_vec())),
        Some(&expected)
    );
    assert!(warc.next().is_none());
}

#[test]
fn clean_eof_is_not_an_error() {
    let data = record("warcinfo", b"test");
    let mut warc = WarcReader::new(data);
    assert!(warc.next().unwrap().is_ok());
    assert!(warc.next().is_none());
    assert!(warc.next().is_none());
}

#[test]
fn empty_input_yields_nothing() {
    let mut warc = WarcReader::new(Vec::new());
    assert!(warc.next().is_none());
}

#[test]
fn truncated_content_is_io_error() {
    let data = b"WARC/1.1\r\nContent-Length: 100\r\n\r\n0123456789".to_vec();
    let mut warc = WarcReader::new(data);
    let item = warc.next().unwrap();
    assert!(matches!(item, Err(WarcError::IO)));
    assert!(warc.next().is_none());
}

#[test]
fn poisoning_is_sticky() {
    let mut data = b"HTTP/1.1 200 OK\r\n\r\n".to_vec();
    data.extend_from_slice(&record("warcinfo", b"test"));
    let mut warc = WarcReader::new(data);
    let item = warc.next().unwrap();
    assert!(item.is_err());
    // the error is yielded exactly once; afterwards the stream has ended
    // for good, even though well-formed bytes follow
    assert!(warc.next().is_none());
    assert!(warc.next().is_none());
    assert!(warc.next().is_none());
}

#[test]
fn missing_content_length() {
    let data = b"WARC/1.1\r\nWARC-Type: warcinfo\r\n\r\n".to_vec();
    let mut warc = WarcReader::new(data);
    match warc.next().unwrap() {
        Err(WarcError::Malformed(m)) => assert_eq!(m, "Content-Length is missing"),
        other => panic!("expected a malformed error, got {:?}", other),
    }
    assert!(warc.next().is_none());
}

#[test]
fn content_length_not_a_number() {
    let data = b"WARC/1.1\r\nContent-Length: ten\r\n\r\n".to_vec();
    let mut warc = WarcReader::new(data);
    match warc.next().unwrap() {
        Err(WarcError::Malformed(m)) => assert_eq!(m, "Content-Length is not a number"),
        other => panic!("expected a malformed error, got {:?}", other),
    }
}

#[test]
fn content_length_too_large_for_machine() {
    let data = b"WARC/1.1\r\nContent-Length: 99999999999999999999999999\r\n\r\n".to_vec();
    let mut warc = WarcReader::new(data);
    match warc.next().unwrap() {
        Err(WarcError::Malformed(m)) => assert_eq!(m, "Content-Length is not a number"),
        other => panic!("expected a malformed error, got {:?}", other),
    }
}

#[test]
fn content_length_with_plus_sign() {
    // the usual integer parsers accept a leading plus, and so does this one
    let data = b"WARC/1.1\r\nContent-Length: +4\r\n\r\ntest\r\n\r\n".to_vec();
    let mut warc = WarcReader::new(data);
    let item = warc.next().unwrap().unwrap();
    assert_eq!(item.content, b"test".to_vec());
}

#[test]
fn unknown_warc_version() {
    let data = b"HTTP/1.1 200 OK\r\nContent-Length: 0\r\n\r\n\r\n\r\n".to_vec();
    let mut warc = WarcReader::new(data);
    match warc.next().unwrap() {
        Err(WarcError::Malformed(m)) => assert_eq!(m, "Unknown WARC version"),
        other => panic!("expected a malformed error, got {:?}", other),
    }
    assert!(warc.next().is_none());
}

#[test]
fn bare_version_prefix_is_accepted() {
    // a version line of exactly "WARC/1." satisfies the prefix check
    let data = b"WARC/1.\r\nContent-Length: 0\r\n\r\n\r\n\r\n".to_vec();
    let mut warc = WarcReader::new(data);
    let item = warc.next().unwrap().unwrap();
    assert_eq!(item.version, b"WARC/1.".to_vec());
}

#[test]
fn invalid_header_field() {
    let data = b"WARC/1.1\r\nthis line has no separator\r\n\r\n".to_vec();
    let mut warc = WarcReader::new(data);
    match warc.next().unwrap() {
        Err(WarcError::Malformed(m)) => assert_eq!(m, "Invalid header field"),
        other => panic!("expected a malformed error, got {:?}", other),
    }
}

#[test]
fn missing_separator_after_content() {
    let data = b"WARC/1.1\r\nContent-Length: 4\r\n\r\ntestXXXX".to_vec();
    let mut warc = WarcReader::new(data);
    match warc.next().unwrap() {
        Err(WarcError::Malformed(m)) => assert_eq!(m, "No double linefeed after record content"),
        other => panic!("expected a malformed error, got {:?}", other),
    }
}

#[test]
fn separator_cut_short_is_io_error() {
    let data = b"WARC/1.1\r\nContent-Length: 4\r\n\r\ntest\r\n".to_vec();
    let mut warc = WarcReader::new(data);
    let item = warc.next().unwrap();
    assert!(matches!(item, Err(WarcError::IO)));
}

#[test]
fn zero_length_content() {
    let data = b"WARC/1.1\r\nContent-Length: 0\r\n\r\n\r\n\r\n".to_vec();
    let mut warc = WarcReader::new(data);
    let item = warc.next().unwrap().unwrap();
    assert_eq!(item.content, Vec::<u8>::new());
    assert!(warc.next().is_none());
}

#[test]
fn bare_lf_line_endings_are_tolerated() {
    let data = b"WARC/1.1\nWARC-Type: warcinfo\nContent-Length: 4\n\ntest\r\n\r\n".to_vec();
    let mut warc = WarcReader::new(data);
    let item = warc.next().unwrap().unwrap();
    assert_eq!(item.version, b"WARC/1.1".to_vec());
    assert_eq!(item.content, b"test".to_vec());
    assert!(warc.next().is_none());
}

#[test]
fn header_lookup_is_case_insensitive() {
    let data = record("warcinfo", b"test");
    let mut warc = WarcReader::new(data);
    let item = warc.next().unwrap().unwrap();
    let expected = b"warcinfo".to_vec();
    for name in ["WARC-Type", "warc-type", "WARC-TYPE", "wArC-tYpE"] {
        assert_eq!(
            item.header.get(&CaseString::from(name.as_bytes().to_vec())),
            Some(&expected)
        );
    }
    assert!(item
        .header
        .get(&CaseString::from(b"warc-types".to_vec()))
        .is_none());
}

#[test]
fn duplicate_header_last_write_wins() {
    let data =
        b"WARC/1.1\r\nWARC-Type: first\r\nwarc-TYPE: second\r\nContent-Length: 0\r\n\r\n\r\n\r\n"
            .to_vec();
    let mut warc = WarcReader::new(data);
    let item = warc.next().unwrap().unwrap();
    let expected = b"second".to_vec();
    assert_eq!(
        item.header.get(&CaseString::from(b"WARC-Type".to_vec())),
        Some(&expected)
    );
}

#[test]
fn header_values_are_trimmed() {
    let data = b"WARC/1.1\r\n  WARC-Type  :   spaced value  \r\nContent-Length: 0\r\n\r\n\r\n\r\n"
        .to_vec();
    let mut warc = WarcReader::new(data);
    let item = warc.next().unwrap().unwrap();
    // the name keeps its leading whitespace and loses the trailing run
    let expected = b"spaced value".to_vec();
    assert_eq!(
        item.header.get(&CaseString::from(b"  WARC-Type".to_vec())),
        Some(&expected)
    );
}

#[test]
fn parse_advances_cursor_past_record() {
    let data = record("warcinfo", b"test");
    let total = data.len();
    let mut pos = 0usize;
    let rec = WarcRecord::parse(&data, &mut pos).unwrap();
    assert_eq!(rec.content, b"test".to_vec());
    assert_eq!(pos, total);
    let next = WarcRecord::parse(&data, &mut pos);
    assert!(matches!(next, Err(WarcError::EOF)));
}

#[test]
fn case_string_folds_on_construction() {
    let s = CaseString::from(b"HELLO!".to_vec());
    assert_eq!(s.to_string(), b"hello!".to_vec());
    let a = CaseString::from(b"HELLO!".to_vec());
    let b = CaseString::from(b"hello!".to_vec());
    assert_eq!(a, b);
    let c = CaseString::from(b"hello".to_vec());
    assert!(a != c);
}

#[test]
fn case_string_keeps_non_ascii_bytes() {
    let s = CaseString::from(vec![0xC3, 0x84, b'B', b'c']);
    assert_eq!(s.to_string(), vec![0xC3, 0x84, b'b', b'c']);
}

#[test]
fn header_map_insert_and_get() {
    let mut map = rust_warc::HeaderMap::new();
    map.insert(CaseString::from(b"One".to_vec()), b"1".to_vec());
    map.insert(CaseString::from(b"Two".to_vec()), b"2".to_vec());
    map.insert(CaseString::from(b"ONE".to_vec()), b"3".to_vec());
    let expected = b"3".to_vec();
    assert_eq!(
        map.get(&CaseString::from(b"one".to_vec())),
        Some(&expected)
    );
    let expected = b"2".to_vec();
    assert_eq!(
        map.get(&CaseString::from(b"two".to_vec())),
        Some(&expected)
    );
    assert!(map.get(&CaseString::from(b"three".to_vec())).is_none());
}
