use input_stream::{decode, is_whitespace, take_run, token_text, ByteSource, Error, InputStream};

const EPS: f32 = 1e-6;

#[test]
fn simple_strings() {
    let text = "Howdy neighbour, how are you doing?";
    let mut stream = InputStream::new(text.as_bytes());

    let first: String = stream.scan().expect("First string");
    let second: String = stream.scan().expect("Second string");
    let third: String = stream.scan().expect("Third string");
    assert_eq!(first, "Howdy");
    assert_eq!(second, "neighbour,");
    assert_eq!(third, "how");
}

#[test]
fn simple_numbers() {
    let text = "5 -7 12.5 -2.85";
    let mut stream = InputStream::new(text.as_bytes());
    assert_eq!(5, stream.scan().expect("5"));
    assert_eq!(-7, stream.scan().expect("-7"));
    assert_eq!(
        true,
        (12.5 - stream.scan::<f32>().expect("12.5")).abs() < EPS
    );
    assert_eq!(
        true,
        (-2.85 - stream.scan::<f32>().expect("-2.85")).abs() < EPS
    );
}

#[test]
fn newlines() {
    let text = "12\nHello";
    let mut stream = InputStream::new(text.as_bytes());
    assert_eq!(12, stream.scan().expect("12"));
    assert_eq!("Hello", stream.scan::<String>().expect("Hello"));
}

#[test]
fn test_non_utf8() {
    let text: [u8; 1] = [255];
    let mut stream = InputStream::new(&text[..]);
    assert_eq!(true, stream.scan::<i32>().is_err());
}

#[test]
fn test_not_parsing() {
    let text = "hello";
    let mut stream = InputStream::new(text.as_bytes());
    assert_eq!(true, stream.scan::<i32>().is_err());
}

#[test]
fn test_limit_buffer() {
    let text = "25 150 -250";
    let mut stream = InputStream::new(text.as_bytes());
    assert_eq!(25, stream.scan_with_limit(3).expect("25"));
    assert_eq!(150, stream.scan_with_limit(3).expect("150"));
    assert!(stream.scan_with_limit::<i32>(3).is_err());
}

#[test]
fn classifier_boundaries() {
    for c in 0u8..=255 {
        let expected = c == 0x20 || (0x09..=0x0d).contains(&c);
        assert_eq!(expected, is_whitespace(c), "byte {}", c);
    }
    assert!(!is_whitespace(0x08));
    assert!(!is_whitespace(0x0e));
    assert!(!is_whitespace(0x00));
    assert!(!is_whitespace(0x21));
}

#[test]
fn every_delimiter_separates() {
    let text = b"\x20a\x09b\x0ac\x0bd\x0ce\x0df \x0d\x0a\x09 g  ";
    let mut stream = InputStream::new(&text[..]);
    for expected in ["a", "b", "c", "d", "e", "f", "g"] {
        assert_eq!(expected, stream.scan::<String>().expect("a token"));
    }
    // at the end the token is empty
    assert_eq!("", stream.scan::<String>().expect("empty token"));
    assert!(matches!(stream.scan::<i32>(), Err(Error::FromStr)));
}

#[test]
fn other_control_bytes_belong_to_tokens() {
    let text = b"a\x00b\x1fc d";
    let mut stream = InputStream::new(&text[..]);
    assert_eq!("a\u{0}b\u{1f}c", stream.scan::<String>().expect("one token"));
    assert_eq!("d", stream.scan::<String>().expect("d"));
}

#[test]
fn numeric_types_decode_exactly() {
    let text = "255 -128 18446744073709551615 -9223372036854775808 true x 3.5";
    let mut stream = InputStream::new(text.as_bytes());
    assert_eq!(255u8, stream.scan::<u8>().expect("u8"));
    assert_eq!(-128i8, stream.scan::<i8>().expect("i8"));
    assert_eq!(u64::MAX, stream.scan::<u64>().expect("u64"));
    assert_eq!(i64::MIN, stream.scan::<i64>().expect("i64"));
    assert_eq!(true, stream.scan::<bool>().expect("bool"));
    assert_eq!('x', stream.scan::<char>().expect("char"));
    assert_eq!(3.5f64, stream.scan::<f64>().expect("f64"));
}

#[test]
fn out_of_range_number_is_parse_error() {
    let mut stream = InputStream::new("256 7".as_bytes());
    assert!(matches!(stream.scan::<u8>(), Err(Error::FromStr)));
    assert_eq!(7u8, stream.scan::<u8>().expect("7"));
}

#[test]
fn trailing_space_is_trimmed_before_decoding() {
    let raw: &[u8] = b"12 ";
    assert_eq!(12, decode::<i32>(raw).expect("trimmed"));
    // only one space goes
    assert!(matches!(decode::<i32>(b"12  "), Err(Error::FromStr)));
    // only a space goes, not other delimiters
    assert!(matches!(decode::<i32>(b"12\t"), Err(Error::FromStr)));
    assert_eq!("ab", decode::<String>(b"ab ").expect("text"));
    assert_eq!("", decode::<String>(b" ").expect("empty"));
    assert_eq!("", decode::<String>(b"").expect("empty"));
}

#[test]
fn decode_reports_invalid_text() {
    assert!(matches!(decode::<String>(&[0xff]), Err(Error::Utf8(_))));
    assert!(matches!(decode::<String>(&[0xc3]), Err(Error::Utf8(_))));
    assert_eq!("é", decode::<String>(&[0xc3, 0xa9]).expect("two-byte char"));
}

#[test]
fn lone_invalid_byte_is_utf8_error() {
    let text: [u8; 3] = [0xff, b' ', b'4'];
    let mut stream = InputStream::new(&text[..]);
    assert!(matches!(stream.scan::<i32>(), Err(Error::Utf8(_))));
    assert_eq!(4, stream.scan::<i32>().expect("4"));
}

#[test]
fn unparsable_text_is_parse_error() {
    let mut stream = InputStream::new("hello 9".as_bytes());
    assert!(matches!(stream.scan::<i32>(), Err(Error::FromStr)));
    assert_eq!(9, stream.scan::<i32>().expect("9"));
}

#[test]
fn limit_exceeded_kind_and_position() {
    let text = "25 150 -250";
    let mut stream = InputStream::new(text.as_bytes());
    assert_eq!(25, stream.scan_with_limit::<i32>(3).expect("25"));
    assert_eq!(150, stream.scan_with_limit::<i32>(3).expect("150"));
    assert!(matches!(
        stream.scan_with_limit::<i32>(3),
        Err(Error::BufferLimitExceeded)
    ));
    // the whole oversized token was in one chunk, so nothing of it was consumed
    assert_eq!(-250, stream.scan::<i32>().expect("-250"));
}

#[test]
fn limit_equal_to_length_passes() {
    let mut stream = InputStream::new("abc abcd".as_bytes());
    assert_eq!("abc", stream.scan_with_limit::<String>(3).expect("abc"));
    assert!(matches!(
        stream.scan_with_limit::<String>(3),
        Err(Error::BufferLimitExceeded)
    ));
    let mut zero = InputStream::new("x".as_bytes());
    assert!(matches!(
        zero.scan_with_limit::<String>(0),
        Err(Error::BufferLimitExceeded)
    ));
}

#[test]
fn mixed_newlines_are_plain_delimiters() {
    let mut stream = InputStream::new("12\r\nHello\n\n7".as_bytes());
    assert_eq!(12, stream.scan::<i32>().expect("12"));
    assert_eq!("Hello", stream.scan::<String>().expect("Hello"));
    assert_eq!(7, stream.scan::<i32>().expect("7"));
}

#[test]
fn failures_do_not_disturb_later_scans() {
    let text: &[u8] = b"1 x \xff 2 toolong 3";
    let mut stream = InputStream::new(text);
    assert_eq!(1, stream.scan::<i32>().expect("1"));
    assert!(matches!(stream.scan::<i32>(), Err(Error::FromStr)));
    assert!(matches!(stream.scan::<i32>(), Err(Error::Utf8(_))));
    assert_eq!(2, stream.scan::<i32>().expect("2"));
    assert!(matches!(
        stream.scan_with_limit::<String>(3),
        Err(Error::BufferLimitExceeded)
    ));
    assert_eq!("toolong", stream.scan::<String>().expect("the token again"));
    assert_eq!(3, stream.scan::<i32>().expect("3"));
}

#[test]
fn empty_input_gives_empty_token() {
    let mut stream = InputStream::new("   \n\t ".as_bytes());
    assert_eq!("", stream.scan::<String>().expect("empty"));
    assert!(matches!(stream.scan::<i32>(), Err(Error::FromStr)));
}

#[test]
fn stream_is_a_source_itself() {
    let mut outer = InputStream::new("  ab cd".as_bytes());
    let chunk: Vec<u8> = outer.fill_buf().expect("in memory").to_vec();
    assert_eq!(b"  ab cd".to_vec(), chunk);
    outer.consume(3);
    assert_eq!("b", outer.scan::<String>().expect("b"));
    let mut nested = InputStream::new(outer);
    assert_eq!("cd", nested.scan::<String>().expect("cd"));
}

#[test]
fn error_messages() {
    assert_eq!("Buffer limit exceeded", Error::BufferLimitExceeded.message());
    assert_eq!("Could not parse given data type", Error::FromStr.message());
    let bad = decode::<String>(&[0xff]).expect_err("invalid");
    assert_eq!("Data is not valid utf8", bad.message());
    let io = Error::Io(std::io::Error::new(std::io::ErrorKind::Other, "gone"));
    assert_eq!("I/O Error", io.message());
}

#[test]
fn into_inner_keeps_position() {
    let mut stream = InputStream::new("ab cd".as_bytes());
    assert_eq!("ab", stream.scan::<String>().expect("ab"));
    assert_eq!(b" cd", stream.into_inner());
}

#[test]
fn errors_convert_from_causes() {
    let io: Error = std::io::Error::new(std::io::ErrorKind::Other, "gone").into();
    assert!(matches!(io, Error::Io(_)));
    let bad: &[u8] = &[0xff];
    let cause = std::str::from_utf8(bad).expect_err("invalid");
    let utf8: Error = cause.into();
    assert!(matches!(utf8, Error::Utf8(_)));
}

#[test]
fn take_run_measures_and_collects() {
    let mut sink: Vec<u8> = Vec::new();
    let r = take_run(b"  \tab", true, &mut sink, false, None);
    assert_eq!((3, true), r.expect("skip"));
    assert!(sink.is_empty());
    let r = take_run(b"abc", false, &mut sink, true, Some(5));
    assert_eq!((3, false), r.expect("whole chunk"));
    assert_eq!(b"abc".to_vec(), sink);
    let r = take_run(b"de f", false, &mut sink, true, Some(5));
    assert_eq!((2, true), r.expect("rest of token"));
    assert_eq!(b"abcde".to_vec(), sink);
    let r = take_run(b"gh", false, &mut sink, true, Some(5));
    assert!(matches!(r, Err(Error::BufferLimitExceeded)));
    assert_eq!(b"abcde".to_vec(), sink);
    let r = take_run(b"", false, &mut sink, true, Some(5));
    assert_eq!((0, true), r.expect("end of source"));
}

#[test]
fn read_copies_and_consumes() {
    let mut stream = InputStream::new("ab cd".as_bytes());
    let mut buf = [0u8; 3];
    assert_eq!(3, stream.read(&mut buf).expect("read"));
    assert_eq!(b"ab ", &buf);
    assert_eq!("cd", stream.scan::<String>().expect("cd"));
    let mut big = [9u8; 4];
    assert_eq!(0, stream.read(&mut big).expect("at the end"));
    assert_eq!([9u8; 4], big);
    let mut other = InputStream::new("xy".as_bytes());
    let mut wide = [0u8; 4];
    assert_eq!(2, other.read(&mut wide).expect("short read"));
    assert_eq!([b'x', b'y', 0, 0], wide);
}

#[test]
fn token_text_is_what_the_parser_gets() {
    assert_eq!("12", token_text(b"12 ").expect("trimmed"));
    assert_eq!("12\t", token_text(b"12\t").expect("tab kept"));
    assert!(matches!(token_text(&[0xff, b' ']), Err(Error::Utf8(_))));
}

#[test]
fn fill_buf_after_scan_returns_the_rest() {
    let mut stream = InputStream::new("ab cd".as_bytes());
    assert_eq!("ab", stream.scan::<String>().expect("ab"));
    assert_eq!(b" cd", stream.fill_buf().expect("in memory"));
}

#[test]
fn any_delimiter_acts_like_a_space() {
    let mut with_spaces = InputStream::new("1 2 3".as_bytes());
    let mut with_others = InputStream::new("1\n2\x0b3".as_bytes());
    for _ in 0..3 {
        assert_eq!(
            with_spaces.scan::<i32>().expect("a"),
            with_others.scan::<i32>().expect("b")
        );
    }
}
