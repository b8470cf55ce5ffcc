use toy_renderer::text::{is_number, parse_isize, rest_of_line, split_words, trim_bytes};

#[test]
fn words_split_on_whitespace() {
    let ws = split_words(b"  f 1/2/3\t 4//5 \r");
    assert_eq!(ws, vec![b"f".to_vec(), b"1/2/3".to_vec(), b"4//5".to_vec()]);
    assert!(split_words(b" \t ").is_empty());
}

#[test]
fn integers_follow_isize_parsing() {
    assert_eq!(parse_isize(b"42"), Some(42));
    assert_eq!(parse_isize(b"-7"), Some(-7));
    assert_eq!(parse_isize(b"+3"), Some(3));
    assert_eq!(parse_isize(b""), None);
    assert_eq!(parse_isize(b"-"), None);
    assert_eq!(parse_isize(b"1x"), None);
    assert_eq!(parse_isize(b"-9223372036854775808"), Some(isize::MIN));
    assert_eq!(parse_isize(b"9223372036854775808"), None);
}

#[test]
fn number_syntax() {
    for ok in ["1", "-1.5", "+.5", "5.", "1e10", "1E-3", "inf", "-Infinity", "NaN"] {
        assert!(is_number(ok.as_bytes()), "{}", ok);
        assert!(ok.parse::<f32>().is_ok());
    }
    for bad in ["", ".", "-", "1e", "e5", "1.2.3", "infin", "0x10", "1 "] {
        assert!(!is_number(bad.as_bytes()), "{}", bad);
        assert!(bad.parse::<f32>().is_err());
    }
}

#[test]
fn rest_of_line_is_trimmed() {
    assert_eq!(rest_of_line(b"  o  my  cube  "), b"my  cube".to_vec());
    assert_eq!(rest_of_line(b"g"), Vec::<u8>::new());
    assert_eq!(trim_bytes(b"   "), Vec::<u8>::new());
}
