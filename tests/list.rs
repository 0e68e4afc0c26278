use mail_parser::{HeaderValue, MessageStream};

fn parse(input: &str) -> HeaderValue {
    MessageStream::new(input.as_bytes()).parse_comma_separared()
}

fn entries(input: &str) -> Vec<String> {
    match parse(input) {
        HeaderValue::Empty => vec![],
        HeaderValue::Text(t) => vec![t],
        HeaderValue::TextList(l) => l,
    }
}

#[test]
fn parse_comma_separated_text() {
    let inputs = [
        (" one item  \n", vec!["one item"]),
        ("simple, list\n", vec!["simple", "list"]),
        (
            "multi \r\n list, \r\n with, cr lf  \r\n",
            vec!["multi list", "with", "cr lf"],
        ),
        (
            "=?iso-8859-1?q?this is some text?=, in, a, list, \n",
            vec!["this is some text", "in", "a", "list"],
        ),
        (
            " =?ISO-8859-1?B?SWYgeW91IGNhbiByZWFkIHRoaXMgeW8=?=\n     =?ISO-8859-2?B?dSB1bmRlcnN0YW5kIHRoZSBleGFtcGxlLg==?=\n , but, in a list, which, is, more, fun!\n",
            vec![
                "If you can read this you understand the example.",
                "but",
                "in a list",
                "which",
                "is",
                "more",
                "fun!",
            ],
        ),
        (
            "=?ISO-8859-1?Q?a?= =?ISO-8859-1?Q?b?=\n , listed\n",
            vec!["ab", "listed"],
        ),
        (
            "ハロー・ワールド, and also, ascii terms\n",
            vec!["ハロー・ワールド", "and also", "ascii terms"],
        ),
    ];

    for input in inputs {
        let str = input.0.to_string();

        match MessageStream::new(str.as_bytes()).parse_comma_separared() {
            HeaderValue::TextList(ids) => {
                assert_eq!(ids, input.1, "Failed to parse '{:?}'", input.0);
            }
            HeaderValue::Text(id) => {
                assert!(input.1.len() == 1, "Failed to parse '{:?}'", input.0);
                assert_eq!(id, input.1[0], "Failed to parse '{:?}'", input.0);
            }
            _ => panic!("Unexpected result"),
        }
    }
}

#[test]
fn whitespace_only_is_empty() {
    assert!(matches!(parse("   \t \r\n"), HeaderValue::Empty));
    assert!(matches!(parse("\n"), HeaderValue::Empty));
    assert!(matches!(parse(""), HeaderValue::Empty));
    assert!(matches!(parse(" \n \t\n"), HeaderValue::Empty));
}

#[test]
fn single_entry_is_trimmed_text() {
    match parse("  \t hello   world \t ") {
        HeaderValue::Text(t) => assert_eq!(t, "hello   world"),
        _ => panic!("expected a single text"),
    }
}

#[test]
fn end_of_input_flushes_last_entry() {
    assert_eq!(entries("a, b"), vec!["a", "b"]);
}

#[test]
fn entries_keep_their_order() {
    assert_eq!(entries("x,y ,  z,w\n"), vec!["x", "y", "z", "w"]);
}

#[test]
fn empty_entries_are_dropped() {
    assert_eq!(entries(", a,, ,b,\n"), vec!["a", "b"]);
}

#[test]
fn fold_joins_words_with_one_space() {
    assert_eq!(entries("alpha  \r\n\tbeta, gamma\n"), vec!["alpha beta", "gamma"]);
}

#[test]
fn unfolded_line_break_stops_the_scan() {
    let mut stream = MessageStream::new("a, b\nc, d\n".as_bytes());
    match stream.parse_comma_separared() {
        HeaderValue::TextList(l) => assert_eq!(l, vec!["a", "b"]),
        _ => panic!("expected a list"),
    }
    assert_eq!(stream.offset(), 5);
    match stream.parse_comma_separared() {
        HeaderValue::TextList(l) => assert_eq!(l, vec!["c", "d"]),
        _ => panic!("expected a list"),
    }
}

#[test]
fn carriage_return_inside_word_is_kept() {
    assert_eq!(entries("a\rb\n"), vec!["a\rb"]);
}

#[test]
fn encoded_word_after_plain_word_gets_one_space() {
    assert_eq!(entries("plain =?utf-8?q?enc?=\n"), vec!["plain enc"]);
    assert_eq!(entries("=?utf-8?q?enc?= plain\n"), vec!["enc plain"]);
}

#[test]
fn encoded_word_inside_word_is_literal() {
    assert_eq!(entries("x=?utf-8?q?enc?=\n"), vec!["x=?utf-8?q?enc?="]);
}

#[test]
fn malformed_encoded_word_is_kept_verbatim() {
    assert_eq!(
        entries("=?utf-8?x?abc?=, next\n"),
        vec!["=?utf-8?x?abc?=", "next"]
    );
    assert_eq!(entries("=?utf-8?q?=ZZ?=\n"), vec!["=?utf-8?q?=ZZ?="]);
    assert_eq!(entries("=?utf-8?b?@@@@?=\n"), vec!["=?utf-8?b?@@@@?="]);
    assert_eq!(entries("=?utf-8?q?abc\n"), vec!["=?utf-8?q?abc"]);
}

#[test]
fn q_encoding_decodes_underscore_and_hex() {
    assert_eq!(entries("=?utf-8?Q?a_b=3Dc=c3=a9?=\n"), vec!["a b=cé"]);
}

#[test]
fn latin1_bytes_become_their_characters() {
    assert_eq!(entries("=?ISO-8859-1?Q?caf=E9?=\n"), vec!["café"]);
    assert_eq!(entries("=?latin1?B?6Q==?=\n"), vec!["é"]);
}

#[test]
fn utf8_charset_decodes_multibyte_text() {
    assert_eq!(entries("=?UTF-8?B?w6k=?=\n"), vec!["é"]);
    assert_eq!(entries("=?utf-8?q?=FF?=\n"), vec!["\u{fffd}"]);
}

#[test]
fn base64_without_padding() {
    assert_eq!(entries("=?utf-8?b?aGk?=\n"), vec!["hi"]);
    assert_eq!(entries("=?utf-8?b?aGVsbG8?=\n"), vec!["hello"]);
}

#[test]
fn decoder_moves_past_the_word() {
    let mut stream = MessageStream::new("=?utf-8?q?hi?= rest".as_bytes());
    assert_eq!(stream.next(), Some(0x3d));
    assert_eq!(stream.decode_rfc2047(), Some("hi".to_string()));
    assert_eq!(stream.offset(), 14);
}

#[test]
fn same_input_same_result() {
    let input = "a, =?utf-8?q?b?= c, =?bad\n";
    assert_eq!(entries(input), entries(input));
    assert_eq!(entries(input), vec!["a", "b c", "=?bad"]);
}

#[test]
fn folded_line_break_before_encoded_word_is_one_space() {
    assert_eq!(entries("a\n =?utf-8?q?b?=\n"), vec!["a b"]);
    assert_eq!(entries("a \r =?utf-8?q?b?=\n"), vec!["a b"]);
    assert_eq!(entries("a \r\n\t=?utf-8?q?b?=, c\n"), vec!["a b", "c"]);
    assert_eq!(entries("a\n b =?utf-8?q?c?=\n"), vec!["a b c"]);
    assert_eq!(entries("a\n =?utf-8?q?b?=\n =?utf-8?q?c?=\n"), vec!["a bc"]);
    assert_eq!(entries("a\n ,=?utf-8?q?b?=\n"), vec!["a", "b"]);
}

#[test]
fn encoded_words_without_whitespace_join() {
    assert_eq!(entries("=?utf-8?q?a?==?utf-8?q?b?=\n"), vec!["ab"]);
    assert_eq!(entries("=?utf-8?q?a?=\n\t=?utf-8?q?b?=, c\n"), vec!["ab", "c"]);
}

#[test]
fn entries_with_folds_and_equals_signs() {
    assert_eq!(entries("a=b\n c, d\r\n\te=\n"), vec!["a=b c", "d e="]);
    match parse("  x\n  y = z \n") {
        HeaderValue::Text(t) => assert_eq!(t, "x y = z"),
        _ => panic!("expected a single text"),
    }
}
