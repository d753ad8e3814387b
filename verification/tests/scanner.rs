use jfmt::error::{ErrorKind, TranscodeError};
use jfmt::lexical::{
    is_decimal_digit, is_hex_digit, is_simple_escape_byte, is_whitespace, scan_exponent, scan_fraction, scan_hex_quad,
    scan_number, scan_string, scan_word, skip_digits, skip_whitespace,
};
use jfmt::scanner::{copy_range, read_key, read_value, Scanner};
use jfmt::token::Token;

fn tokens(input: &str) -> Result<Vec<Token>, TranscodeError> {
    let mut scanner = Scanner::new(input.as_bytes());
    let mut out = Vec::new();
    while let Some(t) = scanner.next_token()? {
        out.push(t);
    }
    Ok(out)
}

fn s(text: &str) -> Vec<u8> {
    text.as_bytes().to_vec()
}

#[test]
fn scanner_yields_tokens_in_order() {
    let got = tokens(" { \"a\" : [ 1 , 2.50 ] , \"b\" : { \"c\" : null } , \"d\" : false } ").unwrap();
    let want = vec![
        Token::ObjectStart,
        Token::Key(s("a")),
        Token::ArrayStart,
        Token::Number(s("1")),
        Token::Number(s("2.50")),
        Token::ArrayEnd,
        Token::Key(s("b")),
        Token::ObjectStart,
        Token::Key(s("c")),
        Token::Null,
        Token::ObjectEnd,
        Token::Key(s("d")),
        Token::Bool(false),
        Token::ObjectEnd,
    ];
    assert_eq!(got, want);
}

#[test]
fn scanner_keeps_escapes_undecoded() {
    let got = tokens("[\"\\u00e9\\t\\\\\", \"\"]").unwrap();
    assert_eq!(
        got,
        vec![Token::ArrayStart, Token::String(s("\\u00e9\\t\\\\")), Token::String(s("")), Token::ArrayEnd]
    );
}

#[test]
fn scanner_tells_keys_from_strings() {
    let got = tokens("{\"k\":\"k\"}").unwrap();
    assert_eq!(
        got,
        vec![Token::ObjectStart, Token::Key(s("k")), Token::String(s("k")), Token::ObjectEnd]
    );
}

#[test]
fn scanner_stands_still_after_the_end_and_after_an_error() {
    let mut scanner = Scanner::new(b"[1] ");
    assert_eq!(scanner.depth(), 0);
    assert_eq!(scanner.next_token(), Ok(Some(Token::ArrayStart)));
    assert_eq!(scanner.depth(), 1);
    assert_eq!(scanner.next_token(), Ok(Some(Token::Number(s("1")))));
    assert_eq!(scanner.next_token(), Ok(Some(Token::ArrayEnd)));
    assert_eq!(scanner.depth(), 0);
    assert_eq!(scanner.next_token(), Ok(None));
    assert_eq!(scanner.next_token(), Ok(None));

    let mut scanner = Scanner::new(b"[ ?");
    assert_eq!(scanner.next_token(), Ok(Some(Token::ArrayStart)));
    let err = TranscodeError { kind: ErrorKind::UnexpectedCharacter, offset: 2 };
    assert_eq!(scanner.next_token(), Err(err));
    assert_eq!(scanner.next_token(), Err(err));
    assert_eq!(scanner.depth(), 1);
}

#[test]
fn scanner_reports_the_error_behind_the_tokens_before_it() {
    assert_eq!(
        tokens("{\"a\": [1, 2").unwrap_err(),
        TranscodeError { kind: ErrorKind::UnexpectedEnd, offset: 11 }
    );
    assert_eq!(
        tokens("[\"a\" : 1]").unwrap_err(),
        TranscodeError { kind: ErrorKind::UnexpectedCharacter, offset: 5 }
    );
}

#[test]
fn byte_classes() {
    for b in [b' ', b'\t', b'\n', b'\r'] {
        assert!(is_whitespace(b));
    }
    for b in [0x0Bu8, 0x0C, 0x00, b'a', 0xA0] {
        assert!(!is_whitespace(b));
    }
    assert!(is_decimal_digit(b'0') && is_decimal_digit(b'9'));
    assert!(!is_decimal_digit(b'/') && !is_decimal_digit(b':'));
    for b in *b"09afAF" {
        assert!(is_hex_digit(b));
    }
    for b in *b"gG@`/:" {
        assert!(!is_hex_digit(b));
    }
    for b in *b"\"\\/bfnrt" {
        assert!(is_simple_escape_byte(b));
    }
    for b in *b"u'a0BFNRT " {
        assert!(!is_simple_escape_byte(b));
    }
}

#[test]
fn skipping_runs() {
    assert_eq!(skip_whitespace(b"  \n\tx ", 0), 4);
    assert_eq!(skip_whitespace(b"  \n\tx ", 4), 4);
    assert_eq!(skip_whitespace(b"   ", 1), 3);
    assert_eq!(skip_digits(b"123a", 0), 3);
    assert_eq!(skip_digits(b"123a", 3), 3);
    assert_eq!(skip_digits(b"12", 2), 2);
}

#[test]
fn strings_end_behind_their_closing_quote() {
    assert_eq!(scan_string(b"\"abc\" ", 1), Ok(5));
    assert_eq!(scan_string(b"\"\"", 1), Ok(2));
    assert_eq!(scan_string(b"\"a\\\"b\"", 1), Ok(6));
    assert_eq!(scan_string(b"\"\\u0aF9\"", 1), Ok(8));
    assert_eq!(scan_hex_quad(b"0aF9", 0), Ok(4));
    assert_eq!(
        scan_hex_quad(b"0aX9", 0),
        Err(TranscodeError { kind: ErrorKind::InvalidEscape, offset: 2 })
    );
    assert_eq!(
        scan_hex_quad(b"0a", 0),
        Err(TranscodeError { kind: ErrorKind::UnterminatedString, offset: 2 })
    );
    assert_eq!(
        scan_string(b"\"\x1f\"", 1),
        Err(TranscodeError { kind: ErrorKind::UnexpectedCharacter, offset: 1 })
    );
}

#[test]
fn numbers_take_as_much_as_fits() {
    assert_eq!(scan_number(b"0", 0), Ok(1));
    assert_eq!(scan_number(b"-0", 0), Ok(2));
    assert_eq!(scan_number(b"007", 0), Ok(1));
    assert_eq!(scan_number(b"120,", 0), Ok(3));
    assert_eq!(scan_number(b"1.50]", 0), Ok(4));
    assert_eq!(scan_number(b"1E10", 0), Ok(4));
    assert_eq!(scan_number(b"-12.5e-3 ", 0), Ok(8));
    assert_eq!(scan_number(b"1e+5.2", 0), Ok(4));
    assert_eq!(scan_number(b"[7]", 1), Ok(2));
    assert_eq!(scan_fraction(b".25e1", 0), Ok(5));
    assert_eq!(scan_fraction(b"x", 0), Ok(0));
    assert_eq!(scan_exponent(b"e9", 0), Ok(2));
    assert_eq!(scan_exponent(b",", 0), Ok(0));
    assert_eq!(
        scan_number(b"-", 0),
        Err(TranscodeError { kind: ErrorKind::UnexpectedEnd, offset: 1 })
    );
    assert_eq!(
        scan_number(b"1.e", 0),
        Err(TranscodeError { kind: ErrorKind::MalformedLiteral, offset: 2 })
    );
    assert_eq!(
        scan_number(b"1ex", 0),
        Err(TranscodeError { kind: ErrorKind::MalformedLiteral, offset: 2 })
    );
}

#[test]
fn words_match_byte_by_byte() {
    assert_eq!(scan_word(b" true", 1, b"true"), Ok(5));
    assert_eq!(
        scan_word(b"trve", 0, b"true"),
        Err(TranscodeError { kind: ErrorKind::MalformedLiteral, offset: 2 })
    );
    assert_eq!(
        scan_word(b"nu", 0, b"null"),
        Err(TranscodeError { kind: ErrorKind::UnexpectedEnd, offset: 2 })
    );
}

#[test]
fn reading_values_and_keys() {
    assert_eq!(read_value(b" {", 1), Ok((Token::ObjectStart, 2)));
    assert_eq!(read_value(b"[", 0), Ok((Token::ArrayStart, 1)));
    assert_eq!(read_value(b"\"hi\"", 0), Ok((Token::String(s("hi")), 4)));
    assert_eq!(read_value(b"-1.5,", 0), Ok((Token::Number(s("-1.5")), 4)));
    assert_eq!(read_value(b"true", 0), Ok((Token::Bool(true), 4)));
    assert_eq!(read_value(b"false", 0), Ok((Token::Bool(false), 5)));
    assert_eq!(read_value(b"null", 0), Ok((Token::Null, 4)));
    assert_eq!(
        read_value(b"]", 0),
        Err(TranscodeError { kind: ErrorKind::UnexpectedCharacter, offset: 0 })
    );
    assert_eq!(read_key(b"\"k\" \n: 1", 0), Ok((Token::Key(s("k")), 6)));
    assert_eq!(
        read_key(b"k", 0),
        Err(TranscodeError { kind: ErrorKind::UnexpectedCharacter, offset: 0 })
    );
    assert_eq!(
        read_key(b"\"k\" ", 0),
        Err(TranscodeError { kind: ErrorKind::UnexpectedEnd, offset: 4 })
    );
    assert_eq!(copy_range(b"abcdef", 2, 4), s("cd"));
    assert_eq!(copy_range(b"abcdef", 3, 3), s(""));
}
