use jfmt::error::{ErrorKind, TranscodeError};
use jfmt::format::{Indentation, JSONFormatStyle};
use jfmt::scanner::{read_member, read_step, Nesting, Phase};
use jfmt::token::Token;
use jfmt::transcoder::{transcode, Transcoder};

fn whole(input: &[u8], style: JSONFormatStyle) -> (Vec<u8>, Result<(), TranscodeError>) {
    let mut sink: Vec<u8> = Vec::new();
    let r = transcode(input, &mut sink, style);
    (sink, r)
}

fn in_pieces(pieces: &[&[u8]], style: JSONFormatStyle) -> (Vec<u8>, Result<(), TranscodeError>) {
    let mut sink: Vec<u8> = Vec::new();
    let mut t = Transcoder::new(style);
    let mut first: Option<TranscodeError> = None;
    for piece in pieces {
        if let Err(e) = t.feed(piece, &mut sink) {
            match first {
                None => first = Some(e),
                Some(f) => assert_eq!(e, f),
            }
        }
    }
    let r = t.finish(&mut sink);
    if let Some(f) = first {
        assert_eq!(r, Err(f));
    }
    (sink, r)
}

const STYLES: [JSONFormatStyle; 3] = [
    JSONFormatStyle::Compact,
    JSONFormatStyle::Pretty(Indentation::Spaces(2)),
    JSONFormatStyle::Pretty(Indentation::Tabs),
];

const DOCUMENT: &str =
    " { \"a\" : [ 1 , 2.50 , -3E+7 , true , false , null ] , \"b\\u00e9\" : { \"c\" : \"x\\\"y\\\\\" , \"d\" : [ ] , \"e\" : { } } , \"f\" : 0 } \n";

#[test]
fn every_split_in_two_gives_the_same_output() {
    let input = DOCUMENT.as_bytes();
    for style in STYLES {
        let want = whole(input, style);
        assert!(want.1.is_ok());
        for cut in 0..=input.len() {
            let got = in_pieces(&[&input[..cut], &input[cut..]], style);
            assert_eq!(got, want, "cut at {}", cut);
        }
    }
}

#[test]
fn every_split_in_three_gives_the_same_output() {
    let input = "[{\"k\":-12.5e3},\"\\u0041b\",true ,null]".as_bytes();
    let style = JSONFormatStyle::Pretty(Indentation::Spaces(1));
    let want = whole(input, style);
    for a in 0..=input.len() {
        for b in a..=input.len() {
            let got = in_pieces(&[&input[..a], &input[a..b], &input[b..]], style);
            assert_eq!(got, want, "cuts at {} and {}", a, b);
        }
    }
}

#[test]
fn byte_by_byte_gives_the_same_output() {
    let input = DOCUMENT.as_bytes();
    let pieces: Vec<&[u8]> = input.chunks(1).collect();
    for style in STYLES {
        assert_eq!(in_pieces(&pieces, style), whole(input, style));
    }
}

#[test]
fn empty_pieces_change_nothing() {
    let input = b"[1, 2]";
    let style = JSONFormatStyle::Compact;
    let got = in_pieces(&[b"", &input[..3], b"", b"", &input[3..], b""], style);
    assert_eq!(got, whole(input, style));
    assert_eq!(got.0, b"[1,2]\n".to_vec());
}

#[test]
fn errors_are_the_same_however_the_input_is_split() {
    let inputs: [&[u8]; 10] = [
        b"",
        b"[1, 2",
        b"{\"a\": tru3}",
        b"[\"abc",
        b"[\"a\\qb\"]",
        b"{\"a\" 1}",
        b"[1] x",
        b"[1.]",
        b"\"\\u12",
        b"[1,,2]",
    ];
    for input in inputs {
        for style in STYLES {
            let want = whole(input, style);
            assert!(want.1.is_err());
            for cut in 0..=input.len() {
                let got = in_pieces(&[&input[..cut], &input[cut..]], style);
                assert_eq!(got, want, "input {:?} cut at {}", input, cut);
            }
        }
    }
}

#[test]
fn error_offsets_count_from_the_start_of_the_input() {
    let (out, r) = in_pieces(&[b"[1, 2, 3, ", b"4, 5, ", b"?, 6]"], JSONFormatStyle::Compact);
    assert_eq!(r, Err(TranscodeError { kind: ErrorKind::UnexpectedCharacter, offset: 16 }));
    assert_eq!(out, b"[1,2,3,4,5".to_vec());
}

#[test]
fn settled_tokens_are_written_at_once() {
    let mut sink: Vec<u8> = Vec::new();
    let mut t = Transcoder::new(JSONFormatStyle::Compact);
    assert_eq!(t.feed(b"[ 12", &mut sink), Ok(()));
    assert_eq!(sink, b"[".to_vec());
    assert_eq!(t.feed(b"3 ", &mut sink), Ok(()));
    assert_eq!(sink, b"[123".to_vec());
    assert_eq!(t.feed(b", \"ab", &mut sink), Ok(()));
    assert_eq!(sink, b"[123".to_vec());
    assert_eq!(t.feed(b"c\" ]", &mut sink), Ok(()));
    assert_eq!(sink, b"[123,\"abc\"".to_vec());
    assert_eq!(t.finish(&mut sink), Ok(()));
    assert_eq!(sink, b"[123,\"abc\"]\n".to_vec());
}

#[test]
fn a_settled_error_is_returned_for_every_later_piece() {
    let mut sink: Vec<u8> = Vec::new();
    let mut t = Transcoder::new(JSONFormatStyle::Compact);
    let e = TranscodeError { kind: ErrorKind::UnexpectedCharacter, offset: 3 };
    assert_eq!(t.feed(b"[1 2", &mut sink), Err(e));
    assert_eq!(sink, b"[1".to_vec());
    assert_eq!(t.feed(b", 3]", &mut sink), Err(e));
    assert_eq!(sink, b"[1".to_vec());
    assert_eq!(t.finish(&mut sink), Err(e));
    assert_eq!(sink, b"[1".to_vec());
}

#[test]
fn an_error_at_the_end_of_a_piece_waits_for_the_next() {
    let mut sink: Vec<u8> = Vec::new();
    let mut t = Transcoder::new(JSONFormatStyle::Compact);
    assert_eq!(t.feed(b"tru", &mut sink), Ok(()));
    assert_eq!(t.feed(b"e", &mut sink), Ok(()));
    assert_eq!(sink, Vec::<u8>::new());
    assert_eq!(t.finish(&mut sink), Ok(()));
    assert_eq!(sink, b"true\n".to_vec());

    let mut sink: Vec<u8> = Vec::new();
    let mut t = Transcoder::new(JSONFormatStyle::Compact);
    assert_eq!(t.feed(b"tru", &mut sink), Ok(()));
    assert_eq!(
        t.finish(&mut sink),
        Err(TranscodeError { kind: ErrorKind::UnexpectedEnd, offset: 3 })
    );
}

#[test]
fn nothing_fed_is_no_document() {
    let mut sink: Vec<u8> = Vec::new();
    let t = Transcoder::new(JSONFormatStyle::Compact);
    assert_eq!(
        t.finish(&mut sink),
        Err(TranscodeError { kind: ErrorKind::UnexpectedEnd, offset: 0 })
    );
    assert_eq!(sink, Vec::<u8>::new());
}

#[test]
fn steps_are_read_without_moving() {
    let mut state = Nesting::new();
    assert_eq!(state.depth(), 0);
    assert_eq!(state.phase(), Phase::Value);
    assert!(!state.in_object());
    let input = b" {\"a\": [1]} ";
    assert_eq!(read_step(input, 0, &state), Ok(Some((Token::ObjectStart, 2))));
    assert_eq!(read_step(input, 0, &state), Ok(Some((Token::ObjectStart, 2))));
    state.advance(&Token::ObjectStart);
    assert_eq!((state.depth(), state.phase(), state.in_object()), (1, Phase::Open, true));
    assert_eq!(state.closer(), b'}');
    assert_eq!(state.end_token(), Token::ObjectEnd);
    assert_eq!(read_step(input, 2, &state), Ok(Some((Token::Key(b"a".to_vec()), 6))));
    assert_eq!(read_member(input, 2, &state), Ok(Some((Token::Key(b"a".to_vec()), 6))));
    state.advance(&Token::Key(b"a".to_vec()));
    assert_eq!(state.phase(), Phase::Value);
    assert_eq!(read_step(input, 6, &state), Ok(Some((Token::ArrayStart, 8))));
    state.advance(&Token::ArrayStart);
    assert_eq!((state.depth(), state.in_object()), (2, false));
    assert_eq!(state.closer(), b']');
    assert_eq!(state.end_token(), Token::ArrayEnd);
    assert_eq!(read_step(input, 8, &state), Ok(Some((Token::Number(b"1".to_vec()), 9))));
    state.advance(&Token::Number(b"1".to_vec()));
    assert_eq!(state.phase(), Phase::After);
    assert_eq!(read_step(input, 9, &state), Ok(Some((Token::ArrayEnd, 10))));
    state.advance(&Token::ArrayEnd);
    assert_eq!(read_step(input, 10, &state), Ok(Some((Token::ObjectEnd, 11))));
    state.advance(&Token::ObjectEnd);
    assert_eq!((state.depth(), state.phase()), (0, Phase::After));
    assert_eq!(read_step(input, 11, &state), Ok(None));
    state.advance(&Token::ArrayEnd);
    assert_eq!((state.depth(), state.phase()), (0, Phase::After));
}

#[test]
fn a_first_error_lies_in_the_piece_that_showed_it() {
    let input = b"{\"a\": [1, 2, 3], \"b\": tru3, \"c\": 4}";
    for cut in 0..=input.len() {
        let mut sink: Vec<u8> = Vec::new();
        let mut t = Transcoder::new(JSONFormatStyle::Compact);
        let first = t.feed(&input[..cut], &mut sink);
        match first {
            Err(e) => {
                assert_eq!(e, TranscodeError { kind: ErrorKind::MalformedLiteral, offset: 25 });
                assert!(e.offset < cut);
            }
            Ok(()) => match t.feed(&input[cut..], &mut sink) {
                Err(e) => {
                    assert_eq!(e, TranscodeError { kind: ErrorKind::MalformedLiteral, offset: 25 });
                    assert!(cut <= e.offset && e.offset < input.len());
                }
                Ok(()) => panic!("the error was missed"),
            },
        }
    }
}

#[test]
fn an_error_at_the_end_is_told_at_the_end() {
    for input in [&b"[1, 2"[..], &b"{\"a\""[..], &b"\"abc"[..], &b"-"[..], &b"  "[..]] {
        let mut sink: Vec<u8> = Vec::new();
        let mut t = Transcoder::new(JSONFormatStyle::Compact);
        assert_eq!(t.feed(input, &mut sink), Ok(()));
        let e = t.finish(&mut sink).unwrap_err();
        assert_eq!(e.offset, input.len());
    }
}
