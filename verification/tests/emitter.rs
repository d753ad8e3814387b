use jfmt::emitter::{append_bytes, Emitter};
use jfmt::format::{indent_bytes, render_indent, Indentation, JSONFormatStyle};
use jfmt::token::Token;

fn render(style: JSONFormatStyle, tokens: &[Token]) -> String {
    let mut emitter = Emitter::new(style);
    let mut sink: Vec<u8> = Vec::new();
    for t in tokens {
        emitter.emit(t);
    }
    emitter.flush(&mut sink);
    String::from_utf8(sink).unwrap()
}

fn s(text: &str) -> Vec<u8> {
    text.as_bytes().to_vec()
}

fn sample() -> Vec<Token> {
    vec![
        Token::ObjectStart,
        Token::Key(s("a")),
        Token::ArrayStart,
        Token::Number(s("1")),
        Token::String(s("x")),
        Token::ArrayEnd,
        Token::Key(s("b")),
        Token::ObjectStart,
        Token::ObjectEnd,
        Token::Key(s("c")),
        Token::Bool(true),
        Token::Key(s("d")),
        Token::Null,
        Token::ObjectEnd,
    ]
}

#[test]
fn emitter_compact() {
    assert_eq!(
        render(JSONFormatStyle::Compact, &sample()),
        "{\"a\":[1,\"x\"],\"b\":{},\"c\":true,\"d\":null}"
    );
}

#[test]
fn emitter_pretty_spaces() {
    assert_eq!(
        render(JSONFormatStyle::Pretty(Indentation::Spaces(2)), &sample()),
        "{\n  \"a\": [\n    1,\n    \"x\"\n  ],\n  \"b\": {},\n  \"c\": true,\n  \"d\": null\n}"
    );
}

#[test]
fn emitter_pretty_tabs() {
    assert_eq!(
        render(JSONFormatStyle::Pretty(Indentation::Tabs), &sample()),
        "{\n\t\"a\": [\n\t\t1,\n\t\t\"x\"\n\t],\n\t\"b\": {},\n\t\"c\": true,\n\t\"d\": null\n}"
    );
}

#[test]
fn emitter_writes_false() {
    assert_eq!(render(JSONFormatStyle::Compact, &[Token::Bool(false)]), "false");
}

#[test]
fn emitter_takes_any_token_sequence() {
    assert_eq!(render(JSONFormatStyle::Compact, &[Token::ArrayEnd, Token::ObjectEnd]), "]}");
    assert_eq!(
        render(JSONFormatStyle::Pretty(Indentation::Spaces(1)), &[Token::Null, Token::Null]),
        "nullnull"
    );
}

#[test]
fn flush_empties_the_emitter() {
    let mut emitter = Emitter::new(JSONFormatStyle::Compact);
    let mut sink: Vec<u8> = s(">");
    emitter.emit(&Token::ArrayStart);
    emitter.flush(&mut sink);
    assert_eq!(sink, s(">["));
    emitter.flush(&mut sink);
    assert_eq!(sink, s(">["));
    emitter.emit(&Token::Number(s("7")));
    emitter.emit(&Token::Number(s("8")));
    emitter.emit(&Token::ArrayEnd);
    emitter.flush(&mut sink);
    assert_eq!(sink, s(">[7,8]"));
}

#[test]
fn indentation_units() {
    assert_eq!(render_indent(&Indentation::Spaces(1)), " ");
    assert_eq!(render_indent(&Indentation::Spaces(4)), "    ");
    assert_eq!(render_indent(&Indentation::Spaces(16)), " ".repeat(16));
    assert_eq!(render_indent(&Indentation::Spaces(0)), "");
    assert_eq!(render_indent(&Indentation::Tabs), "\t");
    assert_eq!(indent_bytes(&Indentation::Spaces(3)), s("   "));
    assert_eq!(indent_bytes(&Indentation::Tabs), s("\t"));
    assert_eq!(
        indent_bytes(&Indentation::Spaces(16)),
        render_indent(&Indentation::Spaces(16)).into_bytes()
    );
}

#[test]
fn appending_bytes() {
    let mut out = s("ab");
    append_bytes(&mut out, b"cd");
    append_bytes(&mut out, b"");
    assert_eq!(out, s("abcd"));
}
