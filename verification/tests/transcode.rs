use jfmt::format::{Indentation, JSONFormatStyle};
use jfmt::error::{ErrorKind, TranscodeError};
use jfmt::transcoder::transcode;

fn run(input: &str, style: JSONFormatStyle) -> Result<String, TranscodeError> {
    let mut sink: Vec<u8> = Vec::new();
    transcode(input.as_bytes(), &mut sink, style)?;
    Ok(String::from_utf8(sink).unwrap())
}

fn compact(input: &str) -> String {
    run(input, JSONFormatStyle::Compact).unwrap()
}

fn pretty(input: &str, n: u8) -> String {
    run(input, JSONFormatStyle::Pretty(Indentation::Spaces(n))).unwrap()
}

fn fails(input: &str) -> TranscodeError {
    run(input, JSONFormatStyle::Compact).unwrap_err()
}

fn error(kind: ErrorKind, offset: usize) -> TranscodeError {
    TranscodeError { kind, offset }
}

#[test]
fn pretty_two_spaces_nested() {
    assert_eq!(pretty("{\"a\":[1,2]}", 2), "{\n  \"a\": [\n    1,\n    2\n  ]\n}\n");
}

#[test]
fn compact_nested() {
    assert_eq!(compact("{\"a\":[1,2]}"), "{\"a\":[1,2]}\n");
}

#[test]
fn pretty_four_spaces_and_tabs() {
    assert_eq!(pretty("[true,{\"k\":null}]", 4), "[\n    true,\n    {\n        \"k\": null\n    }\n]\n");
    let tabs = run("[true,{\"k\":null}]", JSONFormatStyle::Pretty(Indentation::Tabs)).unwrap();
    assert_eq!(tabs, "[\n\ttrue,\n\t{\n\t\t\"k\": null\n\t}\n]\n");
}

#[test]
fn pretty_sixteen_spaces() {
    let unit = " ".repeat(16);
    assert_eq!(pretty("[0]", 16), format!("[\n{}0\n]\n", unit));
}

#[test]
fn number_literals_are_kept() {
    assert_eq!(compact("[1.50, 1E10]"), "[1.50,1E10]\n");
    let tabs = run("[1.50, 1E10]", JSONFormatStyle::Pretty(Indentation::Tabs)).unwrap();
    assert_eq!(tabs, "[\n\t1.50,\n\t1E10\n]\n");
    assert_eq!(compact(" -0.0e+00 "), "-0.0e+00\n");
    assert_eq!(compact("123456789012345678901234567890"), "123456789012345678901234567890\n");
}

#[test]
fn string_bytes_are_kept() {
    assert_eq!(compact("\"a\\u0041\\/\\n\\\"b\""), "\"a\\u0041\\/\\n\\\"b\"\n");
    assert_eq!(compact("[ \"caf\u{e9} \u{1F600}\" ]"), "[\"caf\u{e9} \u{1F600}\"]\n");
    assert_eq!(compact("{ \" k \" : \" v \" }"), "{\" k \":\" v \"}\n");
}

#[test]
fn bytes_above_ascii_pass_through_undecoded() {
    let input: Vec<u8> = vec![b'"', 0xFF, 0x80, b'"'];
    let mut sink: Vec<u8> = Vec::new();
    transcode(&input, &mut sink, JSONFormatStyle::Compact).unwrap();
    assert_eq!(sink, vec![b'"', 0xFF, 0x80, b'"', b'\n']);
}

#[test]
fn empty_containers_stay_closed() {
    assert_eq!(compact(" [ ] "), "[]\n");
    assert_eq!(compact("{\n}"), "{}\n");
    assert_eq!(pretty("[]", 2), "[]\n");
    assert_eq!(pretty("{ }", 2), "{}\n");
    assert_eq!(pretty("{\"a\":[],\"b\":{}}", 2), "{\n  \"a\": [],\n  \"b\": {}\n}\n");
    assert_eq!(pretty("[[],[[]]]", 1), "[\n [],\n [\n  []\n ]\n]\n");
}

#[test]
fn top_level_scalars() {
    assert_eq!(compact("true"), "true\n");
    assert_eq!(compact(" false\n"), "false\n");
    assert_eq!(compact("\tnull\r\n"), "null\n");
    assert_eq!(pretty("42", 4), "42\n");
    assert_eq!(pretty("\"s\"", 4), "\"s\"\n");
}

#[test]
fn all_four_whitespace_bytes_are_dropped() {
    assert_eq!(compact(" \t\r\n[ \t\r\n1 \t\r\n, \t\r\n2 \t\r\n] \t\r\n"), "[1,2]\n");
    assert_eq!(compact("{ \"a\" \n:\t1 }"), "{\"a\":1}\n");
}

#[test]
fn exactly_one_line_feed_is_appended() {
    assert_eq!(compact("1\n\n\n"), "1\n");
    assert_eq!(pretty("[1]\n\n", 2), "[\n  1\n]\n");
}

#[test]
fn output_is_appended_to_the_sink() {
    let mut sink: Vec<u8> = b"head".to_vec();
    transcode(b"[1]", &mut sink, JSONFormatStyle::Compact).unwrap();
    assert_eq!(sink, b"head[1]\n".to_vec());
}

#[test]
fn deep_nesting_needs_no_recursion() {
    let depth = 20000;
    let input = format!("{}{}", "[".repeat(depth), "]".repeat(depth));
    assert_eq!(compact(&input), format!("{}\n", input));
}

#[test]
fn compact_output_is_a_fixed_point() {
    let once = compact("{ \"a\" : [ 1 , 2.50 , { \"b\" : \"x y\" } ] , \"c\" : null }");
    assert_eq!(once, "{\"a\":[1,2.50,{\"b\":\"x y\"}],\"c\":null}\n");
    assert_eq!(compact(&once), once);
}

#[test]
fn pretty_output_is_a_fixed_point() {
    let once = pretty("{\"a\":[1,2.50,{\"b\":\"x y\"}],\"c\":null,\"d\":[]}", 3);
    assert_eq!(pretty(&once, 3), once);
    let tabs = run(&once, JSONFormatStyle::Pretty(Indentation::Tabs)).unwrap();
    assert_eq!(run(&tabs, JSONFormatStyle::Pretty(Indentation::Tabs)).unwrap(), tabs);
}

fn strip(input: &[u8]) -> Vec<u8> {
    let mut out = Vec::new();
    let mut inside = false;
    let mut escaped = false;
    for &b in input {
        if inside {
            out.push(b);
            if escaped {
                escaped = false;
            } else if b == b'\\' {
                escaped = true;
            } else if b == b'"' {
                inside = false;
            }
        } else if !matches!(b, b' ' | b'\t' | b'\r' | b'\n') {
            out.push(b);
            inside = b == b'"';
        }
    }
    out
}

#[test]
fn only_whitespace_differs() {
    let input = "{ \"a b\" : [ 1.0 ,\t\"\\\" \\\\\" , true ] ,\r\n \"c\" : { } }";
    for style in [
        JSONFormatStyle::Compact,
        JSONFormatStyle::Pretty(Indentation::Spaces(2)),
        JSONFormatStyle::Pretty(Indentation::Tabs),
    ] {
        let out = run(input, style).unwrap();
        assert_eq!(strip(out.as_bytes()), strip(input.as_bytes()));
    }
    assert_eq!(strip(compact(input).as_bytes()), compact(input).trim_end().as_bytes().to_vec());
}

#[test]
fn parsed_value_is_the_same() {
    let input = "{\"b\": [1, 2.50, -3e2, \"x\\ny\", {\"k\": [true, false, null]}], \"a\": {}}";
    let before: serde_json::Value = serde_json::from_str(input).unwrap();
    for style in [
        JSONFormatStyle::Compact,
        JSONFormatStyle::Pretty(Indentation::Spaces(4)),
        JSONFormatStyle::Pretty(Indentation::Tabs),
    ] {
        let out = run(input, style).unwrap();
        let after: serde_json::Value = serde_json::from_str(&out).unwrap();
        assert_eq!(after, before);
    }
}

fn reference(input: &str, indent: Option<&[u8]>) -> String {
    let mut out: Vec<u8> = Vec::new();
    let mut de = serde_json::Deserializer::from_slice(input.as_bytes());
    match indent {
        None => {
            let mut ser = serde_json::Serializer::new(&mut out);
            serde_transcode::transcode(&mut de, &mut ser).unwrap();
        }
        Some(unit) => {
            let fmt = serde_json::ser::PrettyFormatter::with_indent(unit);
            let mut ser = serde_json::Serializer::with_formatter(&mut out, fmt);
            serde_transcode::transcode(&mut de, &mut ser).unwrap();
        }
    }
    out.push(b'\n');
    String::from_utf8(out).unwrap()
}

#[test]
fn layout_agrees_with_serde_where_literals_are_canonical() {
    let input = "{\"name\":\"jfmt\",\"tags\":[\"a\",\"b\"],\"n\":[1,-2,300],\"o\":{\"e\":[],\"f\":{}},\"t\":true,\"z\":null}";
    assert_eq!(compact(input), reference(input, None));
    assert_eq!(pretty(input, 2), reference(input, Some(b"  ")));
    assert_eq!(pretty(input, 4), reference(input, Some(b"    ")));
    let tabs = run(input, JSONFormatStyle::Pretty(Indentation::Tabs)).unwrap();
    assert_eq!(tabs, reference(input, Some(b"\t")));
}

#[test]
fn trailing_garbage_is_refused() {
    assert_eq!(fails("{} x"), error(ErrorKind::TrailingGarbage, 3));
    assert_eq!(fails("1 2"), error(ErrorKind::TrailingGarbage, 2));
    assert_eq!(fails("01"), error(ErrorKind::TrailingGarbage, 1));
    assert_eq!(fails("truex"), error(ErrorKind::TrailingGarbage, 4));
    assert_eq!(fails("[]]"), error(ErrorKind::TrailingGarbage, 2));
}

#[test]
fn unexpected_end_is_refused() {
    assert_eq!(fails(""), error(ErrorKind::UnexpectedEnd, 0));
    assert_eq!(fails("   "), error(ErrorKind::UnexpectedEnd, 3));
    assert_eq!(fails("[1,"), error(ErrorKind::UnexpectedEnd, 3));
    assert_eq!(fails("[1"), error(ErrorKind::UnexpectedEnd, 2));
    assert_eq!(fails("{\"a\""), error(ErrorKind::UnexpectedEnd, 4));
    assert_eq!(fails("{\"a\":"), error(ErrorKind::UnexpectedEnd, 5));
    assert_eq!(fails("tru"), error(ErrorKind::UnexpectedEnd, 3));
    assert_eq!(fails("-"), error(ErrorKind::UnexpectedEnd, 1));
    assert_eq!(fails("1."), error(ErrorKind::UnexpectedEnd, 2));
    assert_eq!(fails("1e+"), error(ErrorKind::UnexpectedEnd, 3));
}

#[test]
fn malformed_literal_is_refused() {
    assert_eq!(fails("tru3"), error(ErrorKind::MalformedLiteral, 3));
    assert_eq!(fails("nul "), error(ErrorKind::MalformedLiteral, 3));
    assert_eq!(fails("fals3"), error(ErrorKind::MalformedLiteral, 4));
    assert_eq!(fails("-x"), error(ErrorKind::MalformedLiteral, 1));
    assert_eq!(fails("[1.x]"), error(ErrorKind::MalformedLiteral, 3));
    assert_eq!(fails("2e-]"), error(ErrorKind::MalformedLiteral, 3));
}

#[test]
fn unterminated_string_is_refused() {
    assert_eq!(fails("\"abc"), error(ErrorKind::UnterminatedString, 4));
    assert_eq!(fails("[\"a\\"), error(ErrorKind::UnterminatedString, 4));
    assert_eq!(fails("\"\\u12"), error(ErrorKind::UnterminatedString, 5));
    assert_eq!(fails("{\"k"), error(ErrorKind::UnterminatedString, 3));
}

#[test]
fn invalid_escape_is_refused() {
    assert_eq!(fails("\"\\q\""), error(ErrorKind::InvalidEscape, 2));
    assert_eq!(fails("\"\\u12G4\""), error(ErrorKind::InvalidEscape, 5));
    assert_eq!(fails("\"a\\'\""), error(ErrorKind::InvalidEscape, 3));
}

#[test]
fn unexpected_character_is_refused() {
    assert_eq!(fails("@"), error(ErrorKind::UnexpectedCharacter, 0));
    assert_eq!(fails("[1 2]"), error(ErrorKind::UnexpectedCharacter, 3));
    assert_eq!(fails("{1:2}"), error(ErrorKind::UnexpectedCharacter, 1));
    assert_eq!(fails("[1}"), error(ErrorKind::UnexpectedCharacter, 2));
    assert_eq!(fails("{\"a\" 1}"), error(ErrorKind::UnexpectedCharacter, 5));
    assert_eq!(fails("[1,]"), error(ErrorKind::UnexpectedCharacter, 3));
    assert_eq!(fails("{\"a\":1,}"), error(ErrorKind::UnexpectedCharacter, 7));
    assert_eq!(fails("[,1]"), error(ErrorKind::UnexpectedCharacter, 1));
    assert_eq!(fails("\"a\nb\""), error(ErrorKind::UnexpectedCharacter, 2));
    assert_eq!(fails("+1"), error(ErrorKind::UnexpectedCharacter, 0));
    assert_eq!(fails(".5"), error(ErrorKind::UnexpectedCharacter, 0));
}

#[test]
fn sink_holds_what_was_rendered_before_the_error() {
    let mut sink: Vec<u8> = Vec::new();
    let err = transcode(b"[1, 2, x]", &mut sink, JSONFormatStyle::Compact).unwrap_err();
    assert_eq!(err, error(ErrorKind::UnexpectedCharacter, 7));
    assert_eq!(sink, b"[1,2".to_vec());
    let mut sink: Vec<u8> = Vec::new();
    let style = JSONFormatStyle::Pretty(Indentation::Spaces(2));
    let err = transcode(b"{\"a\": tru", &mut sink, style).unwrap_err();
    assert_eq!(err, error(ErrorKind::UnexpectedEnd, 9));
    assert_eq!(sink, b"{\n  \"a\": ".to_vec());
}

#[test]
fn reference_printer_rewrites_literals_that_are_kept_here() {
    assert_eq!(reference("[1.50,1E10]", None), "[1.5,10000000000.0]\n");
    assert_eq!(compact("[1.50,1E10]"), "[1.50,1E10]\n");
    assert_eq!(reference("\"\\u0041\\/\"", None), "\"A/\"\n");
    assert_eq!(compact("\"\\u0041\\/\""), "\"\\u0041\\/\"\n");
}
