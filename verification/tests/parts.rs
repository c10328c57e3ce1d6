use jsurl::{
    decode, eat, encode_string, hex2_to_unicode, hex4_to_unicode, hex_digit_to_value,
    parse_array, parse_object, parse_one, peek, peekn, serialize_helper, Cursor, DeserializeError,
    ErrorKind, Number, Value,
};

fn chars(s: &str) -> Vec<char> {
    s.chars().collect()
}

fn error(kind: ErrorKind) -> DeserializeError {
    DeserializeError { kind }
}

#[test]
fn hex_digits_have_their_values() {
    assert_eq!(hex_digit_to_value('0'), Some(0));
    assert_eq!(hex_digit_to_value('9'), Some(9));
    assert_eq!(hex_digit_to_value('a'), Some(10));
    assert_eq!(hex_digit_to_value('f'), Some(15));
    assert_eq!(hex_digit_to_value('A'), Some(10));
    assert_eq!(hex_digit_to_value('F'), Some(15));
    for c in ['g', 'G', '/', ':', '@', '`', ' ', '~', '\u{ff10}'] {
        assert_eq!(hex_digit_to_value(c), None, "for {:?}", c);
    }
}

#[test]
fn two_hex_digits_name_a_character() {
    assert_eq!(hex2_to_unicode('2', '0'), Some(' '));
    assert_eq!(hex2_to_unicode('7', 'E'), Some('~'));
    assert_eq!(hex2_to_unicode('0', '0'), Some('\u{0}'));
    assert_eq!(hex2_to_unicode('f', 'f'), Some('\u{ff}'));
    assert_eq!(hex2_to_unicode('g', '0'), None);
    assert_eq!(hex2_to_unicode('0', 'g'), None);
}

#[test]
fn four_hex_digits_name_a_character() {
    assert_eq!(hex4_to_unicode('2', '0', '3', 'c'), Some('\u{203c}'));
    assert_eq!(hex4_to_unicode('0', '0', '4', '1'), Some('A'));
    assert_eq!(hex4_to_unicode('F', 'F', 'F', 'F'), Some('\u{ffff}'));
    assert_eq!(hex4_to_unicode('d', '7', 'f', 'f'), Some('\u{d7ff}'));
    assert_eq!(hex4_to_unicode('d', '8', '0', '0'), None);
    assert_eq!(hex4_to_unicode('d', 'f', 'f', 'f'), None);
    assert_eq!(hex4_to_unicode('e', '0', '0', '0'), Some('\u{e000}'));
    assert_eq!(hex4_to_unicode('1', '2', '3', 'x'), None);
}

#[test]
fn encode_string_appends() {
    let mut out = String::from("x=");
    encode_string("a b$c\u{203c}", &mut out);
    assert_eq!(out, "x=a*20b!c**203c");
    encode_string("", &mut out);
    assert_eq!(out, "x=a*20b!c**203c");
}

#[test]
fn serialize_helper_appends() {
    let mut out = String::from("v=");
    serialize_helper(&Value::Array(vec![Value::Number(Number::NegInt(-3))]), &mut out);
    assert_eq!(out, "v=~(~-3)");
}

#[test]
fn the_cursor_looks_ahead_without_reading() {
    let input = chars("ab~");
    let mut cur = Cursor::new(&input);
    assert!(!cur.at_end());
    assert_eq!(peek(&cur), Some('a'));
    assert_eq!(peekn(&cur, 0), Some('a'));
    assert_eq!(peekn(&cur, 1), Some('b'));
    assert_eq!(peekn(&cur, 2), Some('~'));
    assert_eq!(peekn(&cur, 3), None);
    assert_eq!(peekn(&cur, usize::MAX), None);
    assert_eq!(cur.pos, 0);
    assert_eq!(cur.next(), Some('a'));
    assert_eq!(cur.next(), Some('b'));
    assert_eq!(peek(&cur), Some('~'));
    assert_eq!(cur.next(), Some('~'));
    assert_eq!(cur.next(), None);
    assert_eq!(peek(&cur), None);
    assert_eq!(cur.pos, 3);
    assert!(cur.at_end());
}

#[test]
fn eat_reads_the_expected_character_only() {
    let input = chars("~(");
    let mut cur = Cursor::new(&input);
    assert_eq!(eat(&mut cur, '('), Err(error(ErrorKind::UnexpectedChar)));
    assert_eq!(cur.pos, 0);
    assert_eq!(eat(&mut cur, '~'), Ok(()));
    assert_eq!(cur.pos, 1);
    assert_eq!(eat(&mut cur, '('), Ok(()));
    assert_eq!(cur.pos, 2);
    assert_eq!(eat(&mut cur, '('), Err(error(ErrorKind::UnexpectedEnd)));
    assert_eq!(cur.pos, 2);
}

#[test]
fn decode_stops_at_the_end_of_the_run() {
    let input = chars("John*20Doe~age");
    let mut cur = Cursor::new(&input);
    assert_eq!(decode(&mut cur), Ok("John Doe".to_string()));
    assert_eq!(cur.pos, 10);
    assert_eq!(decode(&mut cur), Ok(String::new()));
    assert_eq!(cur.pos, 10);

    let input = chars("a!b)");
    let mut cur = Cursor::new(&input);
    assert_eq!(decode(&mut cur), Ok("a$b".to_string()));
    assert_eq!(cur.pos, 3);

    let input = chars("**203c");
    let mut cur = Cursor::new(&input);
    assert_eq!(decode(&mut cur), Ok("\u{203c}".to_string()));
    assert_eq!(cur.pos, 6);
}

#[test]
fn decode_leaves_the_cursor_on_an_error() {
    let input = chars("ab*2");
    let mut cur = Cursor::new(&input);
    assert_eq!(decode(&mut cur), Err(error(ErrorKind::UnexpectedEnd)));
    assert_eq!(cur.pos, 0);

    let input = chars("xy*zz~");
    let mut cur = Cursor::new(&input);
    cur.pos = 1;
    assert_eq!(decode(&mut cur), Err(error(ErrorKind::InvalidEscape)));
    assert_eq!(cur.pos, 1);
}

#[test]
fn parse_one_reads_one_value_and_stops() {
    let input = chars("~1~'two~(~3)~(k~4)rest");
    let mut cur = Cursor::new(&input);
    assert_eq!(parse_one(&mut cur), Ok(Value::Number(Number::PosInt(1))));
    assert_eq!(cur.pos, 2);
    assert_eq!(parse_one(&mut cur), Ok(Value::String("two".to_string())));
    assert_eq!(cur.pos, 7);
    assert_eq!(parse_one(&mut cur), Ok(Value::Array(vec![Value::Number(Number::PosInt(3))])));
    assert_eq!(cur.pos, 12);
    assert_eq!(
        parse_one(&mut cur),
        Ok(Value::Object(vec![("k".to_string(), Value::Number(Number::PosInt(4)))]))
    );
    assert_eq!(cur.pos, 18);
    assert_eq!(parse_one(&mut cur), Err(error(ErrorKind::UnexpectedChar)));
    assert_eq!(cur.pos, 18);
}

#[test]
fn parse_one_leaves_the_cursor_on_an_error() {
    let input = chars("~(a~(~1~'*zz))");
    let mut cur = Cursor::new(&input);
    assert_eq!(parse_one(&mut cur), Err(error(ErrorKind::InvalidEscape)));
    assert_eq!(cur.pos, 0);
}

#[test]
fn parse_array_reads_the_body_of_an_array() {
    let input = chars("~)");
    let mut cur = Cursor::new(&input);
    assert_eq!(parse_array(&mut cur), Ok(Value::Array(vec![])));
    assert_eq!(cur.pos, 2);

    let input = chars("~true~null)~");
    let mut cur = Cursor::new(&input);
    assert_eq!(parse_array(&mut cur), Ok(Value::Array(vec![Value::Bool(true), Value::Null])));
    assert_eq!(cur.pos, 11);

    let input = chars("~true~null");
    let mut cur = Cursor::new(&input);
    assert_eq!(parse_array(&mut cur), Err(error(ErrorKind::UnexpectedEnd)));
    assert_eq!(cur.pos, 0);
}

#[test]
fn parse_object_reads_the_body_of_an_object() {
    let input = chars(")");
    let mut cur = Cursor::new(&input);
    assert_eq!(parse_object(&mut cur), Ok(Value::Object(vec![])));
    assert_eq!(cur.pos, 1);

    let input = chars("a~1~b~'x)~");
    let mut cur = Cursor::new(&input);
    assert_eq!(
        parse_object(&mut cur),
        Ok(Value::Object(vec![
            ("a".to_string(), Value::Number(Number::PosInt(1))),
            ("b".to_string(), Value::String("x".to_string())),
        ]))
    );
    assert_eq!(cur.pos, 9);

    let input = chars("a~1~b~'x");
    let mut cur = Cursor::new(&input);
    assert_eq!(parse_object(&mut cur), Err(error(ErrorKind::UnexpectedEnd)));
    assert_eq!(cur.pos, 0);
}

#[test]
fn a_float_is_made_from_a_text_that_comes_back() {
    for s in ["1.5", "-1.5", "0.1", "-0", "0.30000000000000004", "100000000000000000000"] {
        let n = Number::float(s);
        assert_eq!(n, Some(Number::Float(s.to_string())), "for {}", s);
        let v = Value::Number(n.unwrap());
        let wire = jsurl::serialize(&v);
        assert_eq!(wire, format!("~{}", s));
        assert_eq!(jsurl::deserialize(&wire), Ok(v));
    }
}

#[test]
fn a_float_is_not_made_from_any_other_text() {
    for s in [
        "", "1", "-7", "0", "1.50", "1e2", "1E2", "01.5", ".5", "1.", "abc", "null", "NaN", "inf",
        "1~2", "1.5)", "~1.5", "1e999", "+1.5", " 1.5", "1.5 ",
    ] {
        assert_eq!(Number::float(s), None, "for {:?}", s);
    }
}
