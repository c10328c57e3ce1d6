use jsurl::{deserialize, serialize, DeserializeError, ErrorKind, Number, Value};

fn number_from_json(n: &serde_json::Number) -> Number {
    if let Some(u) = n.as_u64() {
        Number::PosInt(u)
    } else if let Some(i) = n.as_i64() {
        Number::NegInt(i)
    } else {
        match n.as_f64() {
            Some(f) if f.is_finite() => Number::Float(f.to_string()),
            _ => Number::NonFinite,
        }
    }
}

fn from_json(v: &serde_json::Value) -> Value {
    match v {
        serde_json::Value::Null => Value::Null,
        serde_json::Value::Bool(b) => Value::Bool(*b),
        serde_json::Value::Number(n) => Value::Number(number_from_json(n)),
        serde_json::Value::String(s) => Value::String(s.clone()),
        serde_json::Value::Array(a) => Value::Array(a.iter().map(from_json).collect()),
        serde_json::Value::Object(o) => {
            Value::Object(o.iter().map(|(k, v)| (k.clone(), from_json(v))).collect())
        }
    }
}

fn json(text: &str) -> Value {
    let obj: serde_json::Value = serde_json::from_str(text).expect("invalid JSON");
    from_json(&obj)
}

fn assert_serialize_eq(json_str: &str, expected: &str) {
    let obj = json(json_str);
    let serialized = serialize(&obj);
    assert_eq!(serialized, expected);
}

fn assert_deserialize_eq(expected: &str, jsurl_str: &str) {
    let obj = json(expected);
    let deserialized = deserialize(jsurl_str).expect("invalid jsurl");
    assert_eq!(deserialized, obj);
}

#[test]
fn serialize_basic_values() {
    assert_serialize_eq("null", "~null");
    assert_serialize_eq("true", "~true");
    assert_serialize_eq("false", "~false");
    assert_serialize_eq("0", "~0");
    assert_serialize_eq("1", "~1");
    assert_serialize_eq("-1.5", "~-1.5");
}

#[test]
fn serialize_strings() {
    let s1 = Value::String("hello world\u{203c}".to_string());
    assert_eq!(serialize(&s1), "~'hello*20world**203c");

    let s2 = Value::String(" !\"#$%&'()*+,-./09:;<=>?@AZ[\\]^_`az{|}~".to_string());
    assert_eq!(serialize(&s2), "~'*20*21*22*23!*25*26*27*28*29*2a*2b*2c-.*2f09*3a*3b*3c*3d*3e*3f*40AZ*5b*5c*5d*5e_*60az*7b*7c*7d*7e");

    let s3 = Value::String("".to_string());
    assert_eq!(serialize(&s3), "~'");
}

#[test]
fn serialize_arrays() {
    assert_serialize_eq("[]", "~(~)");
    assert_serialize_eq("[1,2,3]", "~(~1~2~3)");
    assert_serialize_eq(
        r#"[null, false, 0, "hello world\u203c"]"#,
        "~(~null~false~0~'hello*20world**203c)",
    );
}

#[test]
fn serialize_objects() {
    assert_serialize_eq("{}", "~()");
    assert_serialize_eq(
        r#"{"c":null,"d":false,"e":0,"f":"hello world\u203c"}"#,
        "~(c~null~d~false~e~0~f~'hello*20world**203c)",
    );
    assert_serialize_eq(
        r#"{"a": [[1, 2],[], {}],"b": [],"c": {"d": "hello","e": {},"f": []}}"#,
        "~(a~(~(~1~2)~(~)~())~b~(~)~c~(d~'hello~e~()~f~(~)))",
    );
}

#[test]
fn serialize_example() {
    assert_serialize_eq(
        r#"{"name":"John Doe","age":42,"children":["Mary","Bill"]}"#,
        "~(name~'John*20Doe~age~42~children~(~'Mary~'Bill))",
    );
}

#[test]
fn deserialize_basic_values() {
    assert_deserialize_eq("null", "~null");
    assert_deserialize_eq("true", "~true");
    assert_deserialize_eq("false", "~false");
    assert_deserialize_eq("0", "~0");
    assert_deserialize_eq("1", "~1");
    assert_deserialize_eq("-1.5", "~-1.5");
}

#[test]
fn deserialize_strings() {
    let s1 = Value::String("hello world\u{203c}".to_string());
    assert_eq!(deserialize("~'hello*20world**203c").unwrap(), s1);

    let s2 = Value::String(" !\"#$%&'()*+,-./09:;<=>?@AZ[\\]^_`az{|}~".to_string());
    assert_eq!(deserialize("~'*20*21*22*23!*25*26*27*28*29*2a*2b*2c-.*2f09*3a*3b*3c*3d*3e*3f*40AZ*5b*5c*5d*5e_*60az*7b*7c*7d*7e").unwrap(), s2);
}

#[test]
fn deserialize_arrays() {
    assert_deserialize_eq("[]", "~(~)");
    assert_deserialize_eq("[1,2,3]", "~(~1~2~3)");
    assert_deserialize_eq(
        r#"[null, false, 0, "hello world\u203c"]"#,
        "~(~null~false~0~'hello*20world**203c)",
    );
}

#[test]
fn deserialize_objects() {
    assert_deserialize_eq("{}", "~()");
    assert_deserialize_eq(
        r#"{"c":null,"d":false,"e":0,"f":"hello world\u203c"}"#,
        "~(c~null~d~false~e~0~f~'hello*20world**203c)",
    );
    assert_deserialize_eq(
        r#"{"a": [[1, 2],[], {"a1": 3}],"b": [],"c": {"d": "hello","e": {},"f": []}}"#,
        "~(a~(~(~1~2)~(~)~(a1~3))~b~(~)~c~(d~'hello~e~()~f~(~)))",
    );
}

#[test]
fn deserialize_example() {
    assert_deserialize_eq(
        r#"{"name":"John Doe","age":42,"children":["Mary","Bill"]}"#,
        "~(name~'John*20Doe~age~42~children~(~'Mary~'Bill))",
    );
}

#[test]
fn deserialize_error() {
    assert_eq!(
        deserialize("").unwrap_err(),
        DeserializeError { kind: ErrorKind::UnexpectedEnd }
    );
    assert_eq!(
        deserialize("hello world").unwrap_err(),
        DeserializeError { kind: ErrorKind::UnexpectedChar }
    );
    assert_eq!(
        deserialize("~").unwrap_err(),
        DeserializeError { kind: ErrorKind::UnexpectedEnd }
    );
    assert_eq!(
        deserialize("~cool").unwrap_err(),
        DeserializeError { kind: ErrorKind::InvalidValue }
    );
}

fn object(members: Vec<(&str, Value)>) -> Value {
    Value::Object(members.into_iter().map(|(k, v)| (k.to_string(), v)).collect())
}

fn whole(i: i64) -> Value {
    if i < 0 {
        Value::Number(Number::NegInt(i))
    } else {
        Value::Number(Number::PosInt(i as u64))
    }
}

fn float(f: f64) -> Value {
    if f.is_finite() {
        Value::Number(Number::Float(f.to_string()))
    } else {
        Value::Number(Number::NonFinite)
    }
}

fn string(s: &str) -> Value {
    Value::String(s.to_string())
}

fn kind_of(s: &str) -> ErrorKind {
    deserialize(s).unwrap_err().kind
}

#[test]
fn round_trip_of_a_nested_value() {
    let v = object(vec![
        ("name", string("John Doe")),
        ("", whole(7)),
        ("tags", Value::Array(vec![string(""), string("a$b~c)d'e*f!g"), Value::Null])),
        ("deep", object(vec![("x", Value::Array(vec![])), ("y", object(vec![]))])),
        ("n", Value::Array(vec![whole(0), whole(-1), whole(i64::MIN), float(0.25), float(-1.5e-7)])),
        ("big", Value::Number(Number::PosInt(u64::MAX))),
        ("ok", Value::Bool(true)),
        ("k\u{e9}y \u{203c}", Value::Bool(false)),
    ]);
    let s = serialize(&v);
    assert_eq!(deserialize(&s).unwrap(), v);
}

#[test]
fn round_trip_of_each_scalar() {
    for v in [
        Value::Null,
        Value::Bool(true),
        Value::Bool(false),
        whole(42),
        whole(-42),
        float(3.5),
        float(1e300),
        float(-0.0),
        string("hello"),
        string("\u{ffff}\u{0}\u{7f}\u{80}\u{ff}\u{100}"),
    ] {
        let s = serialize(&v);
        assert_eq!(deserialize(&s).unwrap(), v, "through {}", s);
    }
}

#[test]
fn escape_round_trip_of_every_basic_plane_character() {
    let mut code: u32 = 0;
    while code <= 0xFFFF {
        if let Some(c) = char::from_u32(code) {
            let v = Value::String(c.to_string());
            let s = serialize(&v);
            assert_eq!(deserialize(&s).unwrap(), v, "U+{:04X} through {}", code, s);
        }
        code += 1;
    }
}

#[test]
fn escapes_are_written_exactly() {
    assert_eq!(serialize(&string("$")), "~'!");
    assert_eq!(serialize(&string("aZ09._-")), "~'aZ09._-");
    assert_eq!(serialize(&string("\u{0}")), "~'*00");
    assert_eq!(serialize(&string("\n")), "~'*0a");
    assert_eq!(serialize(&string("\u{e9}")), "~'*e9");
    assert_eq!(serialize(&string("\u{ff}")), "~'*ff");
    assert_eq!(serialize(&string("\u{100}")), "~'**0100");
    assert_eq!(serialize(&string("\u{abcd}")), "~'**abcd");
    assert_eq!(serialize(&string("\u{ffff}")), "~'**ffff");
}

#[test]
fn characters_above_the_basic_plane_get_longer_escapes() {
    assert_eq!(serialize(&string("\u{10000}")), "~'**10000");
    assert_eq!(serialize(&string("\u{1f600}")), "~'**1f600");
    assert_eq!(serialize(&string("\u{10ffff}")), "~'**10ffff");
    // Four digits are read back, and the rest stands for itself.
    assert_eq!(deserialize("~'**1f600").unwrap(), string("\u{1f60}0"));
    assert_eq!(deserialize("~'**10ffff").unwrap(), string("\u{10ff}ff"));
}

#[test]
fn escapes_are_read_in_either_case() {
    assert_eq!(deserialize("~'*2A*2a**203C**203c!").unwrap(), string("**\u{203c}\u{203c}$"));
    assert_eq!(deserialize("~'a(b'c").unwrap(), string("a(b'c"));
}

#[test]
fn integers_are_written_in_decimal() {
    assert_eq!(serialize(&whole(0)), "~0");
    assert_eq!(serialize(&whole(7)), "~7");
    assert_eq!(serialize(&whole(10)), "~10");
    assert_eq!(serialize(&whole(-10)), "~-10");
    assert_eq!(serialize(&whole(1234567890)), "~1234567890");
    assert_eq!(serialize(&whole(i64::MAX)), "~9223372036854775807");
    assert_eq!(serialize(&whole(i64::MIN)), "~-9223372036854775808");
    assert_eq!(serialize(&Value::Number(Number::PosInt(u64::MAX))), "~18446744073709551615");
    assert_eq!(serialize(&Value::Number(Number::NegInt(5))), "~5");
}

#[test]
fn floats_are_written_as_their_text() {
    assert_eq!(serialize(&float(-1.5)), "~-1.5");
    assert_eq!(serialize(&float(0.1)), "~0.1");
    assert_eq!(serialize(&Value::Number(Number::Float("2.50".to_string()))), "~2.50");
}

#[test]
fn non_finite_numbers_are_written_as_null() {
    let null = serialize(&Value::Null);
    assert_eq!(null, "~null");
    assert_eq!(serialize(&float(f64::NAN)), null);
    assert_eq!(serialize(&float(f64::INFINITY)), null);
    assert_eq!(serialize(&float(f64::NEG_INFINITY)), null);
    assert_eq!(serialize(&Value::Array(vec![float(f64::NAN), whole(1)])), "~(~null~1)");
}

#[test]
fn numbers_are_read_by_kind() {
    assert_eq!(deserialize("~42").unwrap(), Value::Number(Number::PosInt(42)));
    assert_eq!(deserialize("~0").unwrap(), Value::Number(Number::PosInt(0)));
    assert_eq!(deserialize("~-7").unwrap(), Value::Number(Number::NegInt(-7)));
    assert_eq!(
        deserialize("~18446744073709551615").unwrap(),
        Value::Number(Number::PosInt(u64::MAX))
    );
    assert_eq!(
        deserialize("~-9223372036854775808").unwrap(),
        Value::Number(Number::NegInt(i64::MIN))
    );
    assert_eq!(deserialize("~1.5").unwrap(), Value::Number(Number::Float("1.5".to_string())));
    assert_eq!(deserialize("~1.50").unwrap(), Value::Number(Number::Float("1.5".to_string())));
    assert_eq!(deserialize("~1e2").unwrap(), Value::Number(Number::Float("100".to_string())));
    assert_eq!(deserialize("~-0").unwrap(), Value::Number(Number::Float("-0".to_string())));
    assert_eq!(
        deserialize("~18446744073709551616").unwrap(),
        Value::Number(Number::Float("18446744073709552000".to_string()))
    );
    assert_eq!(
        deserialize("~-9223372036854775809").unwrap(),
        Value::Number(Number::Float("-9223372036854776000".to_string()))
    );
}

#[test]
fn a_float_with_an_integer_text_comes_back_as_an_integer() {
    let s = serialize(&float(1.0));
    assert_eq!(s, "~1");
    assert_eq!(deserialize(&s).unwrap(), whole(1));
}

#[test]
fn literals_that_are_no_values_are_refused() {
    for s in [
        "~cool", "~nul", "~nulll", "~True", "~-", "~1x", "~01", "~1.", "~.5", "~+1", "~1e", "~--1",
        "~~", "~)", "~*", "~1e999", "~ 1", "~0x10", "~NaN", "~inf", "~(~x)", "~(a~b)",
    ] {
        assert_eq!(kind_of(s), ErrorKind::InvalidValue, "for {}", s);
    }
}

#[test]
fn texts_that_end_too_early_are_refused() {
    for s in [
        "", "~", "~(", "~(~", "~(~1", "~(~1~2", "~(a", "~(a~1", "~(a~1~", "~(a~1~b", "~(~(~)",
        "~'*", "~'*2", "~'**", "~'**2", "~'**20", "~'**203", "~(a*", "~(a~'*4",
    ] {
        assert_eq!(kind_of(s), ErrorKind::UnexpectedEnd, "for {}", s);
    }
}

#[test]
fn characters_out_of_place_are_refused() {
    for s in ["hello world", "x", "(", "'a", "null", "~()x", "~(abc)", "~(a~1~)", "~(a~(~)x~1)",
        "~(~(~)x)", "~(a~()b~1)"]
    {
        let expected = if s == "~()x" { ErrorKind::TrailingInput } else { ErrorKind::UnexpectedChar };
        assert_eq!(kind_of(s), expected, "for {}", s);
    }
}

#[test]
fn escapes_that_name_no_character_are_refused() {
    for s in [
        "~'*zz", "~'*2g", "~'*g2", "~'**12zz", "~'**d800", "~'**dfff", "~'*~1", "~'*)1", "~'**~~~~",
        "~(a*zz~1)",
    ] {
        assert_eq!(kind_of(s), ErrorKind::InvalidEscape, "for {}", s);
    }
    assert_eq!(deserialize("~'**d7ff**e000").unwrap(), string("\u{d7ff}\u{e000}"));
}

#[test]
fn trailing_input_is_refused() {
    for s in [
        "~null~", "~null)", "~1~2", "~true)x", "~'abc~'def", "~'abc)", "~(~)~", "~(~)x", "~()~()",
        "~(a~1)b", "~(~1~2))", "~-1.5~",
    ] {
        assert_eq!(kind_of(s), ErrorKind::TrailingInput, "for {}", s);
    }
}

#[test]
fn more_text_after_a_bare_literal_is_part_of_it() {
    assert_eq!(deserialize("~12").unwrap(), whole(12));
    assert_eq!(deserialize("~'ab").unwrap(), string("ab"));
}

#[test]
fn empty_containers() {
    assert_eq!(serialize(&Value::Array(vec![])), "~(~)");
    assert_eq!(serialize(&object(vec![])), "~()");
    assert_eq!(deserialize("~(~)").unwrap(), Value::Array(vec![]));
    assert_eq!(deserialize("~()").unwrap(), object(vec![]));
    assert_eq!(
        deserialize("~(~(~)~())").unwrap(),
        Value::Array(vec![Value::Array(vec![]), object(vec![])])
    );
}

#[test]
fn literal_examples() {
    assert_eq!(serialize(&Value::Null), "~null");
    assert_eq!(deserialize("~null").unwrap(), Value::Null);
    assert_eq!(serialize(&string("hello world\u{203c}")), "~'hello*20world**203c");
    let john = object(vec![
        ("name", string("John Doe")),
        ("age", whole(42)),
        ("children", Value::Array(vec![string("Mary"), string("Bill")])),
    ]);
    let wire = "~(name~'John*20Doe~age~42~children~(~'Mary~'Bill))";
    assert_eq!(serialize(&john), wire);
    assert_eq!(deserialize(wire).unwrap(), john);
}

#[test]
fn a_key_that_comes_again_takes_the_later_value() {
    assert_eq!(deserialize("~(a~1~a~2)").unwrap(), object(vec![("a", whole(2))]));
    assert_eq!(
        deserialize("~(a~1~b~2~a~3~c~4~b~'x)").unwrap(),
        object(vec![("a", whole(3)), ("b", string("x")), ("c", whole(4))])
    );
}

#[test]
fn keys_are_escaped_like_strings() {
    let v = object(vec![("a b", whole(1)), ("$", whole(2)), ("", whole(3)), ("~)", Value::Null)]);
    assert_eq!(serialize(&v), "~(a*20b~1~!~2~~3~*7e*29~null)");
    assert_eq!(deserialize("~(a*20b~1~!~2~~3~*7e*29~null)").unwrap(), v);
}

#[test]
fn an_object_that_starts_with_an_empty_key_reads_as_an_array() {
    let v = object(vec![("", whole(1))]);
    assert_eq!(serialize(&v), "~(~1)");
    assert_eq!(deserialize("~(~1)").unwrap(), Value::Array(vec![whole(1)]));
}
