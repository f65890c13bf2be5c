use parser_combinator::error::{ErrorKind, Expected};
use parser_combinator::json::JValue;
use parser_combinator::json::JValue::{Bool, Null};

#[test]
fn parse_str() {
    let Ok(("", JValue::Str(text))) = JValue::parse(r#""this1234""#) else {
        unreachable!();
    };
    assert_eq!(text, "this1234");
}

#[test]
fn parse_num() {
    let Ok(("", JValue::Num(num))) = JValue::parse("-12000") else {
        unreachable!();
    };
    assert_eq!(format!("Dec({})", num.to_string()), "Dec(-12000)");

    let Ok(("", JValue::Num(num))) = JValue::parse("123.01") else {
        unreachable!();
    };
    assert_eq!(format!("Dec({})", num.to_string()), "Dec(0.12301e3)");
}

#[test]
fn parse_bool_or_null() {
    let Ok(("", JValue::Bool(true))) = JValue::parse("true") else {
        unreachable!();
    };

    let Ok(("", JValue::Bool(false))) = JValue::parse("false") else {
        unreachable!();
    };

    let Ok(("", JValue::Null)) = JValue::parse("null") else {
        unreachable!();
    };

    JValue::parse("trueish").unwrap_err();
    JValue::parse("falseish").unwrap_err();
    JValue::parse("nullish").unwrap_err();
}

#[test]
fn parse_complex_obj() {
    let json = r#"
      {
        "a": [
          1,
          "hola",
          {
            "x": true
          }
        ],
        "b": {
          "y": [true, false, null]
        }
      }
    "#;

    let Ok(("", JValue::Obj(obj))) = JValue::parse(json) else {
        unreachable!();
    };

    {
        let Some(JValue::Array(array)) = obj.get(&"a".to_string()) else {
            unreachable!();
        };
        assert!(matches!(&array[0], JValue::Num(d) if format!("Num(Dec({}))", d.to_string()) == "Num(Dec(1))"));
        assert_eq!(array[1], JValue::Str("hola".to_string()));

        let JValue::Obj(obj1) = &array[2] else {
            unreachable!()
        };
        let Some(JValue::Bool(true)) = obj1.get(&"x".to_string()) else {
            unreachable!()
        };
    }

    {
        let Some(JValue::Obj(b)) = obj.get(&"b".to_string()) else {
            unreachable!();
        };
        let Some(JValue::Array(array)) = b.get(&"y".to_string()) else {
            unreachable!();
        };

        assert_eq!(array, &[Bool(true), Bool(false), Null]);
    }
}

#[test]
fn whitespace_around_everything() {
    let input = "  {  \"a\" : 1 , \"b\" : [true, false, null]  }  ";
    let (rest, value) = JValue::parse(input).unwrap();
    assert_eq!(rest, "");
    let JValue::Obj(obj) = value else {
        unreachable!();
    };
    assert_eq!(obj.entries.len(), 2);
    let Some(JValue::Num(a)) = obj.get(&"a".to_string()) else {
        unreachable!();
    };
    assert!(a.is_int());
    assert_eq!(a.to_string(), "1");
    let Some(JValue::Array(b)) = obj.get(&"b".to_string()) else {
        unreachable!();
    };
    assert_eq!(b, &[JValue::Bool(true), JValue::Bool(false), JValue::Null]);
}

#[test]
fn string_escapes() {
    let (rest, value) = JValue::parse("\"a\\\"b\\n\"").unwrap();
    assert_eq!(rest, "");
    assert_eq!(value, JValue::Str("a\"b\n".to_string()));
    let (_, value) = JValue::parse(r#""\t\r\\""#).unwrap();
    assert_eq!(value, JValue::Str("\t\r\\".to_string()));
}

#[test]
fn malformed_strings_fail_hard() {
    let err = JValue::parse(r#""a\qb""#).unwrap_err();
    assert_eq!(err.kind, ErrorKind::Failure);
    assert_eq!(err.offset, 2);
    assert_eq!(err.expected, Expected::Escape);
    let err = JValue::parse("\"ab").unwrap_err();
    assert_eq!(err.kind, ErrorKind::Failure);
    assert_eq!(err.offset, 3);
    let err = JValue::parse("\"a\u{1}\"").unwrap_err();
    assert_eq!(err.kind, ErrorKind::Failure);
    assert_eq!(err.expected, Expected::Printable);
    let err = JValue::parse("\"é\"").unwrap_err();
    assert_eq!(err.kind, ErrorKind::Failure);
}

#[test]
fn trailing_separator_is_rejected() {
    let err = JValue::parse("[1,2,]").unwrap_err();
    assert_eq!(err.kind, ErrorKind::Mismatch);
    assert_eq!(err.offset, 4);
    assert_eq!(err.expected, Expected::Char(b']'));
    assert!(JValue::parse(r#"{"a":1,}"#).is_err());
}

#[test]
fn empty_containers() {
    let (rest, value) = JValue::parse("[]").unwrap();
    assert_eq!(rest, "");
    assert_eq!(value, JValue::Array(vec![]));
    let (rest, value) = JValue::parse("{}").unwrap();
    assert_eq!(rest, "");
    let JValue::Obj(obj) = value else {
        unreachable!();
    };
    assert!(obj.entries.is_empty());
}

#[test]
fn duplicate_keys_keep_the_last_value() {
    let (_, value) = JValue::parse(r#"{"k": 1, "k": true, "j": null}"#).unwrap();
    let JValue::Obj(obj) = value else {
        unreachable!();
    };
    assert_eq!(obj.entries.len(), 2);
    assert_eq!(obj.get(&"k".to_string()), Some(&JValue::Bool(true)));
    assert_eq!(obj.get(&"j".to_string()), Some(&JValue::Null));
    assert_eq!(obj.get(&"z".to_string()), None);
}

#[test]
fn unknown_identifier_fails_hard() {
    let err = JValue::parse("nulltrue").unwrap_err();
    assert_eq!(err.kind, ErrorKind::Failure);
    assert_eq!(err.expected, Expected::Literal);
    let err = JValue::parse("[1, yes]").unwrap_err();
    assert_eq!(err.kind, ErrorKind::Failure);
    assert_eq!(err.offset, 4);
}

#[test]
fn furthest_mismatch_is_reported() {
    let err = JValue::parse("").unwrap_err();
    assert_eq!(err.kind, ErrorKind::Mismatch);
    assert_eq!(err.offset, 0);
    assert_eq!(err.expected, Expected::Char(b'"'));
    let err = JValue::parse("-x").unwrap_err();
    assert_eq!(err.offset, 1);
    assert_eq!(err.expected, Expected::Digit);
}

#[test]
fn remaining_input_is_returned() {
    let (rest, value) = JValue::parse("true , 1").unwrap();
    assert_eq!(rest, ", 1");
    assert_eq!(value, JValue::Bool(true));
    let (rest, _) = JValue::parse("1é").unwrap();
    assert_eq!(rest, "é");
}
