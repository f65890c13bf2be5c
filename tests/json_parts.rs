use parser_combinator::error::ErrorKind;
use parser_combinator::expression::ident;
use parser_combinator::json::{raw_array, raw_bool_or_null, raw_num, raw_obj, raw_str, whitespace, JValue};

#[test]
fn whitespace_test() {
    let msg = "whitespace never must fail";
    let (input, _) = whitespace("   \n\r  \n  \r   \t   abc").expect(msg);
    assert_eq!(input, "abc");

    let (input, _) = whitespace(input).expect(msg);
    assert_eq!(input, "abc");
}

#[test]
fn commons_test_ident() {
    let (input, val) = ident("foo").unwrap();
    assert_eq!(val, "foo");
    assert_eq!(input, "");

    let res = ident(input);
    assert!(res.is_err());

    let (input, val) = ident("foo(").unwrap();
    assert_eq!(val, "foo");
    assert_eq!(input, "(");

    let (input, val) = ident("foo2A3dEz(").unwrap();
    assert_eq!(val, "foo2A3dEz");
    assert_eq!(input, "(");
}

#[test]
fn test_array() {
    let Ok(("", vec)) = raw_array(r#"["this123", 123, true, false, null]"#) else {
        unreachable!()
    };
    assert_eq!(vec[0], JValue::Str("this123".to_string()));
    assert!(matches!(&vec[1], JValue::Num(d) if format!("Num(Dec({}))", d.to_string()) == "Num(Dec(123))"));
    assert_eq!(vec[2], JValue::Bool(true));
    assert_eq!(vec[3], JValue::Bool(false));
    assert_eq!(vec[4], JValue::Null);
}

#[test]
fn test_null() {
    let Ok(("", JValue::Null)) = raw_bool_or_null("null") else {
        unreachable!();
    };
    let Ok((",", JValue::Null)) = raw_bool_or_null("null,") else {
        unreachable!();
    };
    let Err(_) = raw_bool_or_null("nulltrue") else {
        unreachable!();
    };
}

#[test]
fn test_false() {
    let Ok(("", JValue::Bool(false))) = raw_bool_or_null("false") else {
        unreachable!();
    };
    let Ok((",", JValue::Bool(false))) = raw_bool_or_null("false,") else {
        unreachable!();
    };
    let Err(_) = raw_bool_or_null("falsenull") else {
        unreachable!();
    };
}

#[test]
fn test_true() {
    let Ok(("", JValue::Bool(true))) = raw_bool_or_null("true") else {
        unreachable!();
    };
    let Ok((",", JValue::Bool(true))) = raw_bool_or_null("true,") else {
        unreachable!();
    };
    let Err(_) = raw_bool_or_null("truenull") else {
        unreachable!();
    };
}

#[test]
fn test_obj() {
    let Ok(("", obj)) = raw_obj(r#"{"a": "this123", "b": 123, "c": true, "d": false, "e": null}"#) else {
        unreachable!()
    };
    assert_eq!(
        obj.get(&"a".to_string()).unwrap(),
        &JValue::Str("this123".to_string())
    );
    assert!(matches!(obj.get(&"b".to_string()).unwrap(), JValue::Num(d) if format!("Num(Dec({}))", d.to_string()) == "Num(Dec(123))"));
    assert_eq!(obj.get(&"c".to_string()).unwrap(), &JValue::Bool(true));
    assert_eq!(obj.get(&"d".to_string()).unwrap(), &JValue::Bool(false));
    assert_eq!(obj.get(&"e".to_string()).unwrap(), &JValue::Null);
}

#[test]
fn test_basic_string() {
    let (rest, result) = raw_str(r#""""#).expect("Empty string");
    assert_eq!(rest, "");
    assert_eq!(result, "");

    let (rest, result) = raw_str(r#""  ""#).expect("String with whitespaces");
    assert_eq!(rest, "");
    assert_eq!(result, "  ");

    let (rest, result) = raw_str(r#""this 1234""#).expect("string with alphanumerics and a whitespace");
    assert_eq!(rest, "");
    assert_eq!(result, "this 1234");

    let Ok((input, result)) = raw_str(r#""this is an \"string\" with numbers 1234!""#) else {
        unreachable!()
    };
    assert_eq!(input, "");
    assert_eq!(result, r#"this is an "string" with numbers 1234!"#);
}

#[test]
fn raw_num_reads_a_decimal() {
    let (rest, v) = raw_num("-0.5e2]").unwrap();
    assert_eq!(rest, "]");
    let JValue::Num(d) = v else {
        unreachable!();
    };
    assert_eq!(d.data, vec![0, 5]);
    assert_eq!(d.exponent, 3);
    assert_eq!(d.to_string(), "-050");
    assert_eq!(raw_num("x").unwrap_err().kind, ErrorKind::Mismatch);
}

#[test]
fn containers_do_not_take_inner_whitespace_before_closing() {
    assert!(raw_array("[ ]").is_err());
    assert!(raw_obj("{ }").is_err());
    assert_eq!(raw_array("[ 1 ]").unwrap().1.len(), 1);
}
