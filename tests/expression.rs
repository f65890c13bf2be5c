use parser_combinator::error::{ErrorKind, Expected};
use parser_combinator::expression::{bool_literal, call, expr, ident, number_literal, parse, Call, Expr};

#[test]
fn lib_test_bool_literal() {
    let (input, val) = bool_literal("truefalsenull").unwrap();
    assert!(val);
    assert_eq!(input, "falsenull");

    let (input, val) = bool_literal(input).unwrap();
    assert!(!val);
    assert_eq!(input, "null");

    let err = bool_literal(input).unwrap_err();
    assert_eq!(err.kind, ErrorKind::Mismatch);
    assert_eq!(err.offset, 0);
    assert_eq!(err.expected, Expected::Boolean);
}

#[test]
fn test_bool_number() {
    let (_, val) = number_literal("1").unwrap();
    assert_eq!(val, 1);

    let (_, val) = number_literal("+1").unwrap();
    assert_eq!(val, 1);

    let (_, val) = number_literal("+12").unwrap();
    assert_eq!(val, 12);

    let (_, val) = number_literal("-1").unwrap();
    assert_eq!(val, -1);

    let (_, val) = number_literal("-12").unwrap();
    assert_eq!(val, -12);

    let (input, val) = number_literal("-12a").unwrap();
    assert_eq!(val, -12);
    assert_eq!(input, "a");
}

#[test]
fn lib_test_ident() {
    let (input, val) = ident("foo").unwrap();
    assert_eq!(val, "foo");
    assert_eq!(input, "");

    let res = ident(input);
    assert!(res.is_err());

    let (input, val) = ident("foo(").unwrap();
    assert_eq!(val, "foo");
    assert_eq!(input, "(");

    let (input, val) = ident("foo2A3dEz(").unwrap();
    assert_eq!(val, "foo2A3dEz");
    assert_eq!(input, "(");
}

#[test]
fn lib_test_call() {
    let (input, val) = call("foo()").unwrap();
    assert_eq!(input, "");
    assert_eq!(val.target, "foo");
    assert_eq!(val.args.len(), 0);

    let (input, val) = call("Foo(Bar(1,2,true),false)").unwrap();
    assert_eq!(input, "");
    assert_eq!(val.target, "Foo");
    assert_eq!(val.args.len(), 2);
    assert_eq!(
        val.args[0],
        Expr::Call(Call {
            target: "Bar".to_string(),
            args: vec![Expr::Num(1), Expr::Num(2), Expr::Bool(true)]
        })
    );
    assert_eq!(val.args[1], Expr::Bool(false));
}

#[test]
fn number_overflow_and_missing_digits() {
    let err = number_literal("99999999999").unwrap_err();
    assert_eq!(err.offset, 11);
    assert_eq!(err.expected, Expected::Digit);
    let err = number_literal("-x").unwrap_err();
    assert_eq!(err.offset, 1);
    assert_eq!(number_literal("-2147483648").unwrap().1, i32::MIN);
}

#[test]
fn expressions_and_messages() {
    assert_eq!(parse("true"), Ok(Expr::Bool(true)));
    assert_eq!(parse("+12"), Ok(Expr::Num(12)));
    assert_eq!(
        parse("Foo(Bar())"),
        Ok(Expr::Call(Call {
            target: "Foo".to_string(),
            args: vec![Expr::Call(Call { target: "Bar".to_string(), args: vec![] })]
        }))
    );
    assert_eq!(parse("Foo(1,"), Err("Parse error, expected ')' at char 5".to_string()));
    let (rest, e) = expr("1,2").unwrap();
    assert_eq!(rest, ",2");
    assert_eq!(e, Expr::Num(1));
}
