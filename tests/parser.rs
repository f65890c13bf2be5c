use parser_combinator::foundation::Ctx;
use parser_combinator::parser::{bool_literal, call, ident, parse, Call, Expr};

#[test]
fn parser_test_bool_literal() {
    let ctx = Ctx::new("truefalsenull");
    let res = bool_literal(&ctx).unwrap();
    assert!(res.val());
    assert_eq!(res.index(), 4);
    assert_eq!(res.ctx().text_slice(), "falsenull");

    let ctx = res.ctx();
    let res = bool_literal(ctx).unwrap();
    assert!(!res.val());
    assert_eq!(res.index(), 9);
    assert_eq!(res.ctx().text_slice(), "null");

    let ctx = res.ctx();
    let res = bool_literal(ctx);
    assert!(res.is_err());
}

#[test]
fn parser_test_ident() {
    let ctx = Ctx::new("foo");
    let res = ident(&ctx).unwrap();
    assert_eq!(res.val(), "foo");
    assert_eq!(res.index(), 3);
    assert_eq!(res.ctx().text_slice(), "");

    let ctx = res.ctx();
    let res = ident(ctx);
    assert!(res.is_err());

    let ctx = Ctx::new("foo(");
    let res = ident(&ctx).unwrap();
    assert_eq!(res.val(), "foo");
    assert_eq!(res.index(), 3);
    assert_eq!(res.ctx().text_slice(), "(");
}

#[test]
fn parser_test_call() {
    let ctx = Ctx::new("foo()");
    let success = call(&ctx).unwrap();
    assert_eq!(success.index(), 5);
    assert_eq!(success.val.target, "foo");
    assert_eq!(success.val.args.len(), 0);

    let ctx = Ctx::new("Foo(Bar(1,2,true),false)");
    let success = call(&ctx).unwrap();
    assert_eq!(success.index(), 24);
    assert_eq!(success.val.target, "Foo");
    assert_eq!(success.val.args.len(), 2);
    assert_eq!(
        success.val.args[0],
        Expr::Call(Call {
            target: "Bar".to_string(),
            args: vec![Expr::Num(1), Expr::Num(2), Expr::Bool(true)]
        })
    );
    assert_eq!(success.val.args[1], Expr::Bool(false));
}

#[test]
fn parse_numbers_and_errors() {
    assert_eq!(parse("+12".to_string()), Ok(Expr::Num(12)));
    assert_eq!(parse("-12".to_string()), Ok(Expr::Num(-12)));
    assert_eq!(parse("true".to_string()), Ok(Expr::Bool(true)));
    assert_eq!(
        parse("Foo()".to_string()),
        Ok(Expr::Call(Call { target: "Foo".to_string(), args: vec![] }))
    );
    let err = parse("(".to_string()).unwrap_err();
    assert_eq!(err, "Parse error, expected true at char 0");
    assert!(parse("1.5".to_string()).is_err());
    assert!(parse("99999999999".to_string()).is_err());
}
