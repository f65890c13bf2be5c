use parser_combinator::combinator::{any, delimited, delimited_left, many, separated};
use parser_combinator::foundation::{Ctx, ParseResult};
use regex::Regex;

#[test]
fn test_new() {
    let ctx = Ctx::new("Hello, world!");
    assert_eq!(ctx.text, "Hello, world!");
    assert_eq!(ctx.index, 0);
}

#[test]
fn test_next() {
    let ctx = Ctx::new("Hello, world!");
    let ctx = ctx.next(5);
    assert_eq!(ctx.text, "Hello, world!");
    assert_eq!(ctx.index, 5);

    let ctx = ctx.next(80);
    assert_eq!(ctx.text, "Hello, world!");
    assert_eq!(ctx.index, ctx.text.len());
}

#[test]
fn test_skip() {
    let ctx = Ctx::new("Hello, world!");
    let ctx = ctx.skip(5);
    assert_eq!(ctx.text, "Hello, world!");
    assert_eq!(ctx.index, 5);

    let ctx = ctx.skip(2);
    assert_eq!(ctx.text, "Hello, world!");
    assert_eq!(ctx.index, 7);

    let ctx = ctx.skip(30);
    assert_eq!(ctx.text, "Hello, world!");
    assert_eq!(ctx.index, ctx.text.len());
}

#[test]
fn test_parse_str_success() {
    let ctx = Ctx::new("Hello, world!");

    let success = ctx.parse_str("Hello".to_string()).unwrap();

    assert_eq!(success.val(), "Hello");
    assert_eq!(success.index(), 5);
}

#[test]
fn test_parse_str_failure() {
    let ctx = Ctx::new("Hello, world!");

    let failure = ctx.parse_str("world".to_string()).unwrap_err();

    assert_eq!(failure.expected(), "world");
    assert_eq!(failure.index(), 0);
}

#[test]
fn test_parse_regex_success() {
    let ctx = Ctx::new("Hello, world!");

    let re = Regex::new(r"[A-Za-z]+").unwrap();

    let parser = |ctx: &Ctx| ctx.parse_regex(re.clone(), "A word".to_string());

    let success = parser(&ctx).unwrap();
    assert_eq!(success.val(), "Hello");
    assert_eq!(success.index(), 5);

    let ctx = success.ctx().skip(2);
    let result = parser(&ctx);
    match result {
        Ok(success) => {
            assert_eq!(success.val(), "world");
            assert_eq!(success.index(), 12);
        }
        Err(failure) => panic!("{:?}", failure),
    }
}

#[test]
fn test_parse_regex_failure() {
    let ctx = Ctx::new("Hello, world!").skip(5);

    let re = Regex::new(r"^[0-9]+$").unwrap();

    let failure = ctx.parse_regex(re, "A number".to_string()).unwrap_err();

    assert_eq!(failure.expected(), "A number");
    assert_eq!(failure.index(), 5);
}

#[test]
fn test_ctx_compare() {
    let ctx = Ctx::new("Hello, world!");
    let ctx1 = ctx.next(5);
    let ctx2 = ctx.next(5);
    assert_eq!(ctx1, ctx2);
}

#[test]
fn test_success() {
    let ctx = Ctx::new("Hello, world!");
    let ctx = ctx.next(5).success("Hello".to_string());
    assert_eq!(ctx.ctx.text, "Hello, world!");
    assert_eq!(ctx.ctx.index, 5);
    assert_eq!(ctx.val, "Hello");
}

#[test]
fn test_failure() {
    let ctx = Ctx::new("Hello, world!");
    let ctx = ctx.next(5).failure("Hello".to_string());
    assert_eq!(ctx.ctx.text, "Hello, world!");
    assert_eq!(ctx.ctx.index, 5);
    assert_eq!(ctx.expected, "Hello");
}

#[test]
fn test_ctx_success() {
    let ctx = Ctx::new("Hello, world!").next(5);
    let success = ctx.success("Hello".to_string());
    assert_eq!(*success.ctx(), ctx);
    assert_eq!(*success.val(), "Hello".to_string());
}

#[test]
fn test_ctx_failure() {
    let ctx = Ctx::new("Hello, world!").next(5);
    let failure = ctx.failure("expected space".to_string());
    assert_eq!(failure.ctx, ctx);
    assert_eq!(failure.expected(), "expected space".to_string());
}

#[test]
fn accept_match_only_at_the_offset() {
    let ctx = Ctx::new("Hello, world!").skip(7);
    let ok = ctx.accept_match(Some((0, 5, "world".to_string())), "w".to_string()).unwrap();
    assert_eq!(ok.val, "world");
    assert_eq!(ok.index(), 12);
    let err = ctx.accept_match(Some((1, 5, "orld".to_string())), "w".to_string()).unwrap_err();
    assert_eq!(err.index(), 7);
    assert_eq!(err.expected(), "w");
    assert!(ctx.accept_match(None, "w".to_string()).is_err());
}

#[test]
fn any_reports_the_furthest_failure() {
    let ctx = Ctx::new("abcdef");
    let alts = |i: usize, c: &Ctx| -> ParseResult<String> {
        match i {
            0 => Err(c.failure("zero".to_string())),
            1 => Err(c.skip(3).failure("three".to_string())),
            _ => Err(c.skip(1).failure("one".to_string())),
        }
    };
    let failure = any(&alts, 3, &ctx).unwrap_err();
    assert_eq!(failure.expected(), "three");
    assert_eq!(failure.index(), 3);
}

#[test]
fn any_keeps_the_first_of_equally_far_failures() {
    let ctx = Ctx::new("abcdef");
    let alts = |i: usize, c: &Ctx| -> ParseResult<String> {
        match i {
            0 => Err(c.skip(2).failure("first".to_string())),
            _ => Err(c.skip(2).failure("second".to_string())),
        }
    };
    assert_eq!(any(&alts, 2, &ctx).unwrap_err().expected(), "first");
    assert_eq!(any(&alts, 0, &ctx).unwrap_err().expected(), "any");
}

#[test]
fn any_takes_the_first_match() {
    let ctx = Ctx::new("abcdef");
    let alts = |i: usize, c: &Ctx| -> ParseResult<String> {
        match i {
            0 => Err(c.skip(4).failure("far".to_string())),
            1 => c.parse_str("ab".to_string()),
            _ => c.parse_str("abc".to_string()),
        }
    };
    let success = any(&alts, 3, &ctx).unwrap();
    assert_eq!(success.val, "ab");
    assert_eq!(success.index(), 2);
}

#[test]
fn many_collects_until_a_mismatch() {
    let ctx = Ctx::new("ababx");
    let ab = |c: &Ctx| c.parse_str("ab".to_string());
    let success = many(&ab, &ctx).unwrap();
    assert_eq!(success.val.len(), 2);
    assert_eq!(success.index(), 4);
    let none = many(&ab, &Ctx::new("x")).unwrap();
    assert_eq!(none.val.len(), 0);
    assert_eq!(none.index(), 0);
}

#[test]
fn delimited_keeps_the_middle() {
    let ctx = Ctx::new("(a)");
    let open = |c: &Ctx| c.parse_str("(".to_string());
    let a = |c: &Ctx| c.parse_str("a".to_string());
    let close = |c: &Ctx| c.parse_str(")".to_string());
    let success = delimited(&open, &a, &close, &ctx).unwrap();
    assert_eq!(success.val, "a");
    assert_eq!(success.index(), 3);
    let failure = delimited(&open, &a, &close, &Ctx::new("(a]")).unwrap_err();
    assert_eq!(failure.expected(), ")");
    assert_eq!(failure.index(), 2);
    let success = delimited_left(&open, &a, &ctx).unwrap();
    assert_eq!(success.index(), 2);
}

#[test]
fn separated_leaves_a_dangling_separator() {
    let comma = |c: &Ctx| c.parse_str(",".to_string());
    let a = |c: &Ctx| c.parse_str("a".to_string());
    let success = separated(&comma, &a, &Ctx::new("a,a,]")).unwrap();
    assert_eq!(success.val.len(), 2);
    assert_eq!(success.index(), 3);
    let empty = separated(&comma, &a, &Ctx::new("]")).unwrap();
    assert_eq!(empty.val.len(), 0);
    assert_eq!(empty.index(), 0);
}
