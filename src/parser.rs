use crate::combinator::{
    alternatives, any, delimited, lemma_alternatives_first_match, lemma_alternatives_member,
    reachable, separated, stays_on,
};
use crate::decimal::{i32_value, parse_i32};
use crate::error::failure_message;
use crate::foundation::{Ctx, Failure, ParseResult, Success};
use crate::text::lemma_encode_nonempty;
use vstd::prelude::*;
use vstd::utf8::encode_utf8;

verus! {

/// A call: a target name and its arguments.
#[derive(Debug, PartialEq)]
pub struct Call {
    pub target: String,
    pub args: Vec<Expr>,
}

/// An expression: a number, a boolean or a call.
#[derive(Debug, PartialEq)]
pub enum Expr {
    Num(i32),
    Bool(bool),
    Call(Call),
}

/// Relies on `regex::Regex::new`: compiles `pattern`, `None` when it is
/// not a valid pattern.
#[verifier::external_body]
fn compile(pattern: &str) -> (r: Option<regex::Regex>) {
    regex::Regex::new(pattern).ok()
}

/// Matches the word `word` and gives `val`.
fn keyword(c: &Ctx, word: &str, val: bool) -> (r: ParseResult<bool>)
    requires
        c.wf(),
    ensures
        c.matches_at(encode_utf8(word@)) ==> r == Ok::<Success<bool>, Failure>(
            Success { ctx: c.at(c.index + encode_utf8(word@).len()), val },
        ),
        !c.matches_at(encode_utf8(word@)) ==> (r matches Err(f) && f.ctx == *c),
{
    match c.parse_str(word.to_owned()) {
        Ok(s) => Ok(s.ctx.success(val)),
        Err(f) => Err(f),
    }
}

/// `true` or `false`.
pub fn bool_literal(ctx: &Ctx) -> (r: ParseResult<bool>)
    requires
        ctx.wf(),
    ensures
        stays_on(*ctx, r),
        ctx.matches_at(encode_utf8("true"@)) ==> r == Ok::<Success<bool>, Failure>(
            Success { ctx: ctx.at(ctx.index + encode_utf8("true"@).len()), val: true },
        ),
        !ctx.matches_at(encode_utf8("true"@)) && ctx.matches_at(encode_utf8("false"@)) ==> r
            == Ok::<Success<bool>, Failure>(
            Success { ctx: ctx.at(ctx.index + encode_utf8("false"@).len()), val: false },
        ),
        !ctx.matches_at(encode_utf8("true"@)) && !ctx.matches_at(encode_utf8("false"@)) ==> (r matches Err(
            f,
        ) && f.ctx == *ctx),
{
    let alts = |i: usize, c: &Ctx| -> (r: ParseResult<bool>)
        requires
            c.wf(),
        ensures
            i == 0 ==> (c.matches_at(encode_utf8("true"@)) ==> r == Ok::<Success<bool>, Failure>(
                Success { ctx: c.at(c.index + encode_utf8("true"@).len()), val: true },
            )) && (!c.matches_at(encode_utf8("true"@)) ==> (r matches Err(f) && f.ctx == *c)),
            i != 0 ==> (c.matches_at(encode_utf8("false"@)) ==> r == Ok::<Success<bool>, Failure>(
                Success { ctx: c.at(c.index + encode_utf8("false"@).len()), val: false },
            )) && (!c.matches_at(encode_utf8("false"@)) ==> (r matches Err(f) && f.ctx == *c)),
        {
            if i == 0 {
                keyword(c, "true", true)
            } else {
                keyword(c, "false", false)
            }
        };
    let r = any(&alts, 2, ctx);
    proof {
        let rs = choose|rs: Seq<ParseResult<bool>>|
            {
                &&& 0 < rs.len() <= 2
                &&& forall|j: int| 0 <= j < rs.len() ==> alts.ensures((j as usize, ctx), #[trigger] rs[j])
                &&& rs.len() < 2 ==> rs.last() is Ok
                &&& r == alternatives(rs)
            };
        assert(alts.ensures((0usize, ctx), rs[0]));
        if rs.len() == 2 {
            assert(alts.ensures((1usize, ctx), rs[1]));
            assert(rs.drop_last().len() == 1);
            assert(alternatives(rs.drop_last()) == rs[0]);
        } else {
            assert(alternatives(rs) == rs[0]);
        }
    }
    r
}

/// An identifier, `[a-zA-Z_][a-zA-Z0-9_]*`.
pub fn ident(ctx: &Ctx) -> (r: ParseResult<String>)
    requires
        ctx.wf(),
    ensures
        stays_on(*ctx, r),
        r matches Ok(s) ==> ctx.index < s.ctx.index && encode_utf8(s.val@) == ctx.bytes().subrange(
            ctx.index as int,
            s.ctx.index as int,
        ),
        r matches Err(f) ==> f.ctx == *ctx,
{
    if !ctx.text.as_str().is_char_boundary(ctx.index) {
        return Err(ctx.failure("identifier".to_owned()));
    }
    match compile("^[a-zA-Z_][a-zA-Z0-9_]*") {
        None => Err(ctx.failure("identifier".to_owned())),
        Some(re) => match ctx.parse_regex(re, "identifier".to_owned()) {
            Ok(s) => {
                proof {
                    let e = choose|e: int|
                        #![trigger ctx.at(ctx.index + e)]
                        0 <= e && ctx.index + e <= ctx.bytes().len() && s.ctx == ctx.at(
                            ctx.index + e,
                        ) && encode_utf8(s.val@) == ctx.bytes().subrange(
                            ctx.index as int,
                            ctx.index + e,
                        );
                    assert(s.ctx.index == ctx.index + e);
                }
                if s.ctx.index == ctx.index {
                    Err(ctx.failure("identifier".to_owned()))
                } else {
                    Ok(s)
                }
            },
            Err(f) => Err(f),
        },
    }
}

/// A number, `[+-]?[0-9]+(\.[0-9]*)?`, that reads as an `i32`.
pub fn number_literal(ctx: &Ctx) -> (r: ParseResult<i32>)
    requires
        ctx.wf(),
    ensures
        stays_on(*ctx, r),
        r matches Ok(s) ==> ctx.index < s.ctx.index && i32_value(
            ctx.bytes().subrange(ctx.index as int, s.ctx.index as int),
        ) == Some(s.val),
{
    if !ctx.text.as_str().is_char_boundary(ctx.index) {
        return Err(ctx.failure("number".to_owned()));
    }
    match compile("^[+\\-]?[0-9]+(\\.[0-9]*)?") {
        None => Err(ctx.failure("number".to_owned())),
        Some(re) => match ctx.parse_regex(re, "number".to_owned()) {
            Ok(s) => {
                proof {
                    let e = choose|e: int|
                        #![trigger ctx.at(ctx.index + e)]
                        0 <= e && ctx.index + e <= ctx.bytes().len() && s.ctx == ctx.at(
                            ctx.index + e,
                        ) && encode_utf8(s.val@) == ctx.bytes().subrange(
                            ctx.index as int,
                            ctx.index + e,
                        );
                    assert(s.ctx.index == ctx.index + e);
                }
                if s.ctx.index == ctx.index {
                    return Err(ctx.failure("number".to_owned()));
                }
                match parse_i32(s.val.as_str()) {
                    Some(n) => Ok(s.ctx.success(n)),
                    None => Err(s.ctx.failure("number".to_owned())),
                }
            },
            Err(f) => Err(f),
        },
    }
}

/// A boolean, a number or a call, tried in this order.
pub fn expr(ctx: &Ctx) -> (r: ParseResult<Expr>)
    requires
        ctx.wf(),
    ensures
        stays_on(*ctx, r),
        r matches Ok(s) ==> ctx.index < s.ctx.index,
        ctx.matches_at(encode_utf8("true"@)) ==> r == Ok::<Success<Expr>, Failure>(
            Success { ctx: ctx.at(ctx.index + encode_utf8("true"@).len()), val: Expr::Bool(true) },
        ),
        !ctx.matches_at(encode_utf8("true"@)) && ctx.matches_at(encode_utf8("false"@)) ==> r
            == Ok::<Success<Expr>, Failure>(
            Success {
                ctx: ctx.at(ctx.index + encode_utf8("false"@).len()),
                val: Expr::Bool(false),
            },
        ),
    decreases ctx.bytes().len() - ctx.index, 2int,
{
    let start: Ghost<Ctx> = Ghost(*ctx);
    let alts = |i: usize, c: &Ctx| -> (r: ParseResult<Expr>)
        requires
            *c == start@,
        ensures
            stays_on(*c, r),
            r matches Ok(s) ==> c.index < s.ctx.index,
            i == 0 && c.matches_at(encode_utf8("true"@)) ==> r == Ok::<Success<Expr>, Failure>(
                Success { ctx: c.at(c.index + encode_utf8("true"@).len()), val: Expr::Bool(true) },
            ),
            i == 0 && !c.matches_at(encode_utf8("true"@)) && c.matches_at(encode_utf8("false"@))
                ==> r == Ok::<Success<Expr>, Failure>(
                Success {
                    ctx: c.at(c.index + encode_utf8("false"@).len()),
                    val: Expr::Bool(false),
                },
            ),
        {
            if i == 0 {
                proof {
                    reveal_strlit("true");
                    reveal_strlit("false");
                    lemma_encode_nonempty("true"@);
                    lemma_encode_nonempty("false"@);
                }
                match bool_literal(c) {
                    Ok(s) => Ok(Success { ctx: s.ctx, val: Expr::Bool(s.val) }),
                    Err(f) => Err(f),
                }
            } else if i == 1 {
                match number_literal(c) {
                    Ok(s) => Ok(Success { ctx: s.ctx, val: Expr::Num(s.val) }),
                    Err(f) => Err(f),
                }
            } else {
                match call(c) {
                    Ok(s) => Ok(Success { ctx: s.ctx, val: Expr::Call(s.val) }),
                    Err(f) => Err(f),
                }
            }
        };
    let r = any(&alts, 3, ctx);
    proof {
        let rs = choose|rs: Seq<ParseResult<Expr>>|
            {
                &&& 0 < rs.len() <= 3
                &&& forall|j: int| 0 <= j < rs.len() ==> alts.ensures((j as usize, ctx), #[trigger] rs[j])
                &&& rs.len() < 3 ==> rs.last() is Ok
                &&& r == alternatives(rs)
            };
        lemma_alternatives_member(rs);
        let j = choose|j: int| 0 <= j < rs.len() && alternatives(rs) == rs[j];
        assert(alts.ensures((j as usize, ctx), rs[j]));
        assert(alts.ensures((0usize, ctx), rs[0]));
        if rs[0] is Ok {
            lemma_alternatives_first_match(rs);
        }
    }
    r
}

/// Arguments: expressions separated by `,`; always matches, possibly with
/// none, and leaves a `,` that no expression follows unread.
pub fn args(ctx: &Ctx) -> (r: ParseResult<Vec<Expr>>)
    requires
        ctx.wf(),
    ensures
        r is Ok,
        stays_on(*ctx, r),
    decreases ctx.bytes().len() - ctx.index, 3int,
{
    let comma = |c: &Ctx| -> (r: ParseResult<String>)
        requires
            c.wf(),
        ensures
            stays_on(*c, r),
        { c.parse_str(",".to_owned()) };
    let start: Ghost<Ctx> = Ghost(*ctx);
    let element = |c: &Ctx| -> (r: ParseResult<Expr>)
        requires
            reachable(start@, *c),
        ensures
            stays_on(*c, r),
            r matches Ok(s) ==> c.index < s.ctx.index,
        { expr(c) };
    separated(&comma, &element, ctx)
}

/// A call: an identifier, then `(`, arguments and `)`.
pub fn call(ctx: &Ctx) -> (r: ParseResult<Call>)
    requires
        ctx.wf(),
    ensures
        stays_on(*ctx, r),
        r matches Ok(s) ==> ctx.index < s.ctx.index,
        r matches Ok(s) ==> exists|k: int|
            ctx.index < k <= s.ctx.index && encode_utf8(s.val.target@) == #[trigger] ctx.bytes().subrange(
                ctx.index as int,
                k,
            ),
    decreases ctx.bytes().len() - ctx.index, 1int,
{
    let success = match ident(ctx) {
        Ok(s) => s,
        Err(f) => return Err(f),
    };
    let target = success.val;
    let after = success.ctx;
    let open = |c: &Ctx| -> (r: ParseResult<String>)
        requires
            c.wf(),
        ensures
            stays_on(*c, r),
        { c.parse_str("(".to_owned()) };
    let close = |c: &Ctx| -> (r: ParseResult<String>)
        requires
            c.wf(),
        ensures
            stays_on(*c, r),
        { c.parse_str(")".to_owned()) };
    let start: Ghost<Ctx> = Ghost(*ctx);
    let inner = |c: &Ctx| -> (r: ParseResult<Vec<Expr>>)
        requires
            c.wf(),
            c.text == start@.text,
            start@.index < c.index,
        ensures
            stays_on(*c, r),
        { args(c) };
    let ghost k = after.index as int;
    let ghost target_view = target@;
    match delimited(&open, &inner, &close, &after) {
        Ok(s) => {
            assert(encode_utf8(target_view) == ctx.bytes().subrange(ctx.index as int, k));
            Ok(Success { ctx: s.ctx, val: Call { target, args: s.val } })
        },
        Err(f) => Err(f),
    }
}

/// Parses an expression at the start of `code`, or describes where and what
/// was expected.
pub fn parse(code: String) -> (r: Result<Expr, String>)
    ensures
        r is Ok ==> encode_utf8(code@).len() > 0,
{
    let ctx = Ctx::new(code.as_str());
    match expr(&ctx) {
        Ok(s) => Ok(s.val),
        Err(f) => Err(failure_message(f.expected.as_str(), f.ctx.index)),
    }
}

} // verus!
