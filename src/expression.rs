use crate::decimal::{digit_run, digit_run_end, i32_value, is_digit, lemma_digit_run, parse_i32};
use crate::error::{failure_message, mismatch, ErrorKind, Expected, ParseError};
use crate::json::{alnum_end, alnum_run, ascii_between, is_alpha};
pub use crate::parser::{Call, Expr};
use crate::text::{push_ascii, rest_after};
use vstd::prelude::*;
use vstd::string::StringSliceAdditionalSpecFns;
use vstd::utf8::encode_utf8;

verus! {

/// An expression as a mathematical object.
pub enum ExprModel {
    Num(i32),
    Bool(bool),
    Call(Seq<char>, Seq<ExprModel>),
}

impl Expr {
    pub open spec fn model(&self) -> ExprModel
        decreases self,
    {
        match self {
            Expr::Num(n) => ExprModel::Num(*n),
            Expr::Bool(b) => ExprModel::Bool(*b),
            Expr::Call(c) => ExprModel::Call(
                c.target@,
                Seq::new(
                    c.args.len() as nat,
                    |i: int|
                        if 0 <= i < c.args.len() {
                            c.args[i].model()
                        } else {
                            ExprModel::Bool(false)
                        },
                ),
            ),
        }
    }
}

/// The models of a sequence of expressions.
pub open spec fn expr_models(v: Seq<Expr>) -> Seq<ExprModel> {
    Seq::new(v.len(), |i: int| v[i].model())
}

/// The characters of ASCII bytes.
pub open spec fn chars_of(b: Seq<u8>) -> Seq<char> {
    Seq::new(b.len(), |i: int| b[i] as char)
}

/// `true` or `false` at `p`.
pub open spec fn bool_at(s: Seq<u8>, p: int) -> Result<(bool, int), ParseError> {
    if 0 <= p && p + 4 <= s.len() && s.subrange(p, p + 4) == seq![0x74u8, 0x72u8, 0x75u8, 0x65u8] {
        Ok((true, p + 4))
    } else if 0 <= p && p + 5 <= s.len() && s.subrange(p, p + 5) == seq![
        0x66u8,
        0x61u8,
        0x6cu8,
        0x73u8,
        0x65u8,
    ] {
        Ok((false, p + 5))
    } else {
        Err(mismatch(p, Expected::Boolean))
    }
}

/// An optional sign and digits at `p` that read as an `i32`.
pub open spec fn number_at(s: Seq<u8>, p: int) -> Result<(i32, int), ParseError> {
    let signed = 0 <= p < s.len() && (s[p] == 0x2d || s[p] == 0x2b);
    let d0 = if signed {
        p + 1
    } else {
        p
    };
    if !(0 <= d0 < s.len() && is_digit(s[d0])) {
        Err(mismatch(d0, Expected::Digit))
    } else {
        let d1 = digit_run_end(s, d0);
        match i32_value(s.subrange(p, d1)) {
            Some(v) => Ok((v, d1)),
            None => Err(mismatch(d1, Expected::Digit)),
        }
    }
}

/// An identifier, a letter and then letters and digits, at `p`.
pub open spec fn ident_at(s: Seq<u8>, p: int) -> Result<(Seq<char>, int), ParseError> {
    if !(0 <= p < s.len() && is_alpha(s[p])) {
        Err(mismatch(p, Expected::Identifier))
    } else {
        let e = alnum_end(s, p + 1);
        Ok((chars_of(s.subrange(p, e)), e))
    }
}

/// A boolean, else a number, else a call; when none matches, the call's
/// error.
pub open spec fn expr_at(s: Seq<u8>, p: int) -> Result<(ExprModel, int), ParseError>
    decreases s.len() - p, 1int,
{
    match bool_at(s, p) {
        Ok((b, e)) => Ok((ExprModel::Bool(b), e)),
        Err(_) => match number_at(s, p) {
            Ok((n, e)) => Ok((ExprModel::Num(n), e)),
            Err(_) => match call_at(s, p) {
                Ok((name, args, e)) => Ok((ExprModel::Call(name, args), e)),
                Err(x) => Err(x),
            },
        },
    }
}

/// The closing `)` at the offset where the arguments `r` ended.
pub open spec fn close_call(s: Seq<u8>, name: Seq<char>, r: Result<(Seq<ExprModel>, int), ParseError>) -> Result<
    (Seq<char>, Seq<ExprModel>, int),
    ParseError,
> {
    match r {
        Ok((args, i)) => if 0 <= i < s.len() && s[i] == 0x29 {
            Ok((name, args, i + 1))
        } else {
            Err(mismatch(i, Expected::Char(0x29)))
        },
        Err(x) => Err(x),
    }
}

/// An identifier, `(`, expressions separated by `,`, `)`.
pub open spec fn call_at(s: Seq<u8>, p: int) -> Result<(Seq<char>, Seq<ExprModel>, int), ParseError>
    decreases s.len() - p, 0int,
{
    match ident_at(s, p) {
        Err(x) => Err(x),
        Ok((name, e)) => if !(p < e < s.len() && s[e] == 0x28) {
            Err(mismatch(e, Expected::Char(0x28)))
        } else {
            match expr_at(s, e + 1) {
                // A match always ends within the text and after the start; the
                // bound only makes the recursion visibly well-founded.
                Ok((v, e2)) => if p < e2 <= s.len() {
                    close_call(s, name, call_more(s, e2, seq![v]))
                } else {
                    Err(mismatch(e, Expected::Char(0x28)))
                },
                Err(_) => close_call(s, name, Ok((Seq::empty(), e + 1))),
            }
        },
    }
}

/// The further `,`-separated arguments from `i` on, after `acc`.
pub open spec fn call_more(s: Seq<u8>, i: int, acc: Seq<ExprModel>) -> Result<(Seq<ExprModel>, int), ParseError>
    decreases s.len() - i, 2int,
{
    if 0 <= i < s.len() && s[i] == 0x2c {
        match expr_at(s, i + 1) {
            // A match always ends within the text and after the start; the
            // bound only makes the recursion visibly well-founded.
            Ok((v, e)) => if i < e <= s.len() {
                call_more(s, e, acc.push(v))
            } else {
                Ok((acc, i))
            },
            Err(_) => Ok((acc, i)),
        }
    } else {
        Ok((acc, i))
    }
}

fn bool_at_exec(s: &[u8], p: usize) -> (r: Result<(bool, usize), ParseError>)
    requires
        p <= s@.len(),
    ensures
        r matches Ok((b, e)) ==> bool_at(s@, p as int) == Ok::<(bool, int), ParseError>((b, e as int)),
        r matches Err(x) ==> bool_at(s@, p as int) == Err::<(bool, int), ParseError>(x),
        r matches Ok((b, e)) ==> p < e <= s@.len() && ascii_between(s@, p as int, e as int),
{
    let len = s.len();
    if len - p >= 4 && s[p] == 0x74 && s[p + 1] == 0x72 && s[p + 2] == 0x75 && s[p + 3] == 0x65 {
        assert(s@.subrange(p as int, p + 4) =~= seq![0x74u8, 0x72u8, 0x75u8, 0x65u8]);
        return Ok((true, p + 4));
    }
    assert(!(p + 4 <= s@.len() && s@.subrange(p as int, p + 4) == seq![0x74u8, 0x72u8, 0x75u8, 0x65u8])) by {
        if p + 4 <= s@.len() && s@.subrange(p as int, p + 4) == seq![0x74u8, 0x72u8, 0x75u8, 0x65u8] {
            assert(s@.subrange(p as int, p + 4)[0] == s@[p as int]);
            assert(s@.subrange(p as int, p + 4)[1] == s@[p + 1]);
            assert(s@.subrange(p as int, p + 4)[2] == s@[p + 2]);
            assert(s@.subrange(p as int, p + 4)[3] == s@[p + 3]);
        }
    }
    if len - p >= 5 && s[p] == 0x66 && s[p + 1] == 0x61 && s[p + 2] == 0x6c && s[p + 3] == 0x73
        && s[p + 4] == 0x65 {
        assert(s@.subrange(p as int, p + 5) =~= seq![0x66u8, 0x61u8, 0x6cu8, 0x73u8, 0x65u8]);
        return Ok((false, p + 5));
    }
    assert(!(p + 5 <= s@.len() && s@.subrange(p as int, p + 5) == seq![0x66u8, 0x61u8, 0x6cu8, 0x73u8, 0x65u8])) by {
        if p + 5 <= s@.len() && s@.subrange(p as int, p + 5) == seq![0x66u8, 0x61u8, 0x6cu8, 0x73u8, 0x65u8] {
            assert(s@.subrange(p as int, p + 5)[0] == s@[p as int]);
            assert(s@.subrange(p as int, p + 5)[1] == s@[p + 1]);
            assert(s@.subrange(p as int, p + 5)[2] == s@[p + 2]);
            assert(s@.subrange(p as int, p + 5)[3] == s@[p + 3]);
            assert(s@.subrange(p as int, p + 5)[4] == s@[p + 4]);
        }
    }
    Err(ParseError { kind: ErrorKind::Mismatch, offset: p, expected: Expected::Boolean })
}

/// Appends the ASCII bytes `s[from..to]` as characters.
fn push_ascii_range(out: &mut String, s: &[u8], from: usize, to: usize)
    requires
        from <= to <= s@.len(),
        ascii_between(s@, from as int, to as int),
    ensures
        final(out)@ == old(out)@ + chars_of(s@.subrange(from as int, to as int)),
        encode_utf8(final(out)@) == encode_utf8(old(out)@) + s@.subrange(from as int, to as int),
{
    let ghost start = out@;
    let ghost start_bytes = encode_utf8(out@);
    let mut i = from;
    while i < to
        invariant
            from <= i <= to <= s@.len(),
            ascii_between(s@, from as int, to as int),
            out@ == start + chars_of(s@.subrange(from as int, i as int)),
            encode_utf8(out@) == start_bytes + s@.subrange(from as int, i as int),
        decreases to - i,
    {
        let b = s[i];
        push_ascii(out, b);
        i = i + 1;
        assert(chars_of(s@.subrange(from as int, i as int)) =~= chars_of(
            s@.subrange(from as int, i - 1),
        ).push(b as char));
        assert(out@ =~= start + chars_of(s@.subrange(from as int, i as int)));
        assert(s@.subrange(from as int, i as int) =~= s@.subrange(from as int, i - 1).push(b));
    }
}

fn number_at_exec(s: &[u8], p: usize) -> (r: Result<(i32, usize), ParseError>)
    requires
        p <= s@.len(),
    ensures
        r matches Ok((n, e)) ==> number_at(s@, p as int) == Ok::<(i32, int), ParseError>((n, e as int)),
        r matches Err(x) ==> number_at(s@, p as int) == Err::<(i32, int), ParseError>(x),
        r matches Ok((n, e)) ==> p < e <= s@.len() && ascii_between(s@, p as int, e as int),
{
    let len = s.len();
    let signed = p < len && (s[p] == 0x2d || s[p] == 0x2b);
    let d0 = if signed {
        p + 1
    } else {
        p
    };
    if !(d0 < len && s[d0] >= 0x30 && s[d0] <= 0x39) {
        return Err(ParseError { kind: ErrorKind::Mismatch, offset: d0, expected: Expected::Digit });
    }
    proof {
        lemma_digit_run(s@, d0 as int);
    }
    let d1 = digit_run(s, d0);
    let mut text = String::new();
    assert(encode_utf8(text@) =~= Seq::<u8>::empty());
    push_ascii_range(&mut text, s, p, d1);
    assert(encode_utf8(text@) =~= s@.subrange(p as int, d1 as int));
    match parse_i32(text.as_str()) {
        Some(v) => Ok((v, d1)),
        None => Err(ParseError { kind: ErrorKind::Mismatch, offset: d1, expected: Expected::Digit }),
    }
}

fn ident_at_exec(s: &[u8], p: usize) -> (r: Result<(String, usize), ParseError>)
    requires
        p <= s@.len(),
    ensures
        r matches Ok((t, e)) ==> ident_at(s@, p as int) == Ok::<(Seq<char>, int), ParseError>(
            (t@, e as int),
        ),
        r matches Err(x) ==> ident_at(s@, p as int) == Err::<(Seq<char>, int), ParseError>(x),
        r matches Ok((t, e)) ==> p < e <= s@.len() && ascii_between(s@, p as int, e as int),
{
    let len = s.len();
    if !(p < len && ((s[p] >= 0x41 && s[p] <= 0x5a) || (s[p] >= 0x61 && s[p] <= 0x7a))) {
        return Err(
            ParseError { kind: ErrorKind::Mismatch, offset: p, expected: Expected::Identifier },
        );
    }
    let e = alnum_run(s, p + 1);
    let mut name = String::new();
    assert(name@ =~= Seq::<char>::empty());
    push_ascii_range(&mut name, s, p, e);
    assert(name@ =~= chars_of(s@.subrange(p as int, e as int)));
    Ok((name, e))
}

fn expr_at_exec(s: &[u8], p: usize) -> (r: Result<(Expr, usize), ParseError>)
    requires
        p <= s@.len(),
    ensures
        r matches Ok((v, e)) ==> expr_at(s@, p as int) == Ok::<(ExprModel, int), ParseError>(
            (v.model(), e as int),
        ),
        r matches Err(x) ==> expr_at(s@, p as int) == Err::<(ExprModel, int), ParseError>(x),
        r matches Ok((v, e)) ==> p < e <= s@.len() && ascii_between(s@, p as int, e as int),
    decreases s@.len() - p, 1int,
{
    if let Ok((b, e)) = bool_at_exec(s, p) {
        return Ok((Expr::Bool(b), e));
    }
    if let Ok((n, e)) = number_at_exec(s, p) {
        return Ok((Expr::Num(n), e));
    }
    match call_at_exec(s, p) {
        Ok((c, e)) => {
            let ghost target = c.target@;
            let ghost args = expr_models(c.args@);
            let v = Expr::Call(c);
            assert(v.model()->Call_1 =~= args);
            Ok((v, e))
        },
        Err(x) => Err(x),
    }
}

fn call_at_exec(s: &[u8], p: usize) -> (r: Result<(Call, usize), ParseError>)
    requires
        p <= s@.len(),
    ensures
        r matches Ok((c, e)) ==> call_at(s@, p as int) == Ok::<
            (Seq<char>, Seq<ExprModel>, int),
            ParseError,
        >((c.target@, expr_models(c.args@), e as int)),
        r matches Err(x) ==> call_at(s@, p as int) == Err::<
            (Seq<char>, Seq<ExprModel>, int),
            ParseError,
        >(x),
        r matches Ok((c, e)) ==> p < e <= s@.len() && ascii_between(s@, p as int, e as int),
    decreases s@.len() - p, 0int,
{
    let len = s.len();
    let (name, e) = match ident_at_exec(s, p) {
        Ok(x) => x,
        Err(x) => return Err(x),
    };
    if !(e < len && s[e] == 0x28) {
        return Err(
            ParseError { kind: ErrorKind::Mismatch, offset: e, expected: Expected::Char(0x28) },
        );
    }
    let mut args: Vec<Expr> = Vec::new();
    let mut i: usize;
    let mut stop = false;
    let ghost mut target: Result<(Seq<ExprModel>, int), ParseError>;
    match expr_at_exec(s, e + 1) {
        Ok((v, e2)) => {
            let ghost vm = v.model();
            args.push(v);
            assert(expr_models(args@) =~= seq![vm]);
            i = e2;
            proof {
                target = call_more(s@, e2 as int, seq![vm]);
            }
        },
        Err(_) => {
            assert(expr_models(args@) =~= Seq::<ExprModel>::empty());
            i = e + 1;
            stop = true;
            proof {
                target = Ok((Seq::<ExprModel>::empty(), e + 1));
            }
        },
    }
    assert(call_at(s@, p as int) == close_call(s@, name@, target));
    while !stop
        invariant
            p < e < i <= len,
            len == s@.len(),
            ascii_between(s@, p as int, i as int),
            call_at(s@, p as int) == close_call(s@, name@, target),
            target == if stop {
                Ok((expr_models(args@), i as int))
            } else {
                call_more(s@, i as int, expr_models(args@))
            },
        decreases len - i, if stop {
            0int
        } else {
            1int
        },
    {
        if i < len && s[i] == 0x2c {
            match expr_at_exec(s, i + 1) {
                Ok((v, e2)) => {
                    let ghost vm = v.model();
                    let ghost old_models = expr_models(args@);
                    args.push(v);
                    assert(expr_models(args@) =~= old_models.push(vm));
                    i = e2;
                },
                Err(_) => {
                    stop = true;
                },
            }
        } else {
            stop = true;
        }
    }
    if i < len && s[i] == 0x29 {
        Ok((Call { target: name, args }, i + 1))
    } else {
        Err(ParseError { kind: ErrorKind::Mismatch, offset: i, expected: Expected::Char(0x29) })
    }
}

/// `true` or `false` at the start of `input`; gives the rest and the value.
pub fn bool_literal(input: &str) -> (r: Result<(&str, bool), ParseError>)
    ensures
        r matches Ok((rest, b)) ==> (bool_at(input.spec_bytes(), 0) matches Ok((v, e)) && b == v
            && rest.spec_bytes() == input.spec_bytes().subrange(e, input.spec_bytes().len() as int)),
        r matches Err(x) ==> bool_at(input.spec_bytes(), 0) == Err::<(bool, int), ParseError>(x),
{
    match bool_at_exec(input.as_bytes(), 0) {
        Ok((b, e)) => Ok((rest_after(input, e), b)),
        Err(x) => Err(x),
    }
}

/// A signed number at the start of `input`; gives the rest and the value.
pub fn number_literal(input: &str) -> (r: Result<(&str, i32), ParseError>)
    ensures
        r matches Ok((rest, n)) ==> (number_at(input.spec_bytes(), 0) matches Ok((v, e)) && n == v
            && rest.spec_bytes() == input.spec_bytes().subrange(e, input.spec_bytes().len() as int)),
        r matches Err(x) ==> number_at(input.spec_bytes(), 0) == Err::<(i32, int), ParseError>(x),
{
    match number_at_exec(input.as_bytes(), 0) {
        Ok((n, e)) => Ok((rest_after(input, e), n)),
        Err(x) => Err(x),
    }
}

/// An identifier at the start of `input`; gives the rest and the name.
pub fn ident(input: &str) -> (r: Result<(&str, String), ParseError>)
    ensures
        r matches Ok((rest, t)) ==> (ident_at(input.spec_bytes(), 0) matches Ok((v, e)) && t@
            == v && rest.spec_bytes() == input.spec_bytes().subrange(
            e,
            input.spec_bytes().len() as int,
        )),
        r matches Err(x) ==> ident_at(input.spec_bytes(), 0) == Err::<(Seq<char>, int), ParseError>(
            x,
        ),
{
    match ident_at_exec(input.as_bytes(), 0) {
        Ok((t, e)) => Ok((rest_after(input, e), t)),
        Err(x) => Err(x),
    }
}

/// A call at the start of `input`; gives the rest and the call.
pub fn call(input: &str) -> (r: Result<(&str, Call), ParseError>)
    ensures
        r matches Ok((rest, c)) ==> (call_at(input.spec_bytes(), 0) matches Ok((t, a, e)) && c.target@
            == t && expr_models(c.args@) == a && rest.spec_bytes() == input.spec_bytes().subrange(
            e,
            input.spec_bytes().len() as int,
        )),
        r matches Err(x) ==> call_at(input.spec_bytes(), 0) == Err::<
            (Seq<char>, Seq<ExprModel>, int),
            ParseError,
        >(x),
{
    match call_at_exec(input.as_bytes(), 0) {
        Ok((c, e)) => Ok((rest_after(input, e), c)),
        Err(x) => Err(x),
    }
}

/// An expression at the start of `input`; gives the rest and the
/// expression.
pub fn expr(input: &str) -> (r: Result<(&str, Expr), ParseError>)
    ensures
        r matches Ok((rest, v)) ==> (expr_at(input.spec_bytes(), 0) matches Ok((m, e)) && v.model()
            == m && rest.spec_bytes() == input.spec_bytes().subrange(
            e,
            input.spec_bytes().len() as int,
        )),
        r matches Err(x) ==> expr_at(input.spec_bytes(), 0) == Err::<(ExprModel, int), ParseError>(
            x,
        ),
{
    match expr_at_exec(input.as_bytes(), 0) {
        Ok((v, e)) => Ok((rest_after(input, e), v)),
        Err(x) => Err(x),
    }
}

/// Parses an expression at the start of `input`, or describes where and
/// what was expected.
pub fn parse(input: &str) -> (r: Result<Expr, String>)
    ensures
        r is Ok <==> expr_at(input.spec_bytes(), 0) is Ok,
        r matches Ok(v) ==> v.model() == expr_at(input.spec_bytes(), 0)->Ok_0.0,
{
    match expr(input) {
        Ok((_, v)) => Ok(v),
        Err(x) => Err(failure_message(x.expected.describe(), x.offset)),
    }
}

} // verus!
