use crate::error::{failure, mismatch, ErrorKind, Expected, ParseError};
use crate::text::{push_ascii, rest_after};
use vstd::prelude::*;
use vstd::string::StringSliceAdditionalSpecFns;
use vstd::utf8::encode_utf8;

verus! {

/// An ASCII decimal digit.
pub open spec fn is_digit(b: u8) -> bool {
    0x30 <= b <= 0x39
}

/// The offset right after the run of digits that starts at `p`.
pub open spec fn digit_run_end(s: Seq<u8>, p: int) -> int
    decreases s.len() - p,
{
    if 0 <= p < s.len() && is_digit(s[p]) {
        digit_run_end(s, p + 1)
    } else {
        p
    }
}

/// The values of a run of digit characters.
pub open spec fn digit_values(s: Seq<u8>) -> Seq<u8> {
    Seq::new(s.len(), |i: int| (s[i] - 0x30) as u8)
}

/// `d` without its trailing zero digits.
pub open spec fn strip_zeros(d: Seq<u8>) -> Seq<u8>
    decreases d.len(),
{
    if d.len() > 0 && d.last() == 0 {
        strip_zeros(d.drop_last())
    } else {
        d
    }
}

/// The number that a run of digit characters writes in base ten.
pub open spec fn number_value(s: Seq<u8>) -> nat
    decreases s.len(),
{
    if s.len() == 0 {
        0
    } else {
        number_value(s.drop_last()) * 10 + (s.last() - 0x30) as nat
    }
}

/// A decimal number: `(-1)^negative * 0.digits * 10^exponent`, zero when
/// `digits` is empty.
pub struct DecModel {
    pub negative: bool,
    pub digits: Seq<u8>,
    pub exponent: int,
}

/// Digits are single decimal digits with no trailing zero, and the exponent
/// fits in `i32`.
pub open spec fn canonical(m: DecModel) -> bool {
    &&& forall|i: int| 0 <= i < m.digits.len() ==> #[trigger] m.digits[i] <= 9
    &&& m.digits.len() > 0 ==> m.digits.last() != 0
    &&& i32::MIN <= m.exponent <= i32::MAX
}

/// All digits lie at or above the decimal point.
pub open spec fn is_integral(m: DecModel) -> bool {
    m.digits.len() <= m.exponent
}

/// The end of the integer part that starts at `int_start`: a lone `0`, or a run of
/// digits.
pub open spec fn int_part_end(s: Seq<u8>, int_start: int) -> int {
    if s[int_start] == 0x30 {
        int_start + 1
    } else {
        digit_run_end(s, int_start)
    }
}

/// A `.` followed by a digit stands at `p`.
pub open spec fn has_fraction(s: Seq<u8>, p: int) -> bool {
    p + 1 < s.len() && s[p] == 0x2e && is_digit(s[p + 1])
}

/// The end of the optional fraction that may start at `p`.
pub open spec fn fraction_end(s: Seq<u8>, p: int) -> int {
    if has_fraction(s, p) {
        digit_run_end(s, p + 1)
    } else {
        p
    }
}

/// The significant digits of the integer part starting at `int_start` and of the
/// fraction after it, trailing zeros stripped.
pub open spec fn significant_digits(s: Seq<u8>, int_start: int) -> Seq<u8> {
    let int_end = int_part_end(s, int_start);
    let frac = if has_fraction(s, int_end) {
        digit_values(s.subrange(int_end + 1, fraction_end(s, int_end)))
    } else {
        Seq::empty()
    };
    strip_zeros(digit_values(s.subrange(int_start, int_end)) + frac)
}

/// The exponent of a number whose integer part has `int_len` digits, given
/// the optional suffix `('e'|'E') ['+'|'-'] digit+` at `p`, and the offset
/// after that suffix.
pub open spec fn exponent_at(s: Seq<u8>, p: int, int_len: int) -> Result<(int, int), ParseError> {
    if p < s.len() && (s[p] == 0x65 || s[p] == 0x45) {
        let q = p + 1;
        let exp_negative = q < s.len() && s[q] == 0x2d;
        let exp_signed = q < s.len() && (s[q] == 0x2d || s[q] == 0x2b);
        let r = if exp_signed {
            q + 1
        } else {
            q
        };
        if !(r < s.len() && is_digit(s[r])) {
            Err(mismatch(r, Expected::Digit))
        } else {
            let exp_end = digit_run_end(s, r);
            let v = number_value(s.subrange(r, exp_end));
            let total = if exp_negative {
                int_len - v
            } else {
                int_len + v
            };
            if v > u32::MAX || total < i32::MIN || total > i32::MAX {
                Err(failure(r, Expected::ExponentInRange))
            } else {
                Ok((total, exp_end))
            }
        }
    } else if int_len > i32::MAX {
        Err(failure(p - int_len, Expected::ExponentInRange))
    } else {
        Ok((int_len, p))
    }
}

/// The decimal literal `['-'] ('0' | digit+) ['.' digit+] [('e'|'E') ['+'|'-'] digit+]`
/// at `start` in `s`, and the offset right after it.
pub open spec fn decimal_at(s: Seq<u8>, start: int) -> Result<(DecModel, int), ParseError> {
    let negative = start < s.len() && s[start] == 0x2d;
    let int_start = if negative {
        start + 1
    } else {
        start
    };
    if !(int_start < s.len() && is_digit(s[int_start])) {
        Err(mismatch(int_start, Expected::Digit))
    } else {
        let int_end = int_part_end(s, int_start);
        match exponent_at(s, fraction_end(s, int_end), int_end - int_start) {
            Ok((exponent, end)) => Ok(
                (DecModel { negative, digits: significant_digits(s, int_start), exponent }, end),
            ),
            Err(e) => Err(e),
        }
    }
}

/// The ASCII characters of a sequence of digit values.
pub open spec fn digit_text(d: Seq<u8>) -> Seq<u8> {
    Seq::new(d.len(), |i: int| (d[i] + 0x30) as u8)
}

/// `n` zero characters.
pub open spec fn zeros(n: int) -> Seq<u8> {
    Seq::new(n as nat, |i: int| 0x30u8)
}

/// `n` in base ten, with no leading zero.
pub open spec fn nat_text(n: nat) -> Seq<u8>
    decreases n,
{
    if n < 10 {
        seq![(n + 0x30) as u8]
    } else {
        nat_text(n / 10).push((n % 10 + 0x30) as u8)
    }
}

/// `e` in base ten, with a `-` when negative.
pub open spec fn int_text(e: int) -> Seq<u8> {
    if e < 0 {
        seq![0x2du8] + nat_text((-e) as nat)
    } else {
        nat_text(e as nat)
    }
}

/// The canonical text of a decimal: an integral one as plain digits padded
/// with zeros, any other as `0.<digits>` (or `0`) followed by `e<exponent>`
/// unless the exponent is zero.
pub open spec fn render(m: DecModel) -> Seq<u8> {
    let sign = if m.negative {
        seq![0x2du8]
    } else {
        Seq::<u8>::empty()
    };
    if is_integral(m) {
        sign + digit_text(m.digits) + zeros(m.exponent - m.digits.len())
    } else {
        let mantissa = if m.digits.len() == 0 {
            seq![0x30u8]
        } else {
            seq![0x30u8, 0x2eu8] + digit_text(m.digits)
        };
        let suffix = if m.exponent != 0 {
            seq![0x65u8] + int_text(m.exponent)
        } else {
            Seq::<u8>::empty()
        };
        sign + mantissa + suffix
    }
}

/// An exact decimal number: sign, significant digits (most significant
/// first, no trailing zero) and the position of the decimal point.
#[derive(Debug, PartialEq, Eq)]
pub struct Dec {
    pub negative: bool,
    pub data: Vec<u8>,
    pub exponent: i32,
}

impl View for Dec {
    type V = DecModel;

    open spec fn view(&self) -> DecModel {
        DecModel { negative: self.negative, digits: self.data@, exponent: self.exponent as int }
    }
}

pub(crate) proof fn lemma_digit_run(s: Seq<u8>, p: int)
    requires
        0 <= p <= s.len(),
    ensures
        p <= digit_run_end(s, p) <= s.len(),
        forall|i: int| p <= i < digit_run_end(s, p) ==> is_digit(#[trigger] s[i]),
        digit_run_end(s, p) < s.len() ==> !is_digit(s[digit_run_end(s, p)]),
    decreases s.len() - p,
{
    if p < s.len() && is_digit(s[p]) {
        lemma_digit_run(s, p + 1);
    }
}

/// The end of the run of digits that starts at `p`.
pub(crate) fn digit_run(s: &[u8], p: usize) -> (e: usize)
    requires
        p <= s@.len(),
    ensures
        e == digit_run_end(s@, p as int),
{
    let mut i = p;
    while i < s.len() && s[i] >= 0x30 && s[i] <= 0x39
        invariant
            p <= i <= s@.len(),
            digit_run_end(s@, p as int) == digit_run_end(s@, i as int),
        decreases s@.len() - i,
    {
        i = i + 1;
    }
    i
}

/// Appends the values of the digits `s[from..to]`.
fn push_digit_values(data: &mut Vec<u8>, s: &[u8], from: usize, to: usize)
    requires
        from <= to <= s@.len(),
        forall|i: int| from <= i < to ==> is_digit(#[trigger] s@[i]),
    ensures
        final(data)@ == old(data)@ + digit_values(s@.subrange(from as int, to as int)),
{
    let ghost start = data@;
    let mut i = from;
    while i < to
        invariant
            from <= i <= to <= s@.len(),
            forall|i: int| from <= i < to ==> is_digit(#[trigger] s@[i]),
            data@ == start + digit_values(s@.subrange(from as int, i as int)),
        decreases to - i,
    {
        data.push(s[i] - 0x30);
        i = i + 1;
        assert(data@ =~= start + digit_values(s@.subrange(from as int, i as int)));
    }
}

/// Drops the trailing zero digits.
fn strip_trailing_zeros(data: &mut Vec<u8>)
    ensures
        final(data)@ == strip_zeros(old(data)@),
{
    while data.len() > 0 && data[data.len() - 1] == 0
        invariant
            strip_zeros(data@) == strip_zeros(old(data)@),
        decreases data@.len(),
    {
        data.pop();
    }
}

/// Reads the integer part at `int_start` and the optional fraction after it: their
/// significant digits, the end of the integer part and the end of the
/// fraction.
fn parse_significand(s: &[u8], int_start: usize) -> (r: (Vec<u8>, usize, usize))
    requires
        int_start < s@.len(),
        is_digit(s@[int_start as int]),
    ensures
        r.0@ == significant_digits(s@, int_start as int),
        r.1 == int_part_end(s@, int_start as int),
        r.2 == fraction_end(s@, r.1 as int),
        int_start < r.1 <= r.2 <= s@.len(),
        forall|i: int| int_start <= i < r.2 ==> #[trigger] s@[i] < 0x80,
{
    proof {
        lemma_digit_run(s@, int_start as int);
    }
    let int_end = if s[int_start] == 0x30 {
        int_start + 1
    } else {
        digit_run(s, int_start)
    };
    let mut data: Vec<u8> = Vec::new();
    push_digit_values(&mut data, s, int_start, int_end);
    assert(data@ =~= digit_values(s@.subrange(int_start as int, int_end as int)));
    let ghost int_values = data@;
    let has_frac = int_end < s.len() && s[int_end] == 0x2e && int_end + 1 < s.len() && s[int_end
        + 1] >= 0x30 && s[int_end + 1] <= 0x39;
    let frac_end = if has_frac {
        proof {
            lemma_digit_run(s@, int_end + 1);
        }
        let e = digit_run(s, int_end + 1);
        push_digit_values(&mut data, s, int_end + 1, e);
        e
    } else {
        assert(data@ =~= int_values + Seq::<u8>::empty());
        int_end
    };
    strip_trailing_zeros(&mut data);
    (data, int_end, frac_end)
}

/// Reads the optional exponent suffix at `p` of a number whose integer part
/// has `int_len` digits.
fn parse_exponent(s: &[u8], p: usize, int_len: usize) -> (r: Result<(i32, usize), ParseError>)
    requires
        int_len <= p <= s@.len(),
    ensures
        r matches Ok((e, end)) ==> exponent_at(s@, p as int, int_len as int) == Ok::<
            (int, int),
            ParseError,
        >((e as int, end as int)),
        r matches Err(err) ==> exponent_at(s@, p as int, int_len as int) == Err::<
            (int, int),
            ParseError,
        >(err),
        r matches Ok((e, end)) ==> p <= end <= s@.len() && forall|i: int|
            p <= i < end ==> #[trigger] s@[i] < 0x80,
{
    let len = s.len();
    if !(p < len && (s[p] == 0x65 || s[p] == 0x45)) {
        if int_len > 0x7fff_ffff {
            return Err(
                ParseError {
                    kind: ErrorKind::Failure,
                    offset: p - int_len,
                    expected: Expected::ExponentInRange,
                },
            );
        }
        return Ok((int_len as i32, p));
    }
    let q = p + 1;
    let exp_negative = q < len && s[q] == 0x2d;
    let exp_signed = q < len && (s[q] == 0x2d || s[q] == 0x2b);
    let r = if exp_signed {
        q + 1
    } else {
        q
    };
    if !(r < len && s[r] >= 0x30 && s[r] <= 0x39) {
        return Err(ParseError { kind: ErrorKind::Mismatch, offset: r, expected: Expected::Digit });
    }
    proof {
        lemma_digit_run(s@, r as int);
    }
    let exp_end = digit_run(s, r);
    let mut v: u64 = 0;
    let mut too_large = false;
    let mut k = r;
    while k < exp_end
        invariant
            r <= k <= exp_end <= s@.len(),
            forall|i: int| r <= i < exp_end ==> is_digit(#[trigger] s@[i]),
            !too_large ==> v == number_value(s@.subrange(r as int, k as int)) && v <= u32::MAX,
            too_large ==> number_value(s@.subrange(r as int, k as int)) > u32::MAX,
        decreases exp_end - k,
    {
        let d = (s[k] - 0x30) as u64;
        let ghost prefix = s@.subrange(r as int, k as int);
        assert(s@.subrange(r as int, k + 1).drop_last() =~= prefix);
        assert(s@.subrange(r as int, k + 1).last() == s@[k as int]);
        if !too_large {
            let nv = v * 10 + d;
            if nv > 0xffff_ffff {
                too_large = true;
            } else {
                v = nv;
            }
        } else {
            assert(number_value(prefix) * 10 + d >= number_value(prefix)) by (nonlinear_arith);
        }
        k = k + 1;
    }
    let total: i128 = if exp_negative {
        int_len as i128 - v as i128
    } else {
        int_len as i128 + v as i128
    };
    if too_large || total < -0x8000_0000 || total > 0x7fff_ffff {
        return Err(
            ParseError { kind: ErrorKind::Failure, offset: r, expected: Expected::ExponentInRange },
        );
    }
    Ok((total as i32, exp_end))
}

/// Parses the decimal literal at `start` in `s`.
pub fn parse_decimal_at(s: &[u8], start: usize) -> (r: Result<(Dec, usize), ParseError>)
    requires
        start <= s@.len(),
    ensures
        r matches Ok((d, e)) ==> decimal_at(s@, start as int) == Ok::<(DecModel, int), ParseError>(
            (d@, e as int),
        ),
        r matches Err(err) ==> decimal_at(s@, start as int) == Err::<(DecModel, int), ParseError>(
            err,
        ),
        r matches Ok((d, e)) ==> start < e <= s@.len() && forall|i: int|
            start <= i < e ==> #[trigger] s@[i] < 0x80,
{
    let len = s.len();
    let negative = start < len && s[start] == 0x2d;
    let int_start = if negative {
        start + 1
    } else {
        start
    };
    if !(int_start < len && s[int_start] >= 0x30 && s[int_start] <= 0x39) {
        return Err(ParseError { kind: ErrorKind::Mismatch, offset: int_start, expected: Expected::Digit });
    }
    let (data, int_end, frac_end) = parse_significand(s, int_start);
    match parse_exponent(s, frac_end, int_end - int_start) {
        Ok((exponent, end)) => Ok((Dec { negative, data, exponent }, end)),
        Err(e) => Err(e),
    }
}

proof fn lemma_strip_zeros(d: Seq<u8>)
    ensures
        strip_zeros(d).len() <= d.len(),
        strip_zeros(d) == d.subrange(0, strip_zeros(d).len() as int),
        strip_zeros(d).len() > 0 ==> strip_zeros(d).last() != 0,
    decreases d.len(),
{
    if d.len() > 0 && d.last() == 0 {
        lemma_strip_zeros(d.drop_last());
        assert(d.drop_last().subrange(0, strip_zeros(d).len() as int) =~= d.subrange(
            0,
            strip_zeros(d).len() as int,
        ));
    } else {
        assert(d.subrange(0, d.len() as int) =~= d);
    }
}

/// A decimal read from text is canonical.
proof fn lemma_decimal_canonical(s: Seq<u8>, start: int)
    requires
        0 <= start <= s.len(),
        decimal_at(s, start) is Ok,
    ensures
        canonical(decimal_at(s, start)->Ok_0.0),
{
    let m = decimal_at(s, start)->Ok_0.0;
    let int_start = if start < s.len() && s[start] == 0x2d {
        start + 1
    } else {
        start
    };
    lemma_digit_run(s, int_start);
    let int_end = int_part_end(s, int_start);
    let frac = if has_fraction(s, int_end) {
        lemma_digit_run(s, int_end + 1);
        digit_values(s.subrange(int_end + 1, fraction_end(s, int_end)))
    } else {
        Seq::empty()
    };
    let all = digit_values(s.subrange(int_start, int_end)) + frac;
    assert forall|i: int| 0 <= i < all.len() implies #[trigger] all[i] <= 9 by {
        if i < int_end - int_start {
            assert(is_digit(s[int_start + i]));
        } else {
            assert(is_digit(s[int_end + 1 + i - (int_end - int_start)]));
        }
    }
    lemma_strip_zeros(all);
    assert(m.digits == strip_zeros(all));
    assert forall|i: int| 0 <= i < m.digits.len() implies #[trigger] m.digits[i] <= 9 by {
        assert(m.digits[i] == all[i]);
    }
}

proof fn lemma_digit_run_to_end(s: Seq<u8>, p: int)
    requires
        0 <= p <= s.len(),
        forall|i: int| p <= i < s.len() ==> is_digit(#[trigger] s[i]),
    ensures
        digit_run_end(s, p) == s.len(),
    decreases s.len() - p,
{
    if p < s.len() {
        lemma_digit_run_to_end(s, p + 1);
    }
}

proof fn lemma_strip_padding(d: Seq<u8>, k: nat)
    ensures
        strip_zeros(d + Seq::new(k, |i: int| 0u8)) == strip_zeros(d),
    decreases k,
{
    let padded = d + Seq::new(k, |i: int| 0u8);
    if k > 0 {
        assert(padded.drop_last() =~= d + Seq::new((k - 1) as nat, |i: int| 0u8));
        lemma_strip_padding(d, (k - 1) as nat);
    } else {
        assert(padded =~= d);
    }
}

/// Rendering a decimal and reading the text back gives the same decimal and
/// consumes the whole text, for every integral decimal whose digits either
/// start with a non-zero digit or are empty with the decimal point right
/// after one zero (the decimal `0`).
pub proof fn lemma_render_parse_round_trip(m: DecModel)
    requires
        canonical(m),
        is_integral(m),
        (m.digits.len() > 0 && m.digits[0] != 0) || (m.digits.len() == 0 && m.exponent == 1),
    ensures
        decimal_at(render(m), 0) == Ok::<(DecModel, int), ParseError>((m, render(m).len() as int)),
{
    let s = render(m);
    let sign = if m.negative {
        seq![0x2du8]
    } else {
        Seq::<u8>::empty()
    };
    let k = m.exponent - m.digits.len();
    let body = digit_text(m.digits) + zeros(k);
    assert(s =~= sign + body);
    let int_start = sign.len() as int;
    assert forall|i: int| int_start <= i < s.len() implies is_digit(#[trigger] s[i]) by {
        assert(s[i] == body[i - int_start]);
        if i - int_start < m.digits.len() {
            assert(m.digits[i - int_start] <= 9);
        }
    }
    assert(body.len() > 0);
    assert(s[0] == 0x2d <==> m.negative);
    let int_end = int_part_end(s, int_start);
    let values = digit_values(s.subrange(int_start, s.len() as int));
    if m.digits.len() > 0 {
        assert(s[int_start] == body[0]);
        assert(s[int_start] != 0x30);
        lemma_digit_run_to_end(s, int_start);
        assert(values =~= m.digits + Seq::new(k as nat, |i: int| 0u8));
        lemma_strip_padding(m.digits, k as nat);
        assert(strip_zeros(values) == m.digits);
    } else {
        assert(body =~= seq![0x30u8]);
        assert(values =~= seq![0u8]);
        assert(seq![0u8].drop_last() =~= Seq::<u8>::empty());
        assert(strip_zeros(Seq::<u8>::empty()) == Seq::<u8>::empty());
        assert(strip_zeros(values) == m.digits);
    }
    assert(int_end == s.len());
    assert(!has_fraction(s, int_end));
    assert(m.digits == strip_zeros(m.digits));
    assert(values + Seq::<u8>::empty() =~= values);
    assert(significant_digits(s, int_start) == m.digits);
    assert(exponent_at(s, s.len() as int, int_end - int_start) == Ok::<(int, int), ParseError>(
        (m.exponent, s.len() as int),
    ));
}

/// Appends the characters of the digit values `d`.
fn push_digit_text(out: &mut String, d: &Vec<u8>)
    requires
        forall|i: int| 0 <= i < d@.len() ==> #[trigger] d@[i] <= 9,
    ensures
        encode_utf8(final(out)@) == encode_utf8(old(out)@) + digit_text(d@),
{
    let ghost start = encode_utf8(out@);
    let mut i: usize = 0;
    while i < d.len()
        invariant
            0 <= i <= d@.len(),
            forall|i: int| 0 <= i < d@.len() ==> #[trigger] d@[i] <= 9,
            encode_utf8(out@) == start + digit_text(d@.subrange(0, i as int)),
        decreases d@.len() - i,
    {
        push_ascii(out, d[i] + 0x30);
        i = i + 1;
        assert(digit_text(d@.subrange(0, i as int)) =~= digit_text(d@.subrange(0, i - 1)).push(
            (d@[i - 1] + 0x30) as u8,
        ));
    }
    assert(d@.subrange(0, d@.len() as int) =~= d@);
}

/// Appends `n` zero characters.
fn push_zeros(out: &mut String, n: usize)
    ensures
        encode_utf8(final(out)@) == encode_utf8(old(out)@) + zeros(n as int),
{
    let ghost start = encode_utf8(out@);
    let mut i: usize = 0;
    while i < n
        invariant
            0 <= i <= n,
            encode_utf8(out@) == start + zeros(i as int),
        decreases n - i,
    {
        push_ascii(out, 0x30);
        i = i + 1;
        assert(zeros(i as int) =~= zeros(i - 1).push(0x30u8));
    }
}

/// Appends `n` in base ten.
fn push_nat(out: &mut String, n: u32)
    ensures
        encode_utf8(final(out)@) == encode_utf8(old(out)@) + nat_text(n as nat),
    decreases n,
{
    let ghost start = encode_utf8(out@);
    if n >= 10 {
        push_nat(out, n / 10);
    }
    push_ascii(out, (n % 10) as u8 + 0x30);
    if n >= 10 {
        assert(encode_utf8(out@) =~= start + nat_text(n as nat));
    } else {
        assert(encode_utf8(out@) =~= start + nat_text(n as nat));
    }
}

impl Dec {
    /// Digits and exponent are canonical.
    pub open spec fn wf(&self) -> bool {
        canonical(self@)
    }

    /// Parses a decimal literal at the start of `input`; gives the rest of
    /// the input and the number.
    pub fn parse(input: &str) -> (r: Result<(&str, Dec), ParseError>)
        ensures
            r matches Ok((rest, d)) ==> (decimal_at(input.spec_bytes(), 0) matches Ok((m, e))
                && d@ == m && rest.spec_bytes() == input.spec_bytes().subrange(
                e,
                input.spec_bytes().len() as int,
            )),
            r matches Err(err) ==> decimal_at(input.spec_bytes(), 0) == Err::<
                (DecModel, int),
                ParseError,
            >(err),
            r matches Ok((_, d)) ==> d.wf(),
    {
        let s = input.as_bytes();
        match parse_decimal_at(s, 0) {
            Ok((d, e)) => {
                proof {
                    lemma_decimal_canonical(s@, 0);
                }
                Ok((rest_after(input, e), d))
            },
            Err(err) => Err(err),
        }
    }

    /// All digits lie at or above the decimal point.
    pub fn is_int(&self) -> (r: bool)
        ensures
            r == is_integral(self@),
    {
        self.exponent >= 0 && self.data.len() <= self.exponent as usize
    }

    /// The canonical text of the number.
    pub fn to_string(&self) -> (r: String)
        requires
            self.wf(),
        ensures
            encode_utf8(r@) == render(self@),
    {
        let mut out = String::new();
        let ghost sign = if self.negative {
            seq![0x2du8]
        } else {
            Seq::<u8>::empty()
        };
        assert(encode_utf8(out@) =~= Seq::<u8>::empty());
        if self.negative {
            push_ascii(&mut out, 0x2d);
        }
        assert(encode_utf8(out@) =~= sign);
        if self.is_int() {
            push_digit_text(&mut out, &self.data);
            push_zeros(&mut out, (self.exponent as usize) - self.data.len());
            return out;
        }
        if self.data.len() == 0 {
            push_ascii(&mut out, 0x30);
            assert(encode_utf8(out@) =~= sign + seq![0x30u8]);
        } else {
            push_ascii(&mut out, 0x30);
            push_ascii(&mut out, 0x2e);
            push_digit_text(&mut out, &self.data);
            assert(encode_utf8(out@) =~= sign + (seq![0x30u8, 0x2eu8] + digit_text(self.data@)));
        }
        let ghost mantissa = encode_utf8(out@);
        if self.exponent != 0 {
            push_ascii(&mut out, 0x65);
            if self.exponent < 0 {
                push_ascii(&mut out, 0x2d);
                let magnitude: u32 = if self.exponent == -0x8000_0000 {
                    0x8000_0000
                } else {
                    (-self.exponent) as u32
                };
                push_nat(&mut out, magnitude);
            } else {
                push_nat(&mut out, self.exponent as u32);
            }
            assert(encode_utf8(out@) =~= mantissa + (seq![0x65u8] + int_text(self.exponent as int)));
        } else {
            assert(encode_utf8(out@) =~= mantissa + Seq::<u8>::empty());
        }
        out
    }
}

/// The integer that `b` writes: an optional sign and decimal digits, when
/// it fits in `i32`.
pub open spec fn i32_value(b: Seq<u8>) -> Option<i32> {
    let negative = b.len() > 0 && b[0] == 0x2d;
    let signed = b.len() > 0 && (b[0] == 0x2d || b[0] == 0x2b);
    let digits = if signed {
        b.drop_first()
    } else {
        b
    };
    if digits.len() > 0 && (forall|i: int| 0 <= i < digits.len() ==> is_digit(#[trigger] digits[i])) {
        let v = if negative {
            -number_value(digits)
        } else {
            number_value(digits) as int
        };
        if i32::MIN <= v <= i32::MAX {
            Some(v as i32)
        } else {
            None
        }
    } else {
        None
    }
}

/// Relies on `str::parse::<i32>`: an optional `+` or `-` and decimal digits,
/// within the range of `i32`.
#[verifier::external_body]
pub(crate) fn parse_i32(s: &str) -> (r: Option<i32>)
    ensures
        r == i32_value(s.spec_bytes()),
{
    s.parse::<i32>().ok()
}

} // verus!
