use crate::decimal::{decimal_at, parse_decimal_at, Dec, DecModel};
use crate::error::{failure, mismatch, ErrorKind, Expected, ParseError};
use crate::text::{push_char, rest_after};
use vstd::prelude::*;
use vstd::string::StringSliceAdditionalSpecFns;

verus! {

/// A JSON value as a mathematical object. An object is a sequence of
/// entries with distinct keys; their order carries no meaning.
pub enum Json {
    Str(Seq<char>),
    Num(DecModel),
    Obj(Seq<(Seq<char>, Json)>),
    Array(Seq<Json>),
    Bool(bool),
    Null,
}

/// The outcome of reading a value: the value and the offset after it.
pub type Read<V> = Result<(V, int), ParseError>;

/// Space, `\n`, `\r` or `\t`.
pub open spec fn is_ws(b: u8) -> bool {
    b == 0x20 || b == 0x0a || b == 0x0d || b == 0x09
}

/// The offset after the run of whitespace that starts at `p`.
pub open spec fn ws_end(s: Seq<u8>, p: int) -> int
    decreases s.len() - p,
{
    if 0 <= p < s.len() && is_ws(s[p]) {
        ws_end(s, p + 1)
    } else {
        p
    }
}

/// A printable ASCII character, `0x20` to `0x7E`.
pub open spec fn is_printable(b: u8) -> bool {
    0x20 <= b <= 0x7e
}

/// The character that the escape `\b` stands for.
pub open spec fn unescape(b: u8) -> Option<char> {
    if b == 0x6e {
        Some('\n')
    } else if b == 0x72 {
        Some('\r')
    } else if b == 0x74 {
        Some('\t')
    } else if b == 0x5c {
        Some('\\')
    } else if b == 0x22 {
        Some('"')
    } else {
        None
    }
}

/// `c` in front of the text that `r` read.
pub open spec fn prepend(c: char, r: Read<Seq<char>>) -> Read<Seq<char>> {
    match r {
        Ok((t, e)) => Ok((seq![c] + t, e)),
        Err(x) => Err(x),
    }
}

/// The contents of a string from `q` on, up to and including the closing
/// quote. Once the opening quote is read every error is a hard failure.
pub open spec fn string_body(s: Seq<u8>, q: int) -> Read<Seq<char>>
    decreases s.len() - q,
{
    if q < 0 || q >= s.len() {
        Err(failure(q, Expected::Printable))
    } else if s[q] == 0x5c {
        if q + 1 >= s.len() {
            Err(failure(q + 1, Expected::Escape))
        } else {
            match unescape(s[q + 1]) {
                Some(c) => prepend(c, string_body(s, q + 2)),
                None => Err(failure(q, Expected::Escape)),
            }
        }
    } else if s[q] == 0x22 {
        Ok((Seq::empty(), q + 1))
    } else if is_printable(s[q]) {
        prepend(s[q] as char, string_body(s, q + 1))
    } else {
        Err(failure(q, Expected::Printable))
    }
}

/// A quoted string at `p`.
pub open spec fn string_at(s: Seq<u8>, p: int) -> Read<Seq<char>> {
    if 0 <= p < s.len() && s[p] == 0x22 {
        string_body(s, p + 1)
    } else {
        Err(mismatch(p, Expected::Char(0x22)))
    }
}

pub open spec fn is_alpha(b: u8) -> bool {
    (0x41 <= b <= 0x5a) || (0x61 <= b <= 0x7a)
}

pub open spec fn is_alnum(b: u8) -> bool {
    is_alpha(b) || (0x30 <= b <= 0x39)
}

/// The offset after the run of letters and digits that starts at `p`.
pub open spec fn alnum_end(s: Seq<u8>, p: int) -> int
    decreases s.len() - p,
{
    if 0 <= p < s.len() && is_alnum(s[p]) {
        alnum_end(s, p + 1)
    } else {
        p
    }
}

/// `true`, `false` or `null` as an identifier at `p`. Any other identifier
/// is a hard failure.
pub open spec fn literal_at(s: Seq<u8>, p: int) -> Read<Json> {
    if !(0 <= p < s.len() && is_alpha(s[p])) {
        Err(mismatch(p, Expected::Identifier))
    } else {
        let e = alnum_end(s, p + 1);
        let word = s.subrange(p, e);
        if word == seq![0x74u8, 0x72u8, 0x75u8, 0x65u8] {
            Ok((Json::Bool(true), e))
        } else if word == seq![0x66u8, 0x61u8, 0x6cu8, 0x73u8, 0x65u8] {
            Ok((Json::Bool(false), e))
        } else if word == seq![0x6eu8, 0x75u8, 0x6cu8, 0x6cu8] {
            Ok((Json::Null, e))
        } else {
            Err(failure(p, Expected::Literal))
        }
    }
}

/// The outcome of two alternatives tried in order: a match or a hard
/// failure of the first stands; otherwise the second's match or hard
/// failure; otherwise the mismatch that got further, the first on a tie.
pub open spec fn either<V>(a: Read<V>, b: Read<V>) -> Read<V> {
    match a {
        Ok(_) => a,
        Err(ea) => if ea.kind == ErrorKind::Failure {
            a
        } else {
            match b {
                Ok(_) => b,
                Err(eb) => if eb.kind == ErrorKind::Failure || eb.offset > ea.offset {
                    b
                } else {
                    a
                },
            }
        },
    }
}

/// A key and value to an object's entries: replaces the value of an entry
/// with that key, or adds the entry.
pub open spec fn insert(entries: Seq<(Seq<char>, Json)>, k: Seq<char>, v: Json) -> Seq<
    (Seq<char>, Json),
> {
    if exists|i: int| 0 <= i < entries.len() && entries[i].0 == k {
        let i = choose|i: int| 0 <= i < entries.len() && entries[i].0 == k;
        entries.update(i, (k, v))
    } else {
        entries.push((k, v))
    }
}

/// No two entries have the same key.
pub open spec fn keys_unique(entries: Seq<(Seq<char>, Json)>) -> bool {
    forall|i: int, j: int|
        0 <= i < entries.len() && 0 <= j < entries.len() && i != j ==> entries[i].0 != entries[j].0
}

/// Whitespace, then a string, a number, an object, an array or a literal
/// (tried in this order, see `either`), then whitespace.
pub open spec fn value_at(s: Seq<u8>, p: int) -> Read<Json>
    decreases s.len() - p, 3int,
{
    if 0 <= p < s.len() && is_ws(s[p]) {
        value_at(s, p + 1)
    } else {
        let str_value = match string_at(s, p) {
            Ok((t, e)) => Ok((Json::Str(t), e)),
            Err(x) => Err(x),
        };
        let num_value = match decimal_at(s, p) {
            Ok((m, e)) => Ok((Json::Num(m), e)),
            Err(x) => Err(x),
        };
        let r = either(
            either(either(either(str_value, num_value), object_at(s, p)), array_at(s, p)),
            literal_at(s, p),
        );
        match r {
            Ok((v, e)) => Ok((v, ws_end(s, e))),
            Err(x) => Err(x),
        }
    }
}

/// The closing `]` at the offset where the elements `r` ended.
pub open spec fn close_array(s: Seq<u8>, r: Read<Seq<Json>>) -> Read<Json> {
    match r {
        Ok((vs, i)) => if 0 <= i < s.len() && s[i] == 0x5d {
            Ok((Json::Array(vs), i + 1))
        } else {
            Err(mismatch(i, Expected::Char(0x5d)))
        },
        Err(x) => Err(x),
    }
}

/// `[`, values separated by `,`, `]`.
pub open spec fn array_at(s: Seq<u8>, p: int) -> Read<Json>
    decreases s.len() - p, 2int,
{
    if !(0 <= p < s.len() && s[p] == 0x5b) {
        Err(mismatch(p, Expected::Char(0x5b)))
    } else {
        match value_at(s, p + 1) {
            // A match always ends within the text and after the start; the
            // bound only makes the recursion visibly well-founded.
            Ok((v, e)) => if p < e <= s.len() {
                close_array(s, array_more(s, e, seq![v]))
            } else {
                Err(mismatch(p, Expected::Char(0x5b)))
            },
            Err(x) => if x.kind == ErrorKind::Failure {
                Err(x)
            } else {
                close_array(s, Ok((Seq::empty(), p + 1)))
            },
        }
    }
}

/// The further `,`-separated values from `i` on, after the values `acc`.
/// A separator that no value follows is left unread.
pub open spec fn array_more(s: Seq<u8>, i: int, acc: Seq<Json>) -> Read<Seq<Json>>
    decreases s.len() - i, 1int,
{
    if 0 <= i < s.len() && s[i] == 0x2c {
        match value_at(s, i + 1) {
            // A match always ends within the text and after the start; the
            // bound only makes the recursion visibly well-founded.
            Ok((v, e)) => if i < e <= s.len() {
                array_more(s, e, acc.push(v))
            } else {
                Ok((acc, i))
            },
            Err(x) => if x.kind == ErrorKind::Failure {
                Err(x)
            } else {
                Ok((acc, i))
            },
        }
    } else {
        Ok((acc, i))
    }
}

/// One `key : value` entry at `i`: whitespace, a string, whitespace, `:`,
/// then a value.
pub open spec fn entry_at(s: Seq<u8>, i: int) -> Result<(Seq<char>, Json, int), ParseError>
    decreases s.len() - i, 2int,
{
    match string_at(s, ws_end(s, i)) {
        Ok((k, ke)) => {
            let c = ws_end(s, ke);
            if !(0 <= c < s.len() && s[c] == 0x3a) {
                Err(mismatch(c, Expected::Char(0x3a)))
            } else if c < i {
                // Never the case (whitespace and strings only move forward); the
                // bound only makes the recursion visibly well-founded.
                Err(mismatch(c, Expected::Char(0x3a)))
            } else {
                match value_at(s, c + 1) {
                    Ok((v, e)) => Ok((k, v, e)),
                    Err(x) => Err(x),
                }
            }
        },
        Err(x) => Err(x),
    }
}

/// The closing `}` at the offset where the entries `r` ended.
pub open spec fn close_object(s: Seq<u8>, r: Read<Seq<(Seq<char>, Json)>>) -> Read<Json> {
    match r {
        Ok((es, i)) => if 0 <= i < s.len() && s[i] == 0x7d {
            Ok((Json::Obj(es), i + 1))
        } else {
            Err(mismatch(i, Expected::Char(0x7d)))
        },
        Err(x) => Err(x),
    }
}

/// `{`, entries separated by `,`, `}`; a later entry replaces an earlier
/// one with the same key.
pub open spec fn object_at(s: Seq<u8>, p: int) -> Read<Json>
    decreases s.len() - p, 2int,
{
    if !(0 <= p < s.len() && s[p] == 0x7b) {
        Err(mismatch(p, Expected::Char(0x7b)))
    } else {
        match entry_at(s, p + 1) {
            // A match always ends within the text and after the start; the
            // bound only makes the recursion visibly well-founded.
            Ok((k, v, e)) => if p < e <= s.len() {
                close_object(s, object_more(s, e, seq![(k, v)]))
            } else {
                Err(mismatch(p, Expected::Char(0x7b)))
            },
            Err(x) => if x.kind == ErrorKind::Failure {
                Err(x)
            } else {
                close_object(s, Ok((Seq::empty(), p + 1)))
            },
        }
    }
}

/// The further `,`-separated entries from `i` on, after the entries `acc`.
pub open spec fn object_more(s: Seq<u8>, i: int, acc: Seq<(Seq<char>, Json)>) -> Read<
    Seq<(Seq<char>, Json)>,
>
    decreases s.len() - i, 1int,
{
    if 0 <= i < s.len() && s[i] == 0x2c {
        match entry_at(s, i + 1) {
            // A match always ends within the text and after the start; the
            // bound only makes the recursion visibly well-founded.
            Ok((k, v, e)) => if i < e <= s.len() {
                object_more(s, e, insert(acc, k, v))
            } else {
                Ok((acc, i))
            },
            Err(x) => if x.kind == ErrorKind::Failure {
                Err(x)
            } else {
                Ok((acc, i))
            },
        }
    } else {
        Ok((acc, i))
    }
}

/// A JSON value.
#[derive(Debug, PartialEq, Eq)]
pub enum JValue {
    Str(String),
    Num(Dec),
    Obj(JObject),
    Array(Vec<JValue>),
    Bool(bool),
    Null,
}

/// A JSON object: entries with distinct keys.
#[derive(Debug, PartialEq, Eq)]
pub struct JObject {
    pub entries: Vec<(String, JValue)>,
}

impl JValue {
    pub open spec fn model(&self) -> Json
        decreases self,
    {
        match self {
            JValue::Str(t) => Json::Str(t@),
            JValue::Num(d) => Json::Num(d@),
            JValue::Obj(o) => Json::Obj(
                Seq::new(
                    o.entries.len() as nat,
                    |i: int|
                        if 0 <= i < o.entries.len() {
                            (o.entries[i].0@, o.entries[i].1.model())
                        } else {
                            (Seq::empty(), Json::Null)
                        },
                ),
            ),
            JValue::Array(v) => Json::Array(
                Seq::new(
                    v.len() as nat,
                    |i: int|
                        if 0 <= i < v.len() {
                            v[i].model()
                        } else {
                            Json::Null
                        },
                ),
            ),
            JValue::Bool(b) => Json::Bool(*b),
            JValue::Null => Json::Null,
        }
    }
}

/// The models of a sequence of values.
pub open spec fn models(v: Seq<JValue>) -> Seq<Json> {
    Seq::new(v.len(), |i: int| v[i].model())
}

/// The models of a sequence of entries.
pub open spec fn entry_models(e: Seq<(String, JValue)>) -> Seq<(Seq<char>, Json)> {
    Seq::new(e.len(), |i: int| (e[i].0@, e[i].1.model()))
}

impl JObject {
    pub open spec fn model(&self) -> Seq<(Seq<char>, Json)> {
        entry_models(self.entries@)
    }

    /// No two entries have the same key.
    pub open spec fn wf(&self) -> bool {
        keys_unique(self.model())
    }

    /// The value stored under `key`.
    pub fn get(&self, key: &String) -> (r: Option<&JValue>)
        ensures
            r is None <==> forall|i: int|
                0 <= i < self.entries@.len() ==> #[trigger] self.entries@[i].0@ != key@,
            r matches Some(v) ==> exists|i: int|
                0 <= i < self.entries@.len() && #[trigger] self.entries@[i].0@ == key@ && *v
                    == self.entries@[i].1,
    {
        let mut i: usize = 0;
        while i < self.entries.len()
            invariant
                0 <= i <= self.entries@.len(),
                forall|j: int| 0 <= j < i ==> #[trigger] self.entries@[j].0@ != key@,
            decreases self.entries@.len() - i,
        {
            if self.entries[i].0 == *key {
                return Some(&self.entries[i].1);
            }
            i = i + 1;
        }
        None
    }

    /// Stores `value` under `key`, replacing the value of an entry with that
    /// key.
    pub fn insert(&mut self, key: String, value: JValue)
        requires
            old(self).wf(),
        ensures
            final(self).wf(),
            final(self).model() == insert(old(self).model(), key@, value.model()),
    {
        let ghost m = self.model();
        let ghost k = key@;
        let ghost v = value.model();
        let mut i: usize = 0;
        while i < self.entries.len()
            invariant
                0 <= i <= self.entries@.len(),
                self.model() == m,
                m == old(self).model(),
                k == key@,
                v == value.model(),
                keys_unique(m),
                m.len() == self.entries@.len(),
                forall|j: int| 0 <= j < i ==> #[trigger] m[j].0 != k,
            decreases self.entries@.len() - i,
        {
            assert(m[i as int].0 == self.entries@[i as int].0@);
            if self.entries[i].0 == key {
                assert(m[i as int].0 == k);
                let ghost old_entries = self.entries@;
                let entry = (key, value);
                let ghost new_entry = entry;
                self.entries[i] = entry;
                assert(self.entries@ == old_entries.update(i as int, new_entry));
                proof {
                    let j = choose|j: int| 0 <= j < m.len() && m[j].0 == k;
                    if j != i {
                        assert(m[j].0 != m[i as int].0);
                    }
                    assert(self.entries@[i as int].0@ == k);
                    assert(self.entries@[i as int].1.model() == v);
                    assert forall|j: int| 0 <= j < m.len() && j != i implies self.entries@[j]
                        == old_entries[j] by {}
                    assert(self.model() =~= m.update(i as int, (k, v)));
                    assert(self.model() == insert(m, k, v));
                }
                return;
            }
            i = i + 1;
        }
        self.entries.push((key, value));
        assert(self.model() =~= m.push((k, v)));
    }
}

/// The bytes from `a` to `b` are ASCII.
pub open spec fn ascii_between(s: Seq<u8>, a: int, b: int) -> bool {
    forall|i: int| a <= i < b ==> #[trigger] s[i] < 0x80
}

/// The model of an outcome of reading a value.
pub open spec fn read_model(r: Result<(JValue, usize), ParseError>) -> Read<Json> {
    match r {
        Ok((v, e)) => Ok((v.model(), e as int)),
        Err(x) => Err(x),
    }
}

/// The offset after the whitespace at `p`.
fn skip_ws(s: &[u8], p: usize) -> (q: usize)
    requires
        p <= s@.len(),
    ensures
        q == ws_end(s@, p as int),
        p <= q <= s@.len(),
        q < s@.len() ==> !is_ws(s@[q as int]),
        ascii_between(s@, p as int, q as int),
{
    let mut q = p;
    while q < s.len() && (s[q] == 0x20 || s[q] == 0x0a || s[q] == 0x0d || s[q] == 0x09)
        invariant
            p <= q <= s@.len(),
            ws_end(s@, p as int) == ws_end(s@, q as int),
            ascii_between(s@, p as int, q as int),
        decreases s@.len() - q,
    {
        q = q + 1;
    }
    q
}

/// Reads the quoted string at `p`.
fn parse_string_at(s: &[u8], p: usize) -> (r: Result<(String, usize), ParseError>)
    requires
        p <= s@.len(),
    ensures
        r matches Ok((t, e)) ==> string_at(s@, p as int) == Ok::<(Seq<char>, int), ParseError>(
            (t@, e as int),
        ),
        r matches Err(x) ==> string_at(s@, p as int) == Err::<(Seq<char>, int), ParseError>(x),
        r matches Ok((t, e)) ==> p < e <= s@.len() && ascii_between(s@, p as int, e as int),
{
    let len = s.len();
    if !(p < len && s[p] == 0x22) {
        return Err(ParseError { kind: ErrorKind::Mismatch, offset: p, expected: Expected::Char(0x22) });
    }
    let mut text = String::new();
    let mut q = p + 1;
    loop
        invariant
            p < q <= s@.len(),
            len == s@.len(),
            ascii_between(s@, p as int, q as int),
            string_at(s@, p as int) == match string_body(s@, q as int) {
                Ok((t, e)) => Ok((text@ + t, e)),
                Err(x) => Err::<(Seq<char>, int), ParseError>(x),
            },
        decreases s@.len() - q,
    {
        if q >= len {
            return Err(ParseError { kind: ErrorKind::Failure, offset: q, expected: Expected::Printable });
        }
        let b = s[q];
        let ghost old_text = text@;
        if b == 0x5c {
            if q + 1 >= len {
                return Err(ParseError { kind: ErrorKind::Failure, offset: q + 1, expected: Expected::Escape });
            }
            let n = s[q + 1];
            let c = if n == 0x6e {
                '\n'
            } else if n == 0x72 {
                '\r'
            } else if n == 0x74 {
                '\t'
            } else if n == 0x5c {
                '\\'
            } else if n == 0x22 {
                '"'
            } else {
                return Err(ParseError { kind: ErrorKind::Failure, offset: q, expected: Expected::Escape });
            };
            assert(unescape(n) == Some(c));
            push_char(&mut text, c);
            assert forall|t: Seq<char>| #[trigger] (old_text + (seq![c] + t)) == text@ + t by {
                assert(old_text + (seq![c] + t) =~= text@ + t);
            }
            q = q + 2;
        } else if b == 0x22 {
            assert(text@ + Seq::<char>::empty() =~= text@);
            return Ok((text, q + 1));
        } else if b >= 0x20 && b <= 0x7e {
            let c = b as char;
            push_char(&mut text, c);
            assert forall|t: Seq<char>| #[trigger] (old_text + (seq![c] + t)) == text@ + t by {
                assert(old_text + (seq![c] + t) =~= text@ + t);
            }
            q = q + 1;
        } else {
            return Err(ParseError { kind: ErrorKind::Failure, offset: q, expected: Expected::Printable });
        }
    }
}

/// The offset after the run of letters and digits that starts at `p`.
pub(crate) fn alnum_run(s: &[u8], p: usize) -> (e: usize)
    requires
        p <= s@.len(),
    ensures
        e == alnum_end(s@, p as int),
        p <= e <= s@.len(),
        ascii_between(s@, p as int, e as int),
{
    let mut e = p;
    while e < s.len() && ((s[e] >= 0x41 && s[e] <= 0x5a) || (s[e] >= 0x61 && s[e] <= 0x7a) || (
    s[e] >= 0x30 && s[e] <= 0x39))
        invariant
            p <= e <= s@.len(),
            alnum_end(s@, p as int) == alnum_end(s@, e as int),
            ascii_between(s@, p as int, e as int),
        decreases s@.len() - e,
    {
        e = e + 1;
    }
    e
}

/// Reads `true`, `false` or `null` at `p`.
fn parse_literal_at(s: &[u8], p: usize) -> (r: Result<(JValue, usize), ParseError>)
    requires
        p <= s@.len(),
    ensures
        read_model(r) == literal_at(s@, p as int),
        r matches Ok((v, e)) ==> p < e <= s@.len() && ascii_between(s@, p as int, e as int),
{
    let len = s.len();
    if !(p < len && ((s[p] >= 0x41 && s[p] <= 0x5a) || (s[p] >= 0x61 && s[p] <= 0x7a))) {
        return Err(
            ParseError { kind: ErrorKind::Mismatch, offset: p, expected: Expected::Identifier },
        );
    }
    let e = alnum_run(s, p + 1);
    let ghost word = s@.subrange(p as int, e as int);
    let n = e - p;
    assert(word.len() == n);
    if n == 4 && s[p] == 0x74 && s[p + 1] == 0x72 && s[p + 2] == 0x75 && s[p + 3] == 0x65 {
        assert(word =~= seq![0x74u8, 0x72u8, 0x75u8, 0x65u8]);
        return Ok((JValue::Bool(true), e));
    }
    assert(word != seq![0x74u8, 0x72u8, 0x75u8, 0x65u8]) by {
        if word == seq![0x74u8, 0x72u8, 0x75u8, 0x65u8] {
            assert(word[0] == s@[p as int] && word[1] == s@[p + 1] && word[2] == s@[p + 2]
                && word[3] == s@[p + 3]);
        }
    }
    if n == 5 && s[p] == 0x66 && s[p + 1] == 0x61 && s[p + 2] == 0x6c && s[p + 3] == 0x73 && s[p
        + 4] == 0x65 {
        assert(word =~= seq![0x66u8, 0x61u8, 0x6cu8, 0x73u8, 0x65u8]);
        return Ok((JValue::Bool(false), e));
    }
    assert(word != seq![0x66u8, 0x61u8, 0x6cu8, 0x73u8, 0x65u8]) by {
        if word == seq![0x66u8, 0x61u8, 0x6cu8, 0x73u8, 0x65u8] {
            assert(word[0] == s@[p as int] && word[1] == s@[p + 1] && word[2] == s@[p + 2]
                && word[3] == s@[p + 3] && word[4] == s@[p + 4]);
        }
    }
    if n == 4 && s[p] == 0x6e && s[p + 1] == 0x75 && s[p + 2] == 0x6c && s[p + 3] == 0x6c {
        assert(word =~= seq![0x6eu8, 0x75u8, 0x6cu8, 0x6cu8]);
        return Ok((JValue::Null, e));
    }
    assert(word != seq![0x6eu8, 0x75u8, 0x6cu8, 0x6cu8]) by {
        if word == seq![0x6eu8, 0x75u8, 0x6cu8, 0x6cu8] {
            assert(word[0] == s@[p as int] && word[1] == s@[p + 1] && word[2] == s@[p + 2]
                && word[3] == s@[p + 3]);
        }
    }
    Err(ParseError { kind: ErrorKind::Failure, offset: p, expected: Expected::Literal })
}

/// The outcome is a match or a hard failure: later alternatives are not
/// tried.
pub open spec fn decided<V>(r: Result<V, ParseError>) -> bool {
    r is Ok || r->Err_0.kind == ErrorKind::Failure
}

fn is_decided(r: &Result<(JValue, usize), ParseError>) -> (b: bool)
    ensures
        b == decided(*r),
{
    match r {
        Ok(_) => true,
        Err(x) => x.kind == ErrorKind::Failure,
    }
}

/// Combines the outcome of an alternative that mismatched with the outcome
/// of the next one.
fn pick(a: Result<(JValue, usize), ParseError>, b: Result<(JValue, usize), ParseError>) -> (r:
    Result<(JValue, usize), ParseError>)
    requires
        !decided(a),
    ensures
        read_model(r) == either(read_model(a), read_model(b)),
        r == a || r == b,
{
    match b {
        Ok(_) => b,
        Err(eb) => {
            let ea = match &a {
                Ok(_) => eb,
                Err(ea) => *ea,
            };
            if eb.kind == ErrorKind::Failure || eb.offset > ea.offset {
                b
            } else {
                a
            }
        },
    }
}

/// Whitespace in front of a value does not change what is read: reading
/// from `p` gives the same outcome as reading from the end of the
/// whitespace that starts at `p`.
pub proof fn lemma_value_ws(s: Seq<u8>, p: int)
    requires
        0 <= p <= s.len(),
    ensures
        value_at(s, p) == value_at(s, ws_end(s, p)),
    decreases s.len() - p,
{
    if p < s.len() && is_ws(s[p]) {
        lemma_value_ws(s, p + 1);
    }
}

/// Reads a value at `p`, with the whitespace around it.
pub fn parse_value_at(s: &[u8], p: usize) -> (r: Result<(JValue, usize), ParseError>)
    requires
        p <= s@.len(),
    ensures
        read_model(r) == value_at(s@, p as int),
        r matches Ok((v, e)) ==> p < e <= s@.len() && ascii_between(s@, p as int, e as int),
    decreases s@.len() - p, 3int,
{
    let q = skip_ws(s, p);
    proof {
        lemma_value_ws(s@, p as int);
    }
    let ghost str_value = match string_at(s@, q as int) {
        Ok((t, e)) => Ok((Json::Str(t), e)),
        Err(x) => Err(x),
    };
    let ghost num_value = match decimal_at(s@, q as int) {
        Ok((m, e)) => Ok((Json::Num(m), e)),
        Err(x) => Err(x),
    };
    let mut r = match parse_string_at(s, q) {
        Ok((t, e)) => Ok((JValue::Str(t), e)),
        Err(x) => Err(x),
    };
    assert(read_model(r) == str_value);
    let ghost acc = str_value;
    if !is_decided(&r) {
        let n = match parse_decimal_at(s, q) {
            Ok((d, e)) => Ok((JValue::Num(d), e)),
            Err(x) => Err(x),
        };
        r = pick(r, n);
    }
    assert(read_model(r) == either(acc, num_value));
    let ghost acc = either(acc, num_value);
    if !is_decided(&r) {
        let o = parse_object_at(s, q);
        r = pick(r, o);
    }
    assert(read_model(r) == either(acc, object_at(s@, q as int)));
    let ghost acc = either(acc, object_at(s@, q as int));
    if !is_decided(&r) {
        let a = parse_array_at(s, q);
        r = pick(r, a);
    }
    assert(read_model(r) == either(acc, array_at(s@, q as int)));
    let ghost acc = either(acc, array_at(s@, q as int));
    if !is_decided(&r) {
        let l = parse_literal_at(s, q);
        r = pick(r, l);
    }
    assert(read_model(r) == either(acc, literal_at(s@, q as int)));
    match r {
        Ok((v, e)) => {
            let e2 = skip_ws(s, e);
            Ok((v, e2))
        },
        Err(x) => Err(x),
    }
}

/// Reads an array at `p`.
fn parse_array_at(s: &[u8], p: usize) -> (r: Result<(JValue, usize), ParseError>)
    requires
        p <= s@.len(),
    ensures
        read_model(r) == array_at(s@, p as int),
        r matches Ok((v, e)) ==> p < e <= s@.len() && ascii_between(s@, p as int, e as int),
    decreases s@.len() - p, 2int,
{
    let len = s.len();
    if !(p < len && s[p] == 0x5b) {
        return Err(
            ParseError { kind: ErrorKind::Mismatch, offset: p, expected: Expected::Char(0x5b) },
        );
    }
    let mut values: Vec<JValue> = Vec::new();
    let mut i: usize;
    let mut stop = false;
    let ghost mut target: Read<Seq<Json>>;
    match parse_value_at(s, p + 1) {
        Ok((v, e)) => {
            let ghost vm = v.model();
            values.push(v);
            assert(models(values@) =~= seq![vm]);
            i = e;
            proof {
                target = array_more(s@, e as int, seq![vm]);
            }
        },
        Err(x) => {
            if x.kind == ErrorKind::Failure {
                return Err(x);
            }
            assert(models(values@) =~= Seq::<Json>::empty());
            i = p + 1;
            stop = true;
            proof {
                target = Ok((Seq::<Json>::empty(), p + 1));
            }
        },
    }
    assert(array_at(s@, p as int) == close_array(s@, target));
    while !stop
        invariant
            p < i <= len,
            len == s@.len(),
            ascii_between(s@, p as int, i as int),
            array_at(s@, p as int) == close_array(s@, target),
            target == if stop {
                Ok((models(values@), i as int))
            } else {
                array_more(s@, i as int, models(values@))
            },
        decreases len - i, if stop {
            0int
        } else {
            1int
        },
    {
        if i < len && s[i] == 0x2c {
            match parse_value_at(s, i + 1) {
                Ok((v, e)) => {
                    let ghost vm = v.model();
                    let ghost old_models = models(values@);
                    values.push(v);
                    assert(models(values@) =~= old_models.push(vm));
                    i = e;
                },
                Err(x) => {
                    if x.kind == ErrorKind::Failure {
                        return Err(x);
                    }
                    stop = true;
                },
            }
        } else {
            stop = true;
        }
    }
    if i < len && s[i] == 0x5d {
        let ghost vs = values@;
        let result = JValue::Array(values);
        assert(result.model()->Array_0 =~= models(vs));
        Ok((result, i + 1))
    } else {
        Err(ParseError { kind: ErrorKind::Mismatch, offset: i, expected: Expected::Char(0x5d) })
    }
}

/// The model of an outcome of reading an entry.
pub open spec fn entry_model(r: Result<(String, JValue, usize), ParseError>) -> Result<
    (Seq<char>, Json, int),
    ParseError,
> {
    match r {
        Ok((k, v, e)) => Ok((k@, v.model(), e as int)),
        Err(x) => Err(x),
    }
}

/// Reads one `key : value` entry at `i`.
fn parse_entry_at(s: &[u8], i: usize) -> (r: Result<(String, JValue, usize), ParseError>)
    requires
        i <= s@.len(),
    ensures
        entry_model(r) == entry_at(s@, i as int),
        r matches Ok((k, v, e)) ==> i < e <= s@.len() && ascii_between(s@, i as int, e as int),
    decreases s@.len() - i, 2int,
{
    let len = s.len();
    let k0 = skip_ws(s, i);
    match parse_string_at(s, k0) {
        Err(x) => Err(x),
        Ok((k, ke)) => {
            let c = skip_ws(s, ke);
            if !(c < len && s[c] == 0x3a) {
                return Err(
                    ParseError {
                        kind: ErrorKind::Mismatch,
                        offset: c,
                        expected: Expected::Char(0x3a),
                    },
                );
            }
            match parse_value_at(s, c + 1) {
                Ok((v, e)) => Ok((k, v, e)),
                Err(x) => Err(x),
            }
        },
    }
}

/// Reads an object at `p`.
fn parse_object_at(s: &[u8], p: usize) -> (r: Result<(JValue, usize), ParseError>)
    requires
        p <= s@.len(),
    ensures
        read_model(r) == object_at(s@, p as int),
        r matches Ok((v, e)) ==> p < e <= s@.len() && ascii_between(s@, p as int, e as int),
        r matches Ok((JValue::Obj(o), _)) ==> o.wf(),
    decreases s@.len() - p, 2int,
{
    let len = s.len();
    if !(p < len && s[p] == 0x7b) {
        return Err(
            ParseError { kind: ErrorKind::Mismatch, offset: p, expected: Expected::Char(0x7b) },
        );
    }
    let mut obj = JObject { entries: Vec::new() };
    let mut i: usize;
    let mut stop = false;
    let ghost mut target: Read<Seq<(Seq<char>, Json)>>;
    match parse_entry_at(s, p + 1) {
        Ok((k, v, e)) => {
            let ghost km = k@;
            let ghost vm = v.model();
            obj.entries.push((k, v));
            assert(obj.model() =~= seq![(km, vm)]);
            i = e;
            proof {
                target = object_more(s@, e as int, seq![(km, vm)]);
            }
        },
        Err(x) => {
            if x.kind == ErrorKind::Failure {
                return Err(x);
            }
            assert(obj.model() =~= Seq::<(Seq<char>, Json)>::empty());
            i = p + 1;
            stop = true;
            proof {
                target = Ok((Seq::<(Seq<char>, Json)>::empty(), p + 1));
            }
        },
    }
    assert(object_at(s@, p as int) == close_object(s@, target));
    while !stop
        invariant
            p < i <= len,
            len == s@.len(),
            ascii_between(s@, p as int, i as int),
            obj.wf(),
            object_at(s@, p as int) == close_object(s@, target),
            target == if stop {
                Ok((obj.model(), i as int))
            } else {
                object_more(s@, i as int, obj.model())
            },
        decreases len - i, if stop {
            0int
        } else {
            1int
        },
    {
        if i < len && s[i] == 0x2c {
            match parse_entry_at(s, i + 1) {
                Ok((k, v, e)) => {
                    obj.insert(k, v);
                    i = e;
                },
                Err(x) => {
                    if x.kind == ErrorKind::Failure {
                        return Err(x);
                    }
                    stop = true;
                },
            }
        } else {
            stop = true;
        }
    }
    if i < len && s[i] == 0x7d {
        let ghost es = obj.model();
        let result = JValue::Obj(obj);
        assert(result.model()->Obj_0 =~= es);
        Ok((result, i + 1))
    } else {
        Err(ParseError { kind: ErrorKind::Mismatch, offset: i, expected: Expected::Char(0x7d) })
    }
}

impl JValue {
    /// Reads a value, with the whitespace around it, at the start of
    /// `input`; gives the rest of the input and the value.
    pub fn parse(input: &str) -> (r: Result<(&str, JValue), ParseError>)
        ensures
            r matches Ok((rest, v)) ==> (value_at(input.spec_bytes(), 0) matches Ok((m, e))
                && v.model() == m && rest.spec_bytes() == input.spec_bytes().subrange(
                e,
                input.spec_bytes().len() as int,
            )),
            r matches Err(x) ==> value_at(input.spec_bytes(), 0) == Err::<(Json, int), ParseError>(
                x,
            ),
    {
        let s = input.as_bytes();
        match parse_value_at(s, 0) {
            Ok((v, e)) => Ok((rest_after(input, e), v)),
            Err(x) => Err(x),
        }
    }
}

/// Skips the whitespace at the start of `input`; never fails.
pub fn whitespace(input: &str) -> (r: Result<(&str, ()), ParseError>)
    ensures
        r matches Ok((rest, _)) && rest.spec_bytes() == input.spec_bytes().subrange(
            ws_end(input.spec_bytes(), 0),
            input.spec_bytes().len() as int,
        ),
{
    let q = skip_ws(input.as_bytes(), 0);
    Ok((rest_after(input, q), ()))
}

/// A quoted string at the start of `input`; gives the rest and the text.
pub fn raw_str(input: &str) -> (r: Result<(&str, String), ParseError>)
    ensures
        r matches Ok((rest, t)) ==> (string_at(input.spec_bytes(), 0) matches Ok((v, e)) && t@ == v
            && rest.spec_bytes() == input.spec_bytes().subrange(e, input.spec_bytes().len() as int)),
        r matches Err(x) ==> string_at(input.spec_bytes(), 0) == Err::<(Seq<char>, int), ParseError>(
            x,
        ),
{
    match parse_string_at(input.as_bytes(), 0) {
        Ok((t, e)) => Ok((rest_after(input, e), t)),
        Err(x) => Err(x),
    }
}

/// A number at the start of `input`; gives the rest and the value.
pub fn raw_num(input: &str) -> (r: Result<(&str, JValue), ParseError>)
    ensures
        r matches Ok((rest, v)) ==> (decimal_at(input.spec_bytes(), 0) matches Ok((m, e))
            && v.model() == Json::Num(m) && rest.spec_bytes() == input.spec_bytes().subrange(
            e,
            input.spec_bytes().len() as int,
        )),
        r matches Err(x) ==> decimal_at(input.spec_bytes(), 0) == Err::<(DecModel, int), ParseError>(
            x,
        ),
{
    match parse_decimal_at(input.as_bytes(), 0) {
        Ok((d, e)) => Ok((rest_after(input, e), JValue::Num(d))),
        Err(x) => Err(x),
    }
}

/// `true`, `false` or `null` at the start of `input`; gives the rest and
/// the value.
pub fn raw_bool_or_null(input: &str) -> (r: Result<(&str, JValue), ParseError>)
    ensures
        r matches Ok((rest, v)) ==> (literal_at(input.spec_bytes(), 0) matches Ok((m, e))
            && v.model() == m && rest.spec_bytes() == input.spec_bytes().subrange(
            e,
            input.spec_bytes().len() as int,
        )),
        r matches Err(x) ==> literal_at(input.spec_bytes(), 0) == Err::<(Json, int), ParseError>(x),
{
    match parse_literal_at(input.as_bytes(), 0) {
        Ok((v, e)) => Ok((rest_after(input, e), v)),
        Err(x) => Err(x),
    }
}

/// An array at the start of `input`; gives the rest and the elements.
pub fn raw_array(input: &str) -> (r: Result<(&str, Vec<JValue>), ParseError>)
    ensures
        r matches Ok((rest, items)) ==> (array_at(input.spec_bytes(), 0) matches Ok((m, e))
            && m == Json::Array(models(items@)) && rest.spec_bytes() == input.spec_bytes().subrange(
            e,
            input.spec_bytes().len() as int,
        )),
        r matches Err(x) ==> array_at(input.spec_bytes(), 0) == Err::<(Json, int), ParseError>(x),
{
    match parse_array_at(input.as_bytes(), 0) {
        Ok((v, e)) => match v {
            JValue::Array(items) => {
                assert(v.model()->Array_0 =~= models(items@));
                Ok((rest_after(input, e), items))
            },
            _ => {
                proof {
                    assert(array_at(input.spec_bytes(), 0)->Ok_0.0 is Array);
                }
                Err(ParseError { kind: ErrorKind::Mismatch, offset: 0, expected: Expected::Char(0x5b) })
            },
        },
        Err(x) => Err(x),
    }
}

/// An object at the start of `input`; gives the rest and the object.
pub fn raw_obj(input: &str) -> (r: Result<(&str, JObject), ParseError>)
    ensures
        r matches Ok((rest, o)) ==> (object_at(input.spec_bytes(), 0) matches Ok((m, e))
            && m == Json::Obj(o.model()) && o.wf() && rest.spec_bytes() == input.spec_bytes().subrange(
            e,
            input.spec_bytes().len() as int,
        )),
        r matches Err(x) ==> object_at(input.spec_bytes(), 0) == Err::<(Json, int), ParseError>(x),
{
    match parse_object_at(input.as_bytes(), 0) {
        Ok((v, e)) => match v {
            JValue::Obj(o) => {
                assert(v.model()->Obj_0 =~= o.model());
                Ok((rest_after(input, e), o))
            },
            _ => {
                proof {
                    assert(object_at(input.spec_bytes(), 0)->Ok_0.0 is Obj);
                }
                Err(ParseError { kind: ErrorKind::Mismatch, offset: 0, expected: Expected::Char(0x7b) })
            },
        },
        Err(x) => Err(x),
    }
}

} // verus!
