use vstd::prelude::*;
use vstd::utf8::is_char_boundary;
use vstd::string::StringSliceAdditionalSpecFns;
use vstd::utf8::encode_utf8;

verus! {

/// A parse position: the whole text and a byte offset into it.
#[derive(Debug, Clone, PartialEq, Eq)]
pub struct Ctx {
    pub text: String,
    pub index: usize,
}

/// A matched value together with the position right after it.
#[derive(Debug, PartialEq, Clone)]
pub struct Success<T> {
    pub ctx: Ctx,
    pub val: T,
}

/// A mismatch: how far the attempt got and what was expected there.
#[derive(Debug, PartialEq, Clone)]
pub struct Failure {
    pub ctx: Ctx,
    pub expected: String,
}

/// The outcome of one parse attempt.
pub type ParseResult<T> = Result<Success<T>, Failure>;

/// `i`, but no larger than `len`.
pub open spec fn clamp(i: int, len: int) -> int {
    if i > len {
        len
    } else {
        i
    }
}

impl Ctx {
    /// The text as UTF-8 bytes; offsets count these.
    pub open spec fn bytes(&self) -> Seq<u8> {
        encode_utf8(self.text@)
    }

    /// The offset lies within the text.
    pub open spec fn wf(&self) -> bool {
        self.index <= self.bytes().len() <= usize::MAX
    }

    /// The bytes not yet read.
    pub open spec fn rest(&self) -> Seq<u8> {
        self.bytes().subrange(self.index as int, self.bytes().len() as int)
    }

    /// The same text at another offset.
    pub open spec fn at(&self, index: int) -> Ctx {
        Ctx { text: self.text, index: index as usize }
    }

    /// `m` stands in the text at the offset.
    pub open spec fn matches_at(&self, m: Seq<u8>) -> bool {
        &&& self.index + m.len() <= self.bytes().len()
        &&& self.bytes().subrange(self.index as int, self.index + m.len()) == m
    }

    pub fn new(text: &str) -> (r: Ctx)
        ensures
            r.text@ == text@,
            r.index == 0,
            r.wf(),
    {
        let len = text.as_bytes().len();
        assert(len == encode_utf8(text@).len());
        Ctx { text: text.to_owned(), index: 0 }
    }

    /// The same text at `index`, clamped to the text's length.
    pub fn next(&self, index: usize) -> (r: Ctx)
        ensures
            r.text == self.text,
            r.index == clamp(index as int, self.bytes().len() as int),
            r.wf(),
            self.bytes().len() <= usize::MAX,
    {
        let len = self.text.as_str().as_bytes().len();
        let new_index = if index > len {
            len
        } else {
            index
        };
        Ctx { text: self.text.clone(), index: new_index }
    }

    /// The same text `count` bytes further on, clamped to the text's length.
    pub fn skip(&self, count: usize) -> (r: Ctx)
        ensures
            r.text == self.text,
            r.index == clamp(self.index + count, self.bytes().len() as int),
            r.wf(),
    {
        self.next(self.index.saturating_add(count))
    }

    pub fn success<T>(&self, val: T) -> (r: Success<T>)
        ensures
            r.ctx == *self,
            r.val == val,
    {
        Success { ctx: Ctx { text: self.text.clone(), index: self.index }, val }
    }

    pub fn failure(&self, expected: String) -> (r: Failure)
        ensures
            r.ctx == *self,
            r.expected == expected,
    {
        Failure { ctx: Ctx { text: self.text.clone(), index: self.index }, expected }
    }

    /// The text from the offset on.
    pub fn text_slice(&self) -> (r: &str)
        requires
            self.wf(),
            is_char_boundary(self.bytes(), self.index as int),
        ensures
            r.spec_bytes() == self.rest(),
    {
        let (_, r) = self.text.as_str().split_at(self.index);
        r
    }

    /// Matches the exact text `m` at the offset.
    pub fn parse_str(&self, m: String) -> (r: ParseResult<String>)
        requires
            self.wf(),
        ensures
            r is Ok <==> self.matches_at(encode_utf8(m@)),
            r matches Ok(s) ==> s.ctx == self.at(self.index + encode_utf8(m@).len()) && s.val == m,
            r matches Err(f) ==> f.ctx == *self && f.expected == m,
    {
        let t = self.text.as_str().as_bytes();
        let mb = m.as_str().as_bytes();
        let n = mb.len();
        if n > t.len() - self.index {
            assert(self.index + n > self.bytes().len());
            return Err(self.failure(m));
        }
        let mut i: usize = 0;
        while i < n
            invariant
                self.wf(),
                t@ == self.bytes(),
                mb@ == encode_utf8(m@),
                n == mb@.len(),
                self.index + n <= t@.len(),
                t@.len() <= usize::MAX,
                0 <= i <= n,
                t@.subrange(self.index as int, self.index + i) == mb@.subrange(0, i as int),
            decreases n - i,
        {
            if t[self.index + i] != mb[i] {
                assert(t@.subrange(self.index as int, self.index + n)[i as int] != mb@[i as int]);
                return Err(self.failure(m));
            }
            assert(t@.subrange(self.index as int, self.index + i + 1) =~= t@.subrange(
                self.index as int,
                self.index + i,
            ).push(t@[self.index + i]));
            assert(mb@.subrange(0, i + 1) =~= mb@.subrange(0, i as int).push(mb@[i as int]));
            i = i + 1;
        }
        assert(mb@.subrange(0, n as int) =~= mb@);
        Ok(self.skip(n).success(m))
    }
}

/// Opaque compiled pattern of the `regex` crate.
#[verifier::external_type_specification]
#[verifier::external_body]
pub struct ExRegex(regex::Regex);

/// Relies on `regex::Regex::find`: the leftmost-first match in `text`, given
/// as its byte range and the matched text (`Match::as_str` is
/// `text[start..end]`).
#[verifier::external_body]
fn find_match(re: &regex::Regex, text: &str) -> (r: Option<(usize, usize, String)>)
    ensures
        r matches Some((s, e, m)) ==> s <= e <= text.spec_bytes().len() && encode_utf8(m@)
            == text.spec_bytes().subrange(s as int, e as int),
{
    match re.find(text) {
        Some(m) => Some((m.start(), m.end(), m.as_str().to_string())),
        None => None,
    }
}

impl Ctx {
    /// Turns what a pattern search over the rest of the text found into an
    /// outcome: a match that starts right at the offset is consumed, anything
    /// else is a mismatch that expected `expected`.
    pub fn accept_match(&self, found: Option<(usize, usize, String)>, expected: String) -> (r:
        ParseResult<String>)
        requires
            self.wf(),
        ensures
            r is Ok <==> (found matches Some((s, _, _)) && s == 0),
            r matches Ok(s) ==> s.ctx == self.at(
                clamp(self.index + found->Some_0.1, self.bytes().len() as int),
            ) && s.val == found->Some_0.2,
            r matches Err(f) ==> f.ctx == *self && f.expected == expected,
    {
        match found {
            Some((start, end, m)) => {
                if start == 0 {
                    Ok(self.skip(end).success(m))
                } else {
                    Err(self.failure(expected))
                }
            },
            None => Err(self.failure(expected)),
        }
    }

    /// Matches `re` at the offset: the pattern's leftmost match in the rest
    /// of the text, when that match starts right at the offset.
    pub fn parse_regex(&self, re: regex::Regex, expected: String) -> (r: ParseResult<String>)
        requires
            self.wf(),
            is_char_boundary(self.bytes(), self.index as int),
        ensures
            r matches Ok(s) ==> exists|e: int|
                #![trigger self.at(self.index + e)]
                0 <= e && self.index + e <= self.bytes().len() && s.ctx == self.at(self.index + e)
                    && encode_utf8(s.val@) == self.bytes().subrange(
                    self.index as int,
                    self.index + e,
                ),
            r matches Err(f) ==> f.ctx == *self && f.expected == expected,
    {
        let text = self.text_slice();
        let found = find_match(&re, text);
        let r = self.accept_match(found, expected);
        if let Ok(s) = &r {
            let ghost e = found->Some_0.1 as int;
            assert(self.bytes().subrange(self.index as int, self.index + e) =~= self.rest().subrange(0, e));
            assert(s.ctx == self.at(self.index + e));
        }
        r
    }
}

impl<T> Success<T> {
    pub fn ctx(&self) -> (r: &Ctx)
        ensures
            *r == self.ctx,
    {
        &self.ctx
    }

    pub fn val(&self) -> (r: T) where T: Clone
        ensures
            cloned(self.val, r),
    {
        self.val.clone()
    }

    pub fn index(&self) -> (r: usize)
        ensures
            r == self.ctx.index,
    {
        self.ctx.index
    }
}

impl Failure {
    pub fn expected(&self) -> (r: String)
        ensures
            r == self.expected,
    {
        self.expected.clone()
    }

    pub fn index(&self) -> (r: usize)
        ensures
            r == self.ctx.index,
    {
        self.ctx.index
    }
}

} // verus!
