use vstd::prelude::*;
use vstd::string::StringSliceAdditionalSpecFns;
use vstd::utf8::{encode_scalar, encode_utf8, encode_utf8_valid_utf8, is_char_boundary, pop_first_scalar, valid_utf8};

verus! {

/// The bytes before `end` are all ASCII.
pub open spec fn ascii_prefix(s: Seq<u8>, end: int) -> bool {
    forall|i: int| 0 <= i < end ==> #[trigger] s[i] < 0x80
}

/// An offset that follows only ASCII bytes falls between characters.
pub proof fn lemma_ascii_prefix_boundary(s: Seq<u8>, end: int)
    requires
        valid_utf8(s),
        0 <= end <= s.len(),
        ascii_prefix(s, end),
    ensures
        is_char_boundary(s, end),
    decreases end,
{
    if end > 0 {
        let rest = pop_first_scalar(s);
        assert(s[0] < 0x80);
        assert(rest =~= s.subrange(1, s.len() as int));
        assert forall|i: int| 0 <= i < end - 1 implies #[trigger] rest[i] < 0x80 by {
            assert(rest[i] == s[i + 1]);
        }
        lemma_ascii_prefix_boundary(rest, end - 1);
    }
}

/// Relies on `String::push`: appends one character.
#[verifier::external_body]
pub(crate) fn push_char(s: &mut String, c: char)
    ensures
        final(s)@ == old(s)@.push(c),
{
    s.push(c)
}

/// The UTF-8 bytes of two character sequences one after the other.
pub proof fn lemma_encode_concat(a: Seq<char>, b: Seq<char>)
    ensures
        encode_utf8(a + b) == encode_utf8(a) + encode_utf8(b),
    decreases a.len(),
{
    if a.len() == 0 {
        assert(a + b =~= b);
        assert(encode_utf8(a) =~= Seq::<u8>::empty());
        assert(encode_utf8(a) + encode_utf8(b) =~= encode_utf8(b));
    } else {
        assert((a + b).drop_first() =~= a.drop_first() + b);
        lemma_encode_concat(a.drop_first(), b);
        assert((a + b)[0] == a[0]);
        assert(encode_utf8(a + b) =~= encode_utf8(a) + encode_utf8(b));
    }
}

/// An ASCII character is encoded as its own code.
pub proof fn lemma_encode_push_ascii(a: Seq<char>, b: u8)
    requires
        b < 0x80,
    ensures
        encode_utf8(a.push(b as char)) == encode_utf8(a).push(b),
{
    let c = b as char;
    lemma_encode_concat(a, seq![c]);
    assert(a.push(c) =~= a + seq![c]);
    assert(seq![c].drop_first() =~= Seq::<char>::empty());
    let v = c as u32;
    assert(v == b as u32);
    assert((v & 0x7F) as u8 == b) by (bit_vector)
        requires
            v == b as u32,
            b < 0x80,
    ;
    assert(seq![c][0] == c);
    assert(encode_utf8(Seq::<char>::empty()) =~= Seq::<u8>::empty());
    assert(encode_scalar(v) =~= seq![b]);
    assert(encode_utf8(seq![c]) =~= encode_scalar(v) + encode_utf8(Seq::<char>::empty()));
    assert(encode_utf8(seq![c]) =~= seq![b]);
}

/// Appends an ASCII byte to a string.
pub(crate) fn push_ascii(s: &mut String, b: u8)
    requires
        b < 0x80,
    ensures
        final(s)@ == old(s)@.push(b as char),
        encode_utf8(final(s)@) == encode_utf8(old(s)@).push(b),
{
    proof {
        lemma_encode_push_ascii(s@, b);
    }
    push_char(s, b as char);
}

/// The rest of `input` from byte `end` on, where all bytes before `end`
/// are ASCII.
pub(crate) fn rest_after<'a>(input: &'a str, end: usize) -> (r: &'a str)
    requires
        end <= input.spec_bytes().len(),
        ascii_prefix(input.spec_bytes(), end as int),
    ensures
        r.spec_bytes() == input.spec_bytes().subrange(end as int, input.spec_bytes().len() as int),
{
    proof {
        encode_utf8_valid_utf8(input@);
        lemma_ascii_prefix_boundary(input.spec_bytes(), end as int);
    }
    let (_, r) = input.split_at(end);
    r
}

/// A non-empty character sequence has a non-empty encoding.
pub proof fn lemma_encode_nonempty(cs: Seq<char>)
    requires
        cs.len() > 0,
    ensures
        encode_utf8(cs).len() > 0,
{
    assert(encode_utf8(cs) == encode_scalar(cs[0] as u32) + encode_utf8(cs.drop_first()));
    assert(encode_scalar(cs[0] as u32).len() > 0);
}

} // verus!
