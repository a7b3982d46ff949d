//! Character classes of the grammar and byte-length bookkeeping for spans.

use vstd::prelude::*;
use vstd::utf8::char_is_scalar;
use vstd::utf8::encode_scalar;
use vstd::utf8::encode_utf8;

verus! {

/// The five structural characters of the markup.
pub open spec fn is_special(c: char) -> bool {
    c == '<' || c == '>' || c == '/' || c == '{' || c == '}'
}

/// Unicode whitespace, the set recognized by `char::is_whitespace`.
pub open spec fn is_ws(c: char) -> bool {
    ||| c == ' ' || c == '\t' || c == '\n' || c == '\u{B}' || c == '\u{C}' || c == '\r'
    ||| c == '\u{85}' || c == '\u{A0}' || c == '\u{1680}'
    ||| ('\u{2000}' <= c && c <= '\u{200A}')
    ||| c == '\u{2028}' || c == '\u{2029}' || c == '\u{202F}' || c == '\u{205F}'
    ||| c == '\u{3000}'
}

/// ASCII whitespace, the set recognized by `u8::is_ascii_whitespace`.
pub open spec fn is_ascii_ws(c: char) -> bool {
    c == ' ' || c == '\t' || c == '\n' || c == '\u{C}' || c == '\r'
}

/// Characters allowed in an attribute name: ASCII alphanumerics and `_ - :`.
pub open spec fn is_name_char(c: char) -> bool {
    ||| ('0' <= c && c <= '9')
    ||| ('a' <= c && c <= 'z')
    ||| ('A' <= c && c <= 'Z')
    ||| c == '_' || c == '-' || c == ':'
}

pub fn special_char(c: char) -> (r: bool)
    ensures
        r == is_special(c),
{
    c == '<' || c == '>' || c == '/' || c == '{' || c == '}'
}

pub fn ws_char(c: char) -> (r: bool)
    ensures
        r == is_ws(c),
{
    c == ' ' || c == '\t' || c == '\n' || c == '\u{B}' || c == '\u{C}' || c == '\r'
        || c == '\u{85}' || c == '\u{A0}' || c == '\u{1680}'
        || ('\u{2000}' <= c && c <= '\u{200A}')
        || c == '\u{2028}' || c == '\u{2029}' || c == '\u{202F}' || c == '\u{205F}'
        || c == '\u{3000}'
}

pub fn ascii_ws_char(c: char) -> (r: bool)
    ensures
        r == is_ascii_ws(c),
{
    c == ' ' || c == '\t' || c == '\n' || c == '\u{C}' || c == '\r'
}

pub fn name_char(c: char) -> (r: bool)
    ensures
        r == is_name_char(c),
{
    ('0' <= c && c <= '9') || ('a' <= c && c <= 'z') || ('A' <= c && c <= 'Z') || c == '_'
        || c == '-' || c == ':'
}

/// Number of bytes the UTF-8 encoding of one character takes.
pub open spec fn char_bytes(c: char) -> int {
    encode_scalar(c as u32).len() as int
}

/// Number of bytes the UTF-8 encoding of a character sequence takes.
pub open spec fn byte_len(s: Seq<char>) -> int {
    encode_utf8(s).len() as int
}

pub fn char_byte_len(c: char) -> (n: usize)
    ensures
        n == char_bytes(c),
        1 <= n <= 4,
{
    proof {
        char_is_scalar(c);
    }
    let u = c as u32;
    if u < 0x80 {
        1
    } else if u < 0x800 {
        2
    } else if u < 0x10000 {
        3
    } else {
        4
    }
}

/// Relies on `str::len`: the length of a string slice in bytes, which is
/// the length of the UTF-8 encoding of its characters (and so fits in
/// `usize`, a fact the byte-position bookkeeping of the lexer needs).
#[verifier::external_body]
pub fn str_byte_len(s: &str) -> (n: usize)
    ensures
        n == byte_len(s@),
{
    s.len()
}

/// Relies on `String::push`: appends exactly one character.
#[verifier::external_body]
pub(crate) fn push_char(s: &mut String, c: char)
    ensures
        final(s)@ == old(s)@ + seq![c],
{
    s.push(c);
}

pub proof fn lemma_encode_utf8_append(a: Seq<char>, b: Seq<char>)
    ensures
        encode_utf8(a + b) == encode_utf8(a) + encode_utf8(b),
    decreases a.len(),
{
    if a.len() == 0 {
        assert(a + b =~= b);
        assert(encode_utf8(a) + encode_utf8(b) =~= encode_utf8(b));
    } else {
        lemma_encode_utf8_append(a.drop_first(), b);
        assert((a + b).drop_first() =~= a.drop_first() + b);
        assert((a + b)[0] == a[0]);
        assert(encode_utf8(a + b) =~= encode_utf8(a) + encode_utf8(b));
    }
}

/// Byte length of a prefix grows by the bytes of the next character.
pub proof fn lemma_byte_len_step(s: Seq<char>, i: int)
    requires
        0 <= i < s.len(),
    ensures
        byte_len(s.take(i + 1)) == byte_len(s.take(i)) + char_bytes(s[i]),
    decreases i,
{
    lemma_encode_utf8_append(s.take(i), seq![s[i]]);
    assert(s.take(i + 1) =~= s.take(i) + seq![s[i]]);
    assert(encode_utf8(seq![s[i]]).len() == char_bytes(s[i])) by {
        let q = seq![s[i]];
        assert(q.drop_first() =~= Seq::<char>::empty());
        assert(encode_utf8(Seq::<char>::empty()) == Seq::<u8>::empty());
        assert(encode_utf8(q) == encode_scalar(q[0] as u32) + encode_utf8(q.drop_first()));
        assert(encode_utf8(q).len() == encode_scalar(s[i] as u32).len());
    }
}

/// A prefix takes no more bytes than the whole sequence.
pub proof fn lemma_byte_len_prefix(s: Seq<char>, i: int)
    requires
        0 <= i <= s.len(),
    ensures
        byte_len(s.take(i)) <= byte_len(s),
        i == s.len() ==> byte_len(s.take(i)) == byte_len(s),
{
    lemma_encode_utf8_append(s.take(i), s.skip(i));
    assert(s.take(i) + s.skip(i) =~= s);
}

pub proof fn lemma_byte_len_singleton(c: char)
    ensures
        byte_len(seq![c]) == char_bytes(c),
{
    let q = seq![c];
    assert(q.drop_first() =~= Seq::<char>::empty());
    assert(encode_utf8(Seq::<char>::empty()) == Seq::<u8>::empty());
    assert(encode_utf8(q) == encode_scalar(q[0] as u32) + encode_utf8(q.drop_first()));
}

/// Byte position of character index `k`: how many bytes the characters
/// before it occupy.
pub open spec fn bpos(s: Seq<char>, k: int) -> int {
    byte_len(s.take(k))
}

/// Splitting a prefix at a character index splits its byte length.
pub proof fn lemma_bpos_sub(s: Seq<char>, a: int, b: int)
    requires
        0 <= a <= b <= s.len(),
    ensures
        bpos(s, b) == bpos(s, a) + byte_len(s.subrange(a, b)),
{
    lemma_encode_utf8_append(s.take(a), s.subrange(a, b));
    assert(s.take(b) =~= s.take(a) + s.subrange(a, b));
}

/// Every character takes at least one byte, so positions advance strictly.
pub proof fn lemma_byte_len_lb(s: Seq<char>)
    ensures
        byte_len(s) >= s.len(),
    decreases s.len(),
{
    if s.len() > 0 {
        lemma_byte_len_lb(s.drop_first());
        char_is_scalar(s[0]);
    }
}

} // verus!
