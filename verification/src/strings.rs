//! The string type of the library and the few operations on strings and
//! characters that are taken from outside verified code.

use compact_str::CompactString;
use kstring::{KString, KStringBase};
use vstd::prelude::*;
use vstd::std_specs::iter::IteratorSpec;

use crate::order::{lemma_lex_common_prefix, lex_lt};

pub use compact_str::CompactString as MiniStr;

verus! {

/// `compact_str::CompactString`, a string that holds short texts inline.
/// Nothing is known of a value but what [`text_of`] names.
#[verifier::external_type_specification]
#[verifier::external_body]
pub struct ExCompactString(CompactString);

/// The characters that a compact string holds, in order.
pub uninterp spec fn text_of(s: CompactString) -> Seq<char>;

/// `CompactString::const_new` makes a string that holds exactly the given
/// text.
pub assume_specification[ CompactString::const_new ](text: &'static str) -> (r: CompactString)
    ensures
        text_of(r) == text@,
;

/// `CompactString::as_str` borrows the whole text.
pub assume_specification[ CompactString::as_str ](s: &CompactString) -> (r: &str)
    ensures
        r@ == text_of(*s),
;

/// `CompactString::push` appends one character.
pub assume_specification[ CompactString::push ](s: &mut CompactString, ch: char)
    ensures
        text_of(*final(s)) == text_of(*old(s)).push(ch),
;

/// `CompactString::push_str` appends a string slice.
pub assume_specification[ CompactString::push_str ](s: &mut CompactString, t: &str)
    ensures
        text_of(*final(s)) == text_of(*old(s)) + t@,
;

/// Cloning a compact string keeps its text.
pub assume_specification[ <CompactString as Clone>::clone ](s: &CompactString) -> (r:
    CompactString)
    ensures
        text_of(r) == text_of(*s),
;

/// `kstring::KStringBase`, of which `KString` is the default form: an
/// immutable string for keys. Nothing is known of a value but what
/// [`key_text`] names.
#[verifier::external_type_specification]
#[verifier::external_body]
#[verifier::reject_recursive_types(B)]
pub struct ExKStringBase<B>(KStringBase<B>);

/// The characters that a key string holds, in order.
pub uninterp spec fn key_text(key: KString) -> Seq<char>;

/// `KString::from_ref` makes a key string that holds the given text.
#[verifier::external_body]
pub(crate) fn key_of(text: &str) -> (r: KString)
    ensures
        key_text(r) == text@,
{
    KString::from_ref(text)
}

/// `KString::as_str` borrows the whole text.
#[verifier::external_body]
pub(crate) fn key_as_str(key: &KString) -> (r: &str)
    ensures
        r@ == key_text(*key),
{
    key.as_str()
}

/// Whether a character is alphabetic or numeric in the sense of
/// `char::is_alphanumeric`.
pub uninterp spec fn alphanumeric(c: char) -> bool;

/// Whether a character has the Unicode property `White_Space`, as
/// `char::is_whitespace` reports it.
pub uninterp spec fn white_space(c: char) -> bool;

/// `char::is_alphanumeric`, named by [`alphanumeric`].
pub assume_specification[ char::is_alphanumeric ](c: char) -> (r: bool)
    ensures
        r == alphanumeric(c),
;

/// `char::is_whitespace`, named by [`white_space`].
pub assume_specification[ char::is_whitespace ](c: char) -> (r: bool)
    ensures
        r == white_space(c),
;

/// Whether two string slices hold the same characters in the same
/// order.
pub fn str_eq(a: &str, b: &str) -> (r: bool)
    ensures
        r == (a@ == b@),
{
    let mut left = a.chars();
    let mut right = b.chars();
    let ghost mut n: int = 0;
    assert(a@.skip(0) =~= a@ && b@.skip(0) =~= b@);
    loop
        invariant
            0 <= n <= a@.len(),
            n <= b@.len(),
            left.remaining() == a@.skip(n),
            right.remaining() == b@.skip(n),
            forall|j: int| 0 <= j < n ==> a@[j] == b@[j],
        decreases a@.len() - n,
    {
        let x = left.next();
        let y = right.next();
        match (x, y) {
            (Some(c), Some(d)) => {
                assert(c == a@[n] && d == b@[n]);
                if c != d {
                    return false;
                }
                proof {
                    assert(a@.skip(n).drop_first() =~= a@.skip(n + 1));
                    assert(b@.skip(n).drop_first() =~= b@.skip(n + 1));
                    n = n + 1;
                }
            },
            (None, None) => {
                assert(a@ =~= b@);
                return true;
            },
            _ => {
                assert(a@.len() != b@.len());
                return false;
            },
        }
    }
}

/// Whether `a` comes before `b` in the order of strings: lexicographic
/// by Unicode scalar value.
pub fn str_lt(a: &str, b: &str) -> (r: bool)
    ensures
        r == lex_lt(a@, b@),
{
    let mut left = a.chars();
    let mut right = b.chars();
    let ghost mut n: int = 0;
    assert(a@.skip(0) =~= a@ && b@.skip(0) =~= b@);
    loop
        invariant
            0 <= n <= a@.len(),
            n <= b@.len(),
            left.remaining() == a@.skip(n),
            right.remaining() == b@.skip(n),
            forall|j: int| 0 <= j < n ==> a@[j] == b@[j],
        decreases a@.len() - n,
    {
        proof {
            lemma_lex_common_prefix(a@, b@, n);
        }
        let x = left.next();
        let y = right.next();
        match (x, y) {
            (_, None) => {
                return false;
            },
            (None, Some(_)) => {
                return true;
            },
            (Some(c), Some(d)) => {
                assert(c == a@.skip(n)[0] && d == b@.skip(n)[0]);
                if c != d {
                    return c < d;
                }
                proof {
                    assert(a@.skip(n).drop_first() =~= a@.skip(n + 1));
                    assert(b@.skip(n).drop_first() =~= b@.skip(n + 1));
                    n = n + 1;
                }
            },
        }
    }
}

/// The characters of a string slice as a vector.
pub fn chars_of(s: &str) -> (v: Vec<char>)
    ensures
        v@ == s@,
{
    let mut v: Vec<char> = Vec::new();
    for c in it: s.chars()
        invariant
            v@ == s@.take(it.index() as int),
            it.seq() == s@,
    {
        v.push(c);
    }
    v
}

/// An owned copy of a string slice.
pub fn ministr_of(s: &str) -> (r: MiniStr)
    ensures
        text_of(r) == s@,
{
    let mut r = CompactString::const_new("");
    proof {
        reveal_strlit("");
    }
    r.push_str(s);
    assert(text_of(r) =~= s@);
    r
}

/// The characters `from..to` of a slice as a string.
pub(crate) fn ministr_from_chars(s: &[char], from: usize, to: usize) -> (r: MiniStr)
    requires
        from <= to <= s.len(),
    ensures
        text_of(r) == s@.subrange(from as int, to as int),
{
    let mut r = CompactString::const_new("");
    proof {
        reveal_strlit("");
    }
    let mut i: usize = from;
    while i < to
        invariant
            from <= i <= to <= s.len(),
            text_of(r) == s@.subrange(from as int, i as int),
        decreases to - i,
    {
        r.push(s[i]);
        i = i + 1;
        assert(text_of(r) =~= s@.subrange(from as int, i as int));
    }
    r
}

} // verus!
