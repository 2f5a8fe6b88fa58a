//! Character classes and the scanning of runs of characters.

use vstd::prelude::*;

use crate::strings::{alphanumeric, white_space};

verus! {

/// A set of characters that a scan runs over.
#[derive(Clone, Copy, Debug)]
pub enum CharClass {
    /// The one given character.
    Is(char),
    /// Every character but the given one.
    IsNot(char),
    /// Space, tab, line feed, form feed and carriage return.
    AsciiSpace,
    /// Space, tab, carriage return and line feed.
    MultiSpace,
    /// Space and tab.
    Blank,
    /// The characters with the Unicode property `White_Space`.
    Whitespace,
    /// What a selector's parameter name is made of: alphanumeric
    /// characters, `-` and `_`.
    Ident,
    /// Every character but line feed and carriage return.
    NotLineBreak,
}

impl CharClass {
    /// Whether the class contains `c`.
    pub open spec fn holds(self, c: char) -> bool {
        match self {
            CharClass::Is(d) => c == d,
            CharClass::IsNot(d) => c != d,
            CharClass::AsciiSpace => c == ' ' || c == '\t' || c == '\n' || c == '\x0C' || c == '\r',
            CharClass::MultiSpace => c == ' ' || c == '\t' || c == '\r' || c == '\n',
            CharClass::Blank => c == ' ' || c == '\t',
            CharClass::Whitespace => white_space(c),
            CharClass::Ident => alphanumeric(c) || c == '-' || c == '_',
            CharClass::NotLineBreak => c != '\n' && c != '\r',
        }
    }

    /// Tests one character.
    pub fn test(&self, c: char) -> (r: bool)
        ensures
            r == self.holds(c),
    {
        match self {
            CharClass::Is(d) => c == *d,
            CharClass::IsNot(d) => c != *d,
            CharClass::AsciiSpace => c == ' ' || c == '\t' || c == '\n' || c == '\x0C' || c == '\r',
            CharClass::MultiSpace => c == ' ' || c == '\t' || c == '\r' || c == '\n',
            CharClass::Blank => c == ' ' || c == '\t',
            CharClass::Whitespace => c.is_whitespace(),
            CharClass::Ident => c.is_alphanumeric() || c == '-' || c == '_',
            CharClass::NotLineBreak => c != '\n' && c != '\r',
        }
    }
}

/// The length of the longest prefix of `s` whose characters all belong to
/// `class`.
pub open spec fn run_len(s: Seq<char>, class: CharClass) -> nat
    decreases s.len(),
{
    if s.len() > 0 && class.holds(s[0]) {
        1 + run_len(s.drop_first(), class)
    } else {
        0
    }
}

/// The length of the longest suffix of `s` whose characters all belong to
/// `class`.
pub open spec fn back_run_len(s: Seq<char>, class: CharClass) -> nat
    decreases s.len(),
{
    if s.len() > 0 && class.holds(s.last()) {
        1 + back_run_len(s.drop_last(), class)
    } else {
        0
    }
}

/// `s` without its leading run of `class`.
pub open spec fn skip_run(s: Seq<char>, class: CharClass) -> Seq<char> {
    s.skip(run_len(s, class) as int)
}

/// `s` without its leading run of `class` and then without the trailing
/// run of what is left.
pub open spec fn trimmed(s: Seq<char>, class: CharClass) -> Seq<char> {
    let t = skip_run(s, class);
    t.take(t.len() - back_run_len(t, class))
}

/// A run ends where the first character outside the class stands, or at
/// the end.
pub proof fn lemma_run_len_is(s: Seq<char>, class: CharClass, k: int)
    requires
        0 <= k <= s.len(),
        forall|j: int| 0 <= j < k ==> class.holds(#[trigger] s[j]),
        k == s.len() || !class.holds(s[k]),
    ensures
        run_len(s, class) == k,
    decreases k,
{
    if k > 0 {
        let t = s.drop_first();
        assert forall|j: int| 0 <= j < k - 1 implies class.holds(#[trigger] t[j]) by {
            assert(t[j] == s[j + 1]);
        }
        lemma_run_len_is(t, class, k - 1);
    }
}

/// What holds of every run: it lies within the sequence, all its
/// characters belong to the class, and the next one, if any, does not.
pub proof fn lemma_run_len(s: Seq<char>, class: CharClass)
    ensures
        run_len(s, class) <= s.len(),
        forall|j: int| 0 <= j < run_len(s, class) ==> class.holds(#[trigger] s[j]),
        run_len(s, class) == s.len() || !class.holds(s[run_len(s, class) as int]),
    decreases s.len(),
{
    if s.len() > 0 && class.holds(s[0]) {
        let t = s.drop_first();
        lemma_run_len(t, class);
        assert forall|j: int| 0 <= j < run_len(s, class) implies class.holds(#[trigger] s[j]) by {
            if j > 0 {
                assert(s[j] == t[j - 1]);
            }
        }
        if run_len(s, class) != s.len() {
            assert(s[run_len(s, class) as int] == t[run_len(t, class) as int]);
        }
    }
}

/// A run at the end begins after the last character outside the class,
/// or at the start.
pub proof fn lemma_back_run_len_is(s: Seq<char>, class: CharClass, k: int)
    requires
        0 <= k <= s.len(),
        forall|j: int| s.len() - k <= j < s.len() ==> class.holds(#[trigger] s[j]),
        k == s.len() || !class.holds(s[s.len() - k - 1]),
    ensures
        back_run_len(s, class) == k,
    decreases k,
{
    if k > 0 {
        let t = s.drop_last();
        assert forall|j: int| t.len() - (k - 1) <= j < t.len() implies class.holds(
            #[trigger] t[j],
        ) by {
            assert(t[j] == s[j]);
        }
        lemma_back_run_len_is(t, class, k - 1);
    }
}

/// A run at the end lies within the sequence.
pub proof fn lemma_back_run_len(s: Seq<char>, class: CharClass)
    ensures
        back_run_len(s, class) <= s.len(),
    decreases s.len(),
{
    if s.len() > 0 && class.holds(s.last()) {
        lemma_back_run_len(s.drop_last(), class);
    }
}

/// What is left after trimming is no longer than what was there.
pub proof fn lemma_trimmed_len(s: Seq<char>, class: CharClass)
    ensures
        trimmed(s, class).len() <= s.len(),
{
    lemma_run_len(s, class);
    lemma_back_run_len(skip_run(s, class), class);
}

/// Where the run of `class` that starts at `from` ends, looking no
/// further than `to`.
pub(crate) fn scan(s: &[char], from: usize, to: usize, class: CharClass) -> (end: usize)
    requires
        from <= to <= s.len(),
    ensures
        from <= end <= to,
        end - from == run_len(s@.subrange(from as int, to as int), class),
{
    let mut i: usize = from;
    while i < to && class.test(s[i])
        invariant
            from <= i <= to <= s.len(),
            forall|j: int| from <= j < i ==> class.holds(#[trigger] s@[j]),
        decreases to - i,
    {
        i = i + 1;
    }
    proof {
        let sub = s@.subrange(from as int, to as int);
        assert forall|j: int| 0 <= j < i - from implies class.holds(#[trigger] sub[j]) by {
            assert(sub[j] == s@[from + j]);
        }
        lemma_run_len_is(sub, class, i - from);
    }
    i
}

/// Where the run of `class` that ends at `hi` starts, looking no further
/// back than `lo`.
pub(crate) fn scan_back(s: &[char], lo: usize, hi: usize, class: CharClass) -> (start: usize)
    requires
        lo <= hi <= s.len(),
    ensures
        lo <= start <= hi,
        hi - start == back_run_len(s@.subrange(lo as int, hi as int), class),
{
    let mut i: usize = hi;
    while i > lo && class.test(s[i - 1])
        invariant
            lo <= i <= hi <= s.len(),
            forall|j: int| i <= j < hi ==> class.holds(#[trigger] s@[j]),
        decreases i,
    {
        i = i - 1;
    }
    proof {
        let sub = s@.subrange(lo as int, hi as int);
        assert forall|j: int| sub.len() - (hi - i) <= j < sub.len() implies class.holds(
            #[trigger] sub[j],
        ) by {
            assert(sub[j] == s@[lo + j]);
        }
        lemma_back_run_len_is(sub, class, hi - i);
    }
    i
}

/// The bounds of `s[lo..hi]` trimmed of `class` on both sides.
pub(crate) fn trim_bounds(s: &[char], lo: usize, hi: usize, class: CharClass) -> (r: (usize, usize))
    requires
        lo <= hi <= s.len(),
    ensures
        lo <= r.0 <= r.1 <= hi,
        s@.subrange(r.0 as int, r.1 as int) == trimmed(s@.subrange(lo as int, hi as int), class),
{
    let a = scan(s, lo, hi, class);
    let b = scan_back(s, a, hi, class);
    proof {
        let sub = s@.subrange(lo as int, hi as int);
        assert(skip_run(sub, class) =~= s@.subrange(a as int, hi as int));
        assert(s@.subrange(a as int, b as int) =~= trimmed(sub, class));
    }
    (a, b)
}

/// The part `from..to` of a slice.
pub(crate) fn slice_of(s: &[char], from: usize, to: usize) -> (r: &[char])
    requires
        from <= to <= s.len(),
    ensures
        r@ == s@.subrange(from as int, to as int),
{
    let (front, _) = s.split_at(to);
    let (_, part) = front.split_at(from);
    assert(part@ =~= s@.subrange(from as int, to as int));
    part
}

} // verus!
