//! Templates and the grammar of a template without branches.

use tinyvec::TinyVec;
use vstd::prelude::*;

use crate::chars::{lemma_run_len, run_len, scan, slice_of, trim_bounds, trimmed, CharClass};
use crate::error::{ResolverError, ResolverResult, SpecError};
use crate::part::{SpecPart, SpecRef, TemplatePart, VariableRef};
use crate::selector::{Selector, SpecSelector};
use crate::strings::{chars_of, ministr_from_chars, text_of, MiniStr};

verus! {

/// A template as a mathematical value.
pub enum SpecTemplate {
    /// Segments, expanded one after the other.
    Parts(Seq<SpecPart>),
    /// A choice by the value of a parameter.
    Conditional(SpecSelector),
}

/// The segments of a template in a `tinyvec::TinyVec`, which holds up to
/// five of them inline. Nothing is known of a value but what
/// [`parts_held`] names.
#[verifier::external_body]
#[derive(Debug)]
pub struct TinyTemplateParts {
    inner: TinyVec<[TemplatePart; 5]>,
}

/// The segments that the collection holds, in order.
pub uninterp spec fn parts_held(parts: TinyTemplateParts) -> Seq<TemplatePart>;

/// `TinyVec::new`: a collection that holds nothing.
#[verifier::external_body]
fn tiny_new() -> (r: TinyTemplateParts)
    ensures
        parts_held(r) == Seq::<TemplatePart>::empty(),
{
    TinyTemplateParts { inner: TinyVec::new() }
}

/// `TinyVec::push`: the item is added at the end.
#[verifier::external_body]
fn tiny_push(parts: &mut TinyTemplateParts, part: TemplatePart)
    ensures
        parts_held(*final(parts)) == parts_held(*old(parts)).push(part),
{
    parts.inner.push(part)
}

/// `TinyVec::as_slice`: all the items, in order.
#[verifier::external_body]
fn tiny_as_slice(parts: &TinyTemplateParts) -> (r: &[TemplatePart])
    ensures
        r@ == parts_held(*parts),
{
    parts.inner.as_slice()
}

impl View for TinyTemplateParts {
    type V = Seq<SpecPart>;

    open spec fn view(&self) -> Seq<SpecPart> {
        parts_held(*self).map_values(|p: TemplatePart| p@)
    }
}

impl TinyTemplateParts {
    /// No segments.
    pub fn new() -> (r: Self)
        ensures
            parts_held(r) == Seq::<TemplatePart>::empty(),
            r@ == Seq::<SpecPart>::empty(),
    {
        let r = tiny_new();
        assert(r@ =~= Seq::<SpecPart>::empty());
        r
    }

    /// Adds a segment at the end.
    pub fn push(&mut self, part: TemplatePart)
        ensures
            parts_held(*final(self)) == parts_held(*old(self)).push(part),
            final(self)@ == old(self)@.push(part@),
    {
        tiny_push(self, part);
        assert(self@ =~= old(self)@.push(part@));
    }

    /// The segments, in order.
    pub fn as_slice(&self) -> (r: &[TemplatePart])
        ensures
            r@ == parts_held(*self),
    {
        tiny_as_slice(self)
    }
}

impl Clone for TinyTemplateParts {
    /// The same segments in a collection of their own.
    fn clone(&self) -> (r: Self)
        ensures
            r@ == self@,
    {
        let parts = self.as_slice();
        let mut r = TinyTemplateParts::new();
        let mut i: usize = 0;
        assert(self@.take(0) =~= Seq::<SpecPart>::empty());
        while i < parts.len()
            invariant
                i <= parts.len(),
                parts@ == parts_held(*self),
                r@ == self@.take(i as int),
            decreases parts.len() - i,
        {
            r.push(parts[i].clone());
            i = i + 1;
            assert(r@ =~= self@.take(i as int));
        }
        assert(self@.take(i as int) =~= self@);
        r
    }
}

/// A compiled entry: segments, or a choice by the value of a parameter.
#[derive(Debug)]
pub enum Template {
    /// A choice by the value of a parameter.
    Conditional(Selector),
    /// Segments, expanded one after the other.
    Parts(TinyTemplateParts),
}

impl Template {
    pub open spec fn model(&self) -> SpecTemplate
        decreases self,
    {
        match self {
            Template::Conditional(selector) => SpecTemplate::Conditional(selector.model()),
            Template::Parts(parts) => SpecTemplate::Parts(parts@),
        }
    }
}

impl Template {
    /// The same template in storage of its own.
    pub(crate) fn duplicate(&self) -> (r: Template)
        ensures
            r@ == self@,
        decreases self,
    {
        match self {
            Template::Conditional(selector) => Template::Conditional(selector.duplicate()),
            Template::Parts(parts) => Template::Parts(parts.clone()),
        }
    }
}

impl Clone for Template {
    fn clone(&self) -> (r: Self)
        ensures
            r@ == self@,
    {
        self.duplicate()
    }
}

impl View for Template {
    type V = SpecTemplate;

    open spec fn view(&self) -> SpecTemplate {
        self.model()
    }
}

impl Default for Template {
    /// The template without segments.
    fn default() -> (r: Self)
        ensures
            r@ == SpecTemplate::Parts(Seq::empty()),
    {
        Template::Parts(TinyTemplateParts::new())
    }
}

/// Why a source is no template.
#[derive(Clone, Copy, Debug)]
pub enum ParseFailure {
    /// What was to be read as an interpolation does not begin with a `{`
    /// that is not the start of an escaped block.
    NotInterpolation,
    /// A `{` that opens an interpolation and is never closed by `}`.
    UnclosedInterpolation,
    /// A run of two or more `{` that is never closed by as many `}`.
    UnclosedEscape,
}

impl ParseFailure {
    /// The text that describes the failure.
    pub open spec fn text(self) -> Seq<char> {
        match self {
            ParseFailure::NotInterpolation => "no interpolation here"@,
            ParseFailure::UnclosedInterpolation => "missing closing brace of an interpolation"@,
            ParseFailure::UnclosedEscape => "missing closing braces of an escaped block"@,
        }
    }

    /// The text that describes the failure.
    pub fn describe(&self) -> (r: MiniStr)
        ensures
            text_of(r) == self.text(),
    {
        match self {
            ParseFailure::NotInterpolation => MiniStr::const_new("no interpolation here"),
            ParseFailure::UnclosedInterpolation => MiniStr::const_new(
                "missing closing brace of an interpolation",
            ),
            ParseFailure::UnclosedEscape => MiniStr::const_new(
                "missing closing braces of an escaped block",
            ),
        }
    }
}

/// Whether `s` begins with `{{`, the start of an escaped block.
pub open spec fn opens_escape(s: Seq<char>) -> bool {
    s.len() >= 2 && s[0] == '{' && s[1] == '{'
}

/// Whether `s` begins with a `{` that is not the start of an escaped
/// block.
pub open spec fn opens_interpolation(s: Seq<char>) -> bool {
    s.len() >= 1 && s[0] == '{' && !opens_escape(s)
}

/// What the content of an interpolation refers to: trimmed of white
/// space, a parameter if it begins with `$` (the rest trimmed again), else
/// a variable.
pub open spec fn reference_of(content: Seq<char>) -> SpecRef {
    let name = trimmed(content, CharClass::Whitespace);
    if name.len() > 0 && name[0] == '$' {
        SpecRef::Parameter(trimmed(name.skip(1), CharClass::Whitespace))
    } else {
        SpecRef::Variable(name)
    }
}

/// The interpolation that `s` begins with. There is none unless `s`
/// begins with a `{` that is not the start of an escaped block, and none
/// where no `}` follows. What lies between the `{` and the first `}` is
/// the content. Gives the reference and the number of characters taken,
/// both braces included.
pub open spec fn interpolation_of(s: Seq<char>) -> Result<(SpecRef, nat), ParseFailure> {
    if !opens_interpolation(s) {
        Err(ParseFailure::NotInterpolation)
    } else {
        let body = s.skip(1);
        let n = run_len(body, CharClass::IsNot('}'));
        if n >= body.len() {
            Err(ParseFailure::UnclosedInterpolation)
        } else {
            Ok((reference_of(body.take(n as int)), n + 2))
        }
    }
}

/// Whether `n` closing braces stand at `k..k + n`.
pub open spec fn closes_at(s: Seq<char>, k: int, n: nat) -> bool {
    &&& 0 <= k
    &&& k + n <= s.len()
    &&& forall|j: int| k <= j < k + n ==> s[j] == '}'
}

/// Whether `k` is the first place at which `n` closing braces stand.
pub open spec fn is_first_closing(s: Seq<char>, k: int, n: nat) -> bool {
    &&& closes_at(s, k, n)
    &&& forall|m: int| 0 <= m < k ==> !closes_at(s, m, n)
}

/// The first place at which `n` closing braces stand, if there is one.
pub open spec fn first_closing(s: Seq<char>, n: nat) -> Option<int> {
    if exists|k: int| is_first_closing(s, k, n) {
        Some(choose|k: int| is_first_closing(s, k, n))
    } else {
        None
    }
}

/// The escaped block at the start of `s`: the run of `n` opening braces,
/// the content up to the first `n` closing braces, and those. Gives the
/// content trimmed of ASCII white space and the number of characters
/// taken.
pub open spec fn escape_of(s: Seq<char>) -> Result<(Seq<char>, nat), ParseFailure> {
    let n = run_len(s, CharClass::Is('{'));
    let body = s.skip(n as int);
    match first_closing(body, n) {
        None => Err(ParseFailure::UnclosedEscape),
        Some(k) => Ok((trimmed(body.take(k), CharClass::AsciiSpace), (2 * n + k) as nat)),
    }
}

/// The literal text at the start of `s`: an escaped block where `s` begins
/// with `{{`, else what lies before the first `{`.
pub open spec fn text_of_start(s: Seq<char>) -> Result<(Seq<char>, nat), ParseFailure> {
    if opens_escape(s) {
        escape_of(s)
    } else {
        let n = run_len(s, CharClass::IsNot('{'));
        Ok((s.take(n as int), n))
    }
}

/// The first segment of a sequence that is not empty, and the number of
/// characters that it takes.
pub open spec fn leading_part(s: Seq<char>) -> Result<(SpecPart, nat), ParseFailure> {
    if opens_interpolation(s) {
        match interpolation_of(s) {
            Ok((reference, n)) => Ok((SpecPart::Ref(reference), n)),
            Err(f) => Err(f),
        }
    } else {
        match text_of_start(s) {
            Ok((text, n)) => Ok((SpecPart::Text(text), n)),
            Err(f) => Err(f),
        }
    }
}

/// The segments of a source without branches: the first segment of the
/// source, then the first segment of what is left, until nothing is left.
pub open spec fn parts_of(s: Seq<char>) -> Result<Seq<SpecPart>, ParseFailure>
    decreases s.len(),
{
    if s.len() == 0 {
        Ok(Seq::empty())
    } else {
        match leading_part(s) {
            Err(f) => Err(f),
            Ok((part, n)) => {
                proof {
                    lemma_leading_part(s);
                }
                followed_by(seq![part], parts_of(s.skip(n as int)))
            },
        }
    }
}

/// The segments `front` before those of `rest`, where `rest` has any.
pub open spec fn followed_by(front: Seq<SpecPart>, rest: Result<Seq<SpecPart>, ParseFailure>) -> Result<
    Seq<SpecPart>,
    ParseFailure,
> {
    match rest {
        Ok(parts) => Ok(front + parts),
        Err(f) => Err(f),
    }
}

/// The first place at which the braces close is the one before which
/// they close nowhere.
pub proof fn lemma_first_closing_is(s: Seq<char>, k: int, n: nat)
    requires
        is_first_closing(s, k, n),
    ensures
        first_closing(s, n) == Some(k),
{
    let c = choose|c: int| is_first_closing(s, c, n);
    if c < k {
        assert(!closes_at(s, c, n));
    }
    if k < c {
        assert(!closes_at(s, k, n));
    }
}

/// What is found as the first place at which the braces close is such a
/// place.
pub proof fn lemma_first_closing(s: Seq<char>, n: nat)
    ensures
        first_closing(s, n) matches Some(k) ==> is_first_closing(s, k, n),
{
}

/// A first segment takes at least one character and no more than there
/// are.
pub proof fn lemma_leading_part(s: Seq<char>)
    requires
        s.len() > 0,
    ensures
        leading_part(s) matches Ok((_, n)) ==> 0 < n <= s.len(),
{
    if opens_interpolation(s) {
        lemma_run_len(s.skip(1), CharClass::IsNot('}'));
    } else if opens_escape(s) {
        let n = run_len(s, CharClass::Is('{'));
        lemma_run_len(s, CharClass::Is('{'));
        lemma_first_closing(s.skip(n as int), n);
        assert(n >= 2) by {
            if n < 2 {
                assert(CharClass::Is('{').holds(s[n as int]));
            }
        }
    } else {
        lemma_run_len(s, CharClass::IsNot('{'));
        assert(run_len(s, CharClass::IsNot('{')) > 0);
    }
}

/// Where the first run of `n` closing braces at or after `from` starts.
pub(crate) fn find_closing(s: &[char], from: usize, n: usize) -> (r: Option<usize>)
    requires
        from <= s.len(),
    ensures
        match r {
            Some(k) => from <= k && k + n <= s.len() && first_closing(
                s@.skip(from as int),
                n as nat,
            ) == Some(k - from),
            None => first_closing(s@.skip(from as int), n as nat) is None,
        },
{
    let len = s.len();
    let ghost body = s@.skip(from as int);
    let mut k: usize = from;
    while n <= len - k
        invariant
            from <= k <= len,
            len == s.len(),
            body == s@.skip(from as int),
            forall|m: int| 0 <= m < k - from ==> !closes_at(body, m, n as nat),
        decreases len - k,
    {
        let e = scan(s, k, k + n, CharClass::Is('}'));
        proof {
            lemma_run_len(s@.subrange(k as int, k + n), CharClass::Is('}'));
        }
        if e == k + n {
            proof {
                let sub = s@.subrange(k as int, k + n);
                assert forall|j: int| k - from <= j < k - from + n implies body[j] == '}' by {
                    assert(CharClass::Is('}').holds(sub[j - (k - from)]));
                }
                lemma_first_closing_is(body, k - from, n as nat);
            }
            return Some(k);
        }
        proof {
            let sub = s@.subrange(k as int, k + n);
            assert(!CharClass::Is('}').holds(sub[e - k]));
            assert(body[e - from] != '}');
            assert forall|m: int| 0 <= m < e + 1 - from implies !closes_at(body, m, n as nat) by {
                if m >= k - from && closes_at(body, m, n as nat) {
                    assert(body[e - from] == '}');
                }
            }
        }
        k = e + 1;
    }
    proof {
        assert forall|m: int| !is_first_closing(body, m, n as nat) by {
            if closes_at(body, m, n as nat) {
                assert(m < k - from);
            }
        }
    }
    None
}

/// Reads the interpolation that `input` begins with, and says how many
/// characters it takes. Input that does not begin with a `{`, or that
/// begins with `{{`, holds no interpolation at its start.
pub fn parse_variable(input: &[char]) -> (r: Result<(VariableRef, usize), ParseFailure>)
    ensures
        match r {
            Ok((var, n)) => interpolation_of(input@) == Ok::<(SpecRef, nat), ParseFailure>(
                (var@, n as nat),
            ),
            Err(f) => interpolation_of(input@) == Err::<(SpecRef, nat), ParseFailure>(f),
        },
{
    let len = input.len();
    if len == 0 || input[0] != '{' || (len >= 2 && input[1] == '{') {
        return Err(ParseFailure::NotInterpolation);
    }
    let close = scan(input, 1, len, CharClass::IsNot('}'));
    if close == len {
        return Err(ParseFailure::UnclosedInterpolation);
    }
    let (a, b) = trim_bounds(input, 1, close, CharClass::Whitespace);
    proof {
        let body = input@.skip(1);
        assert(body.take(close - 1) =~= input@.subrange(1, close as int));
    }
    let var = if a < b && input[a] == '$' {
        let (p, q) = trim_bounds(input, a + 1, b, CharClass::Whitespace);
        proof {
            let name = input@.subrange(a as int, b as int);
            assert(name.skip(1) =~= input@.subrange(a + 1, b as int));
        }
        VariableRef::Parameter(ministr_from_chars(input, p, q))
    } else {
        VariableRef::Variable(ministr_from_chars(input, a, b))
    };
    Ok((var, close + 1))
}

/// Reads the escaped block that `input` begins with: as many closing
/// braces end it as opening braces start it.
pub fn parse_delimited_braces(input: &[char]) -> (r: Result<(MiniStr, usize), ParseFailure>)
    ensures
        match r {
            Ok((text, n)) => escape_of(input@) == Ok::<(Seq<char>, nat), ParseFailure>(
                (text_of(text), n as nat),
            ),
            Err(f) => escape_of(input@) == Err::<(Seq<char>, nat), ParseFailure>(f),
        },
{
    let len = input.len();
    let n = scan(input, 0, len, CharClass::Is('{'));
    assert(input@.subrange(0, len as int) =~= input@);
    match find_closing(input, n, n) {
        None => Err(ParseFailure::UnclosedEscape),
        Some(k) => {
            let (a, b) = trim_bounds(input, n, k, CharClass::AsciiSpace);
            proof {
                let body = input@.skip(n as int);
                assert(body.take(k - n) =~= input@.subrange(n as int, k as int));
            }
            Ok((ministr_from_chars(input, a, b), k + n))
        },
    }
}

/// Reads the literal text that `input` begins with.
pub(crate) fn parse_text(input: &[char]) -> (r: Result<(MiniStr, usize), ParseFailure>)
    ensures
        match r {
            Ok((text, n)) => text_of_start(input@) == Ok::<(Seq<char>, nat), ParseFailure>(
                (text_of(text), n as nat),
            ),
            Err(f) => text_of_start(input@) == Err::<(Seq<char>, nat), ParseFailure>(f),
        },
{
    let len = input.len();
    if len >= 2 && input[0] == '{' && input[1] == '{' {
        parse_delimited_braces(input)
    } else {
        let end = scan(input, 0, len, CharClass::IsNot('{'));
        assert(input@.subrange(0, len as int) =~= input@);
        assert(input@.take(end as int) =~= input@.subrange(0, end as int));
        Ok((ministr_from_chars(input, 0, end), end))
    }
}

/// Reads a source without branches into its segments.
pub fn parse_parts(input: &[char]) -> (r: Result<TinyTemplateParts, ParseFailure>)
    ensures
        match r {
            Ok(parts) => parts_of(input@) == Ok::<Seq<SpecPart>, ParseFailure>(parts@),
            Err(f) => parts_of(input@) == Err::<Seq<SpecPart>, ParseFailure>(f),
        },
{
    let len = input.len();
    let mut parts = TinyTemplateParts::new();
    let mut pos: usize = 0;
    assert(input@.skip(0) =~= input@);
    while pos < len
        invariant
            pos <= len,
            len == input.len(),
            parts_of(input@) == followed_by(parts@, parts_of(input@.skip(pos as int))),
        decreases len - pos,
    {
        let rest = slice_of(input, pos, len);
        let ghost before = parts@;
        assert(rest@ =~= input@.skip(pos as int));
        proof {
            lemma_leading_part(rest@);
        }
        let single = rest[0] == '{' && !(rest.len() >= 2 && rest[1] == '{');
        let used = if single {
            match parse_variable(rest) {
                Err(f) => {
                    return Err(f);
                },
                Ok((var, n)) => {
                    parts.push(TemplatePart::Variable(var));
                    n
                },
            }
        } else {
            match parse_text(rest) {
                Err(f) => {
                    return Err(f);
                },
                Ok((text, n)) => {
                    parts.push(TemplatePart::Text(text));
                    n
                },
            }
        };
        proof {
            let part = leading_part(rest@)->Ok_0.0;
            assert(parts@ == before.push(part));
            assert(rest@.skip(used as int) =~= input@.skip(pos + used));
            let tail = parts_of(input@.skip(pos + used));
            if tail is Ok {
                assert(before + (seq![part] + tail->Ok_0) =~= before.push(part) + tail->Ok_0);
            }
        }
        pos = pos + used;
    }
    assert(parts@ + Seq::<SpecPart>::empty() =~= parts@);
    Ok(parts)
}

/// Compiles a source without branches. The message of a failure says
/// what is missing.
pub fn parse_template(input: &str) -> (r: ResolverResult<TinyTemplateParts>)
    ensures
        match parts_of(input@) {
            Ok(parts) => r matches Ok(found) && found@ == parts,
            Err(f) => r matches Err(e) && e@ == SpecError::ParseError(f.text()),
        },
{
    let chars = chars_of(input);
    match parse_parts(chars.as_slice()) {
        Ok(parts) => Ok(parts),
        Err(f) => Err(ResolverError::ParseError(f.describe())),
    }
}

} // verus!
