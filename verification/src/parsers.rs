//! The grammar of a template source: a selector where the source has the
//! form of one, else segments.

pub mod branch;
pub mod context;
pub mod process_tmpl;

use vstd::prelude::*;

use crate::chars::{
    lemma_run_len, lemma_trimmed_len, run_len, scan, slice_of, trim_bounds, trimmed, CharClass,
};
use crate::error::{message_of, ResolverError, ResolverResult, SpecError};
use crate::parsers::branch::parse_branch;
use crate::selector::{lemma_cases_model, Selector, SpecSelector};
use crate::strings::{chars_of, ministr_from_chars, text_of, MiniStr};
use crate::template::{parse_parts, parts_of, ParseFailure, SpecTemplate, Template};

verus! {

/// One branch of a selector, as a mathematical value.
pub struct SpecBranch {
    pub is_default: bool,
    pub value: Seq<char>,
    pub template: SpecTemplate,
}

/// What a branch is made of, before its content is compiled.
pub struct BranchSpan {
    /// Whether a `*` marks the branch as the default.
    pub is_default: bool,
    /// The case value: what stands between `[` and `]`, trimmed of ASCII
    /// white space.
    pub value: Seq<char>,
    /// The source of the branch's template: the rest of the line.
    pub content: Seq<char>,
    /// The number of characters up to the end of the content.
    pub len: nat,
}

/// The branch that `s` begins with: white space, an optional `*`, the case
/// value in square brackets, blanks, and the rest of the line as content.
pub open spec fn branch_span(s: Seq<char>) -> Option<BranchSpan> {
    let mark = run_len(s, CharClass::MultiSpace) as int;
    let is_default = mark < s.len() && s[mark] == '*';
    let bracket = if is_default {
        mark + 1
    } else {
        mark
    };
    if bracket >= s.len() || s[bracket] != '[' {
        None
    } else {
        let close = bracket + 1 + run_len(s.skip(bracket + 1), CharClass::IsNot(']'));
        if close >= s.len() {
            None
        } else {
            let line = close + 1 + run_len(s.skip(close + 1), CharClass::Blank);
            let end = line + run_len(s.skip(line), CharClass::NotLineBreak);
            Some(
                BranchSpan {
                    is_default,
                    value: trimmed(s.subrange(bracket + 1, close), CharClass::AsciiSpace),
                    content: s.subrange(line, end),
                    len: end as nat,
                },
            )
        }
    }
}

/// A branch takes at least one character and no more than there are, and
/// its content is shorter than what it was read from.
pub proof fn lemma_branch_span(s: Seq<char>)
    ensures
        branch_span(s) matches Some(span) ==> 0 < span.len <= s.len() && span.content.len()
            < s.len(),
{
    if branch_span(s) is Some {
        let mark = run_len(s, CharClass::MultiSpace) as int;
        lemma_run_len(s, CharClass::MultiSpace);
        let is_default = mark < s.len() && s[mark] == '*';
        let bracket = if is_default {
            mark + 1
        } else {
            mark
        };
        lemma_run_len(s.skip(bracket + 1), CharClass::IsNot(']'));
        let close = bracket + 1 + run_len(s.skip(bracket + 1), CharClass::IsNot(']'));
        lemma_run_len(s.skip(close + 1), CharClass::Blank);
        let line = close + 1 + run_len(s.skip(close + 1), CharClass::Blank);
        lemma_run_len(s.skip(line), CharClass::NotLineBreak);
    }
}

/// The template that a source stands for. Trimmed of ASCII white space,
/// a source that has the form of a selector is that selector. Any other
/// source, untrimmed, is read as segments.
pub open spec fn value_of(s: Seq<char>) -> Result<SpecTemplate, ParseFailure>
    decreases s.len(), 3nat,
{
    proof {
        lemma_trimmed_len(s, CharClass::AsciiSpace);
    }
    match selector_of(trimmed(s, CharClass::AsciiSpace)) {
        Some(selector) => Ok(SpecTemplate::Conditional(selector)),
        None => match parts_of(s) {
            Ok(parts) => Ok(SpecTemplate::Parts(parts)),
            Err(f) => Err(f),
        },
    }
}

/// The selector that `s` is, if it has the form of one: `$`, the name of
/// the parameter, `->` with white space allowed around it, and at least one
/// branch. What follows the last branch is passed over.
pub open spec fn selector_of(s: Seq<char>) -> Option<SpecSelector>
    decreases s.len(), 2nat,
{
    if s.len() == 0 || s[0] != '$' {
        None
    } else {
        let name_end: int = 1 + run_len(s.skip(1), CharClass::Ident) as int;
        let arrow: int = name_end + run_len(s.skip(name_end), CharClass::MultiSpace);
        if name_end == 1 || !(arrow + 2 <= s.len() && s[arrow] == '-' && s[arrow + 1] == '>') {
            None
        } else {
            let start: int = arrow + 2 + run_len(s.skip(arrow + 2), CharClass::MultiSpace);
            proof {
                lemma_run_len(s.skip(arrow + 2), CharClass::MultiSpace);
            }
            let branches = branches_of(s.skip(start));
            if branches.len() == 0 {
                None
            } else {
                Some(
                    SpecSelector {
                        param: s.subrange(1, name_end),
                        cases: cases_of(branches),
                        default: default_of(branches),
                    },
                )
            }
        }
    }
}

/// The branches that `s` begins with, up to the first place where no
/// branch can be read.
pub open spec fn branches_of(s: Seq<char>) -> Seq<SpecBranch>
    decreases s.len(), 1nat,
{
    match branch_span(s) {
        None => Seq::empty(),
        Some(span) => {
            proof {
                lemma_branch_span(s);
            }
            match value_of(span.content) {
                Err(_) => Seq::empty(),
                Ok(template) => seq![
                    SpecBranch { is_default: span.is_default, value: span.value, template },
                ] + branches_of(s.skip(span.len as int)),
            }
        },
    }
}

/// The branch that `s` begins with, its content compiled as a template
/// source of its own, and the number of characters that it takes. There
/// is none where the content is no template.
pub open spec fn branch_of(s: Seq<char>) -> Option<(SpecBranch, nat)> {
    match branch_span(s) {
        None => None,
        Some(span) => match value_of(span.content) {
            Err(_) => None,
            Ok(template) => Some(
                (SpecBranch { is_default: span.is_default, value: span.value, template }, span.len),
            ),
        },
    }
}

/// The cases of a selector: its branches that are not marked as default,
/// in source order.
pub open spec fn cases_of(branches: Seq<SpecBranch>) -> Seq<(Seq<char>, SpecTemplate)> {
    branches.filter(|b: SpecBranch| !b.is_default).map_values(
        |b: SpecBranch| (b.value, b.template),
    )
}

/// The default of a selector: the template of the last branch that is
/// marked as default.
pub open spec fn default_of(branches: Seq<SpecBranch>) -> Option<Box<SpecTemplate>>
    decreases branches.len(),
{
    if branches.len() == 0 {
        None
    } else if branches.last().is_default {
        Some(Box::new(branches.last().template))
    } else {
        default_of(branches.drop_last())
    }
}

/// A selector that is read from a source has a case or a default.
pub proof fn lemma_selector_has_branch(s: Seq<char>)
    ensures
        selector_of(s) matches Some(selector) ==> selector.cases.len() > 0 || selector.default
            is Some,
{
    if let Some(selector) = selector_of(s) {
        if selector.cases.len() == 0 && selector.default is None {
            let name_end: int = 1 + run_len(s.skip(1), CharClass::Ident) as int;
            let arrow: int = name_end + run_len(s.skip(name_end), CharClass::MultiSpace);
            let start: int = arrow + 2 + run_len(s.skip(arrow + 2), CharClass::MultiSpace);
            lemma_no_branches(branches_of(s.skip(start)));
        }
    }
}

/// The empty source is the template without segments.
pub proof fn lemma_empty_source()
    ensures
        value_of(Seq::empty()) == Ok::<SpecTemplate, ParseFailure>(
            SpecTemplate::Parts(Seq::empty()),
        ),
{
    lemma_trimmed_len(Seq::empty(), CharClass::AsciiSpace);
    assert(trimmed(Seq::empty(), CharClass::AsciiSpace).len() == 0);
}

/// The message of the failure to compile the entry `key`.
pub open spec fn failed_entry_text(key: Seq<char>, f: ParseFailure) -> Seq<char> {
    "Failed to parse '"@ + key + "': "@ + message_of(SpecError::ParseError(f.text()))
}

/// Compiles the source of the entry `key`. A failure names the key.
pub fn parse_value_or_map_err(key: &str, value: &str) -> (r: ResolverResult<Template>)
    ensures
        match value_of(value@) {
            Ok(template) => r matches Ok(found) && found@ == template,
            Err(f) => r matches Err(e) && e@ == SpecError::ParseError(failed_entry_text(key@, f)),
        },
{
    let chars = chars_of(value);
    match parse_value(chars.as_slice()) {
        Ok(template) => Ok(template),
        Err(f) => {
            let inner = ResolverError::ParseError(f.describe()).message();
            let mut text = MiniStr::const_new("Failed to parse '");
            text.push_str(key);
            text.push_str("': ");
            text.push_str(inner.as_str());
            Err(ResolverError::ParseError(text))
        },
    }
}

/// Compiles a template source.
pub fn parse_value(input: &[char]) -> (r: Result<Template, ParseFailure>)
    ensures
        match r {
            Ok(template) => value_of(input@) == Ok::<SpecTemplate, ParseFailure>(template@),
            Err(f) => value_of(input@) == Err::<SpecTemplate, ParseFailure>(f),
        },
    decreases input@.len(), 3nat,
{
    let (lo, hi) = trim_bounds(input, 0, input.len(), CharClass::AsciiSpace);
    assert(input@.subrange(0, input@.len() as int) =~= input@);
    match parse_conditional(slice_of(input, lo, hi)) {
        Some(selector) => Ok(Template::Conditional(selector)),
        None => match parse_parts(input) {
            Ok(parts) => Ok(Template::Parts(parts)),
            Err(f) => Err(f),
        },
    }
}

/// Reads a selector, where the input has the form of one.
pub fn parse_conditional(input: &[char]) -> (r: Option<Selector>)
    ensures
        match r {
            Some(selector) => selector_of(input@) == Some(selector@),
            None => selector_of(input@) is None,
        },
    decreases input@.len(), 2nat,
{
    let len = input.len();
    if len == 0 || input[0] != '$' {
        return None;
    }
    let name_end = scan(input, 1, len, CharClass::Ident);
    let arrow = scan(input, name_end, len, CharClass::MultiSpace);
    if name_end == 1 || !(len - arrow >= 2 && input[arrow] == '-' && input[arrow + 1] == '>') {
        return None;
    }
    let start = scan(input, arrow + 2, len, CharClass::MultiSpace);
    let param = ministr_from_chars(input, 1, name_end);
    let mut cases: Vec<(MiniStr, Template)> = Vec::new();
    let mut default: Option<Box<Template>> = None;
    let ghost mut seen: Seq<SpecBranch> = Seq::empty();
    let mut pos: usize = start;
    loop
        invariant
            start <= pos <= len,
            len == input.len(),
            len > 0,
            branches_of(input@.skip(start as int)) == seen + branches_of(input@.skip(pos as int)),
            cases@.len() == cases_of(seen).len(),
            forall|i: int|
                0 <= i < cases@.len() ==> (text_of(cases@[i].0), #[trigger] cases@[i].1.model())
                    == cases_of(seen)[i],
            match default {
                Some(d) => default_of(seen) == Some(Box::new(d.model())),
                None => default_of(seen) is None,
            },
        ensures
            branches_of(input@.skip(start as int)) == seen,
            cases@.len() == cases_of(seen).len(),
            forall|i: int|
                0 <= i < cases@.len() ==> (text_of(cases@[i].0), #[trigger] cases@[i].1.model())
                    == cases_of(seen)[i],
            match default {
                Some(d) => default_of(seen) == Some(Box::new(d.model())),
                None => default_of(seen) is None,
            },
        decreases len - pos,
    {
        let rest = slice_of(input, pos, len);
        assert(rest@ =~= input@.skip(pos as int));
        proof {
            lemma_branch_span(rest@);
        }
        match parse_branch(rest) {
            None => {
                assert(seen + Seq::<SpecBranch>::empty() =~= seen);
                break ;
            },
            Some((branch, n)) => {
                let ghost b = branch@;
                let ghost old_seen = seen;
                proof {
                    let keep = |b: SpecBranch| !b.is_default;
                    let pair = |b: SpecBranch| (b.value, b.template);
                    Seq::lemma_filter_push(old_seen, b, keep);
                    seen = old_seen.push(b);
                    assert(seen.drop_last() =~= old_seen);
                    assert(rest@.skip(n as int) =~= input@.skip(pos + n));
                    assert(old_seen + (seq![b] + branches_of(input@.skip(pos + n))) =~= seen
                        + branches_of(input@.skip(pos + n)));
                    if !b.is_default {
                        assert(old_seen.filter(keep).push(b).map_values(pair) =~= old_seen.filter(
                            keep,
                        ).map_values(pair).push(pair(b)));
                    }
                }
                if branch.is_default {
                    default = Some(Box::new(branch.template));
                } else {
                    cases.push((branch.value, branch.template));
                }
                pos = pos + n;
            },
        }
    }
    if cases.len() == 0 && default.is_none() {
        proof {
            lemma_no_branches(seen);
        }
        return None;
    }
    let selector = Selector { param, cases, default };
    proof {
        lemma_cases_model(selector, cases_of(seen));
    }
    Some(selector)
}

/// Branches without a case and without a default are no branches.
proof fn lemma_no_branches(branches: Seq<SpecBranch>)
    requires
        cases_of(branches).len() == 0,
        default_of(branches) is None,
    ensures
        branches.len() == 0,
    decreases branches.len(),
{
    if branches.len() > 0 {
        let keep = |b: SpecBranch| !b.is_default;
        let front = branches.drop_last();
        assert(branches =~= front.push(branches.last()));
        Seq::lemma_filter_push(front, branches.last(), keep);
    }
}

} // verus!
