//! One branch of a selector.

use vstd::prelude::*;

use crate::chars::{scan, slice_of, trim_bounds, CharClass};
use crate::parsers::{branch_of, lemma_branch_span, parse_value, SpecBranch};
use crate::strings::{ministr_from_chars, text_of, MiniStr};
use crate::template::Template;

verus! {

/// One branch of a selector: a case value with its template, or the
/// default.
#[derive(Debug, Clone)]
pub struct Branch {
    pub is_default: bool,
    pub value: MiniStr,
    pub template: Template,
}

impl View for Branch {
    type V = SpecBranch;

    open spec fn view(&self) -> SpecBranch {
        SpecBranch {
            is_default: self.is_default,
            value: text_of(self.value),
            template: self.template@,
        }
    }
}

/// Reads the branch that `input` begins with, and says how many
/// characters it takes.
pub fn parse_branch(input: &[char]) -> (r: Option<(Branch, usize)>)
    ensures
        match r {
            Some((branch, n)) => branch_of(input@) == Some((branch@, n as nat)),
            None => branch_of(input@) is None,
        },
    decreases input@.len(), 0nat,
{
    let len = input.len();
    let mark = scan(input, 0, len, CharClass::MultiSpace);
    assert(input@.subrange(0, len as int) =~= input@);
    let is_default = mark < len && input[mark] == '*';
    let bracket = if is_default {
        mark + 1
    } else {
        mark
    };
    if bracket >= len || input[bracket] != '[' {
        return None;
    }
    let close = scan(input, bracket + 1, len, CharClass::IsNot(']'));
    if close == len {
        return None;
    }
    let (value_from, value_to) = trim_bounds(input, bracket + 1, close, CharClass::AsciiSpace);
    let line = scan(input, close + 1, len, CharClass::Blank);
    let end = scan(input, line, len, CharClass::NotLineBreak);
    let content = slice_of(input, line, end);
    proof {
        lemma_branch_span(input@);
    }
    match parse_value(content) {
        Err(_) => None,
        Ok(template) => {
            let value = ministr_from_chars(input, value_from, value_to);
            Some((Branch { is_default, value, template }, end))
        },
    }
}

} // verus!
