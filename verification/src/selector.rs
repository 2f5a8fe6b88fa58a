//! Branching on the value of a parameter.

use vstd::prelude::*;

use crate::strings::{text_of, MiniStr};
use crate::template::{SpecTemplate, Template};

verus! {

/// A selector as a mathematical value.
pub struct SpecSelector {
    pub param: Seq<char>,
    pub cases: Seq<(Seq<char>, SpecTemplate)>,
    pub default: Option<Box<SpecTemplate>>,
}

/// A branching template: the cases are tried in order against the value
/// of `param`, and `default` is for a value that no case names.
#[derive(Debug)]
pub struct Selector {
    /// The name of the parameter that decides.
    pub param: MiniStr,
    /// The case values with their templates, in source order.
    pub cases: Vec<(MiniStr, Template)>,
    /// The template for a value that no case names.
    pub default: Option<Box<Template>>,
}

impl Selector {
    pub open spec fn model(&self) -> SpecSelector
        decreases self,
    {
        SpecSelector {
            param: text_of(self.param),
            cases: Seq::new(
                self.cases@.len(),
                |i: int|
                    if 0 <= i < self.cases@.len() {
                        (text_of(self.cases@[i].0), self.cases@[i].1.model())
                    } else {
                        arbitrary()
                    },
            ),
            default: match self.default {
                Some(d) => Some(Box::new(d.model())),
                None => None,
            },
        }
    }
}

/// The cases of a selector's model are the models of its cases.
pub proof fn lemma_cases_model(selector: Selector, cases: Seq<(Seq<char>, SpecTemplate)>)
    requires
        selector.cases@.len() == cases.len(),
        forall|i: int|
            0 <= i < cases.len() ==> (
                text_of(selector.cases@[i].0),
                #[trigger] selector.cases@[i].1.model(),
            ) == cases[i],
    ensures
        selector@.cases == cases,
{
    assert forall|i: int| 0 <= i < cases.len() implies selector@.cases[i] == cases[i] by {
        assert(selector@.cases[i].1 == selector.cases@[i].1.model());
    }
    assert(selector@.cases =~= cases);
}

impl Selector {
    /// The same selector in storage of its own.
    #[verifier::loop_isolation(false)]
    pub(crate) fn duplicate(&self) -> (r: Selector)
        ensures
            r@ == self@,
        decreases self,
    {
        let mut cases: Vec<(MiniStr, Template)> = Vec::new();
        let mut i: usize = 0;
        while i < self.cases.len()
            invariant
                i <= self.cases.len(),
                cases@.len() == i,
                forall|j: int|
                    0 <= j < i ==> (text_of(cases@[j].0), #[trigger] cases@[j].1.model())
                        == self@.cases[j],
            decreases self.cases.len() - i,
        {
            let value = self.cases[i].0.clone();
            let template = self.cases[i].1.duplicate();
            assert(self@.cases[i as int] == (
                text_of(self.cases@[i as int].0),
                self.cases@[i as int].1.model(),
            ));
            cases.push((value, template));
            i = i + 1;
        }
        let default = match &self.default {
            Some(template) => Some(Box::new(template.duplicate())),
            None => None,
        };
        let r = Selector { param: self.param.clone(), cases, default };
        proof {
            lemma_cases_model(r, self@.cases);
        }
        r
    }
}

impl Clone for Selector {
    fn clone(&self) -> (r: Self)
        ensures
            r@ == self@,
    {
        self.duplicate()
    }
}

impl View for Selector {
    type V = SpecSelector;

    open spec fn view(&self) -> SpecSelector {
        self.model()
    }
}

} // verus!
