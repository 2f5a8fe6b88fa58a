//! The segments of a template without branches.

use vstd::prelude::*;

use crate::strings::{text_of, MiniStr};

verus! {

/// What an interpolation refers to, as a mathematical value.
pub enum SpecRef {
    /// Another entry of the resolver, by its key.
    Variable(Seq<char>),
    /// A parameter of the context, by its name.
    Parameter(Seq<char>),
}

/// A segment of a template, as a mathematical value.
pub enum SpecPart {
    /// Literal text.
    Text(Seq<char>),
    /// An interpolation.
    Ref(SpecRef),
}

/// What an interpolation refers to.
#[derive(Debug)]
pub enum VariableRef {
    /// `{name}`: another entry of the resolver.
    Variable(MiniStr),
    /// `{$name}`: a parameter of the context.
    Parameter(MiniStr),
}

impl View for VariableRef {
    type V = SpecRef;

    open spec fn view(&self) -> SpecRef {
        match self {
            VariableRef::Variable(name) => SpecRef::Variable(text_of(*name)),
            VariableRef::Parameter(name) => SpecRef::Parameter(text_of(*name)),
        }
    }
}

impl Clone for VariableRef {
    fn clone(&self) -> (r: Self)
        ensures
            r@ == self@,
    {
        match self {
            VariableRef::Variable(name) => VariableRef::Variable(name.clone()),
            VariableRef::Parameter(name) => VariableRef::Parameter(name.clone()),
        }
    }
}

/// A segment of a template: literal text or an interpolation.
#[derive(Debug)]
pub enum TemplatePart {
    Text(MiniStr),
    Variable(VariableRef),
}

impl View for TemplatePart {
    type V = SpecPart;

    open spec fn view(&self) -> SpecPart {
        match self {
            TemplatePart::Text(text) => SpecPart::Text(text_of(*text)),
            TemplatePart::Variable(var) => SpecPart::Ref(var@),
        }
    }
}

impl Clone for TemplatePart {
    fn clone(&self) -> (r: Self)
        ensures
            r@ == self@,
    {
        match self {
            TemplatePart::Text(text) => TemplatePart::Text(text.clone()),
            TemplatePart::Variable(var) => TemplatePart::Variable(var.clone()),
        }
    }
}

impl Default for TemplatePart {
    /// The empty text.
    fn default() -> (r: Self)
        ensures
            r@ == SpecPart::Text(Seq::empty()),
    {
        let text = MiniStr::const_new("");
        proof {
            reveal_strlit("");
            assert(text_of(text) =~= Seq::empty());
        }
        TemplatePart::Text(text)
    }
}

} // verus!
