//! The expansion of templates.

use vstd::prelude::*;

use crate::error::{outcome_of, ResolverError, ResolverResult, SpecError};
use crate::order::{
    first_index_of, is_first_index, lemma_first_index, lemma_first_index_is,
    lemma_first_index_none, lemma_first_index_some,
};
use crate::parsers::context::{lookup, Context};
use crate::part::{SpecPart, SpecRef, TemplatePart, VariableRef};
use crate::resolver::Resolver;
use crate::selector::{Selector, SpecSelector};
use crate::strings::{ministr_of, str_eq, text_of, MiniStr};
use crate::template::{SpecTemplate, Template};

verus! {

/// How many `{name}` references may be followed one inside the other,
/// the key that is asked for counted as the first.
pub const MAX_DEPTH: usize = 64;

/// The values that the cases of a selector name, in source order.
pub open spec fn case_values(cases: Seq<(Seq<char>, SpecTemplate)>) -> Seq<Seq<char>> {
    cases.map_values(|c: (Seq<char>, SpecTemplate)| c.0)
}

/// The first case that names `value`, if there is one.
pub open spec fn first_case(cases: Seq<(Seq<char>, SpecTemplate)>, value: Seq<char>) -> Option<int> {
    first_index_of(case_values(cases), value)
}

/// The text `front` before the outcome `rest`, where that is a text.
pub open spec fn text_before(front: Seq<char>, rest: Result<Seq<char>, SpecError>) -> Result<
    Seq<char>,
    SpecError,
> {
    match rest {
        Ok(text) => Ok(front + text),
        Err(e) => Err(e),
    }
}

/// What the template `t` expands to among the entries `ast` and with the
/// parameters `ctx`, following references no deeper than `depth`.
///
/// Segments expand one after the other and the first failure is the
/// outcome. A selector fails where the context lacks its parameter.
/// Otherwise it expands the first case that names the parameter's value,
/// or the default where no case does, and fails where there is neither.
pub open spec fn expand(
    ast: Map<Seq<char>, SpecTemplate>,
    t: SpecTemplate,
    ctx: Map<Seq<char>, Seq<char>>,
    depth: nat,
) -> Result<Seq<char>, SpecError>
    decreases depth, 2nat, t, 0nat,
{
    match t {
        SpecTemplate::Parts(parts) => expand_parts(ast, parts, ctx, depth),
        SpecTemplate::Conditional(selector) => match lookup(ctx, selector.param) {
            None => Err(SpecError::MissingParameter(selector.param)),
            Some(value) => match first_case(selector.cases, value) {
                Some(i) => {
                    proof {
                        lemma_first_index(case_values(selector.cases), value);
                    }
                    expand(ast, selector.cases[i].1, ctx, depth)
                },
                None => match selector.default {
                    Some(template) => expand(ast, *template, ctx, depth),
                    None => Err(SpecError::NoDefaultBranch(selector.param)),
                },
            },
        },
    }
}

/// What segments expand to: literal text to itself, `{$name}` to the
/// value of the parameter, `{name}` to what the entry of that key expands
/// to, one after the other.
pub open spec fn expand_parts(
    ast: Map<Seq<char>, SpecTemplate>,
    parts: Seq<SpecPart>,
    ctx: Map<Seq<char>, Seq<char>>,
    depth: nat,
) -> Result<Seq<char>, SpecError>
    decreases depth, 1nat, parts, 0nat,
{
    if parts.len() == 0 {
        Ok(Seq::empty())
    } else {
        let head = match parts[0] {
            SpecPart::Text(text) => Ok(text),
            SpecPart::Ref(SpecRef::Parameter(name)) => match lookup(ctx, name) {
                Some(value) => Ok(value),
                None => Err(SpecError::MissingParameter(name)),
            },
            SpecPart::Ref(SpecRef::Variable(name)) => expand_key(ast, name, ctx, depth),
        };
        match head {
            Err(e) => Err(e),
            Ok(text) => text_before(text, expand_parts(ast, parts.drop_first(), ctx, depth)),
        }
    }
}

/// What the entry under `key` expands to, where `depth` references may
/// still be followed: a failure where there is no such entry or none may
/// be followed, else the expansion of the entry's template one level
/// deeper.
pub open spec fn expand_key(
    ast: Map<Seq<char>, SpecTemplate>,
    key: Seq<char>,
    ctx: Map<Seq<char>, Seq<char>>,
    depth: nat,
) -> Result<Seq<char>, SpecError>
    decreases depth, 0nat, key, 0nat,
{
    if !ast.contains_key(key) {
        Err(SpecError::UndefinedVariable(key))
    } else if depth == 0 {
        Err(SpecError::CycleDetected(key))
    } else {
        expand(ast, ast[key], ctx, (depth - 1) as nat)
    }
}

/// An expansion is a function of the entries, the key, the bindings of
/// the context and the depth: two outcomes of the same expansion are equal.
pub proof fn lemma_expansion_deterministic(
    first: ResolverResult<MiniStr>,
    second: ResolverResult<MiniStr>,
    ast: Map<Seq<char>, SpecTemplate>,
    key: Seq<char>,
    ctx: Map<Seq<char>, Seq<char>>,
    depth: nat,
)
    requires
        outcome_of(first) == expand_key(ast, key, ctx, depth),
        outcome_of(second) == expand_key(ast, key, ctx, depth),
    ensures
        outcome_of(first) == outcome_of(second),
{
}

/// A selector whose parameter the context lacks fails with that
/// parameter, whatever its cases and its default are.
pub proof fn lemma_selector_missing_parameter(
    ast: Map<Seq<char>, SpecTemplate>,
    selector: SpecSelector,
    ctx: Map<Seq<char>, Seq<char>>,
    depth: nat,
)
    requires
        !ctx.contains_key(selector.param),
    ensures
        expand(ast, SpecTemplate::Conditional(selector), ctx, depth) == Err::<Seq<char>, SpecError>(
            SpecError::MissingParameter(selector.param),
        ),
{
}

/// Where a case names the value of the parameter, the selector expands
/// to what the first such case expands to, whether or not it has a
/// default and whatever that is.
pub proof fn lemma_selector_prefers_case(
    ast: Map<Seq<char>, SpecTemplate>,
    selector: SpecSelector,
    ctx: Map<Seq<char>, Seq<char>>,
    depth: nat,
    i: int,
    other_default: Option<Box<SpecTemplate>>,
)
    requires
        ctx.contains_key(selector.param),
        0 <= i < selector.cases.len(),
        selector.cases[i].0 == ctx[selector.param],
    ensures
        first_case(selector.cases, ctx[selector.param]) matches Some(first) && 0 <= first <= i
            && selector.cases[first].0 == ctx[selector.param] && expand(
            ast,
            SpecTemplate::Conditional(selector),
            ctx,
            depth,
        ) == expand(ast, selector.cases[first].1, ctx, depth),
        expand(ast, SpecTemplate::Conditional(selector), ctx, depth) == expand(
            ast,
            SpecTemplate::Conditional(SpecSelector { default: other_default, ..selector }),
            ctx,
            depth,
        ),
{
    let values = case_values(selector.cases);
    lemma_first_index_some(values, ctx[selector.param], i);
    lemma_first_index(values, ctx[selector.param]);
}

/// Where no case names the value of the parameter and there is a default,
/// the selector expands to what the default expands to, however many
/// cases there are.
pub proof fn lemma_selector_falls_back(
    ast: Map<Seq<char>, SpecTemplate>,
    selector: SpecSelector,
    ctx: Map<Seq<char>, Seq<char>>,
    depth: nat,
)
    requires
        ctx.contains_key(selector.param),
        forall|i: int| 0 <= i < selector.cases.len() ==> selector.cases[i].0 != ctx[selector.param],
        selector.default is Some,
    ensures
        expand(ast, SpecTemplate::Conditional(selector), ctx, depth) == expand(
            ast,
            *selector.default->0,
            ctx,
            depth,
        ),
{
    lemma_first_index_none(case_values(selector.cases), ctx[selector.param]);
}

/// Where no case names the value of the parameter and there is no
/// default, the selector fails with its parameter.
pub proof fn lemma_selector_without_default(
    ast: Map<Seq<char>, SpecTemplate>,
    selector: SpecSelector,
    ctx: Map<Seq<char>, Seq<char>>,
    depth: nat,
)
    requires
        ctx.contains_key(selector.param),
        forall|i: int| 0 <= i < selector.cases.len() ==> selector.cases[i].0 != ctx[selector.param],
        selector.default is None,
    ensures
        expand(ast, SpecTemplate::Conditional(selector), ctx, depth) == Err::<Seq<char>, SpecError>(
            SpecError::NoDefaultBranch(selector.param),
        ),
{
    lemma_first_index_none(case_values(selector.cases), ctx[selector.param]);
}

/// A template without segments expands to the empty text.
pub proof fn lemma_no_parts_expand_to_nothing(
    ast: Map<Seq<char>, SpecTemplate>,
    ctx: Map<Seq<char>, Seq<char>>,
    depth: nat,
)
    ensures
        expand(ast, SpecTemplate::Parts(Seq::empty()), ctx, depth) == Ok::<Seq<char>, SpecError>(
            Seq::empty(),
        ),
{
    assert(expand_parts(ast, Seq::empty(), ctx, depth) == Ok::<Seq<char>, SpecError>(
        Seq::empty(),
    ));
}

/// Segments fail with a parameter that the context lacks at the first
/// interpolation of it, wherever that stands, if the segments before it
/// expand.
pub proof fn lemma_parameter_missing(
    ast: Map<Seq<char>, SpecTemplate>,
    parts: Seq<SpecPart>,
    at: int,
    name: Seq<char>,
    ctx: Map<Seq<char>, Seq<char>>,
    depth: nat,
)
    requires
        0 <= at < parts.len(),
        parts[at] == SpecPart::Ref(SpecRef::Parameter(name)),
        !ctx.contains_key(name),
        expand_parts(ast, parts.take(at), ctx, depth) is Ok,
    ensures
        expand(ast, SpecTemplate::Parts(parts), ctx, depth) == Err::<Seq<char>, SpecError>(
            SpecError::MissingParameter(name),
        ),
    decreases at,
{
    if at > 0 {
        let rest = parts.drop_first();
        assert(parts.take(at)[0] == parts[0]);
        assert(parts.take(at).drop_first() =~= rest.take(at - 1));
        lemma_parameter_missing(ast, rest, at - 1, name, ctx, depth);
        assert(expand_parts(ast, rest, ctx, depth) == Err::<Seq<char>, SpecError>(
            SpecError::MissingParameter(name),
        ));
    }
    assert(expand_parts(ast, parts, ctx, depth) == Err::<Seq<char>, SpecError>(
        SpecError::MissingParameter(name),
    ));
}

impl Resolver {
    /// Expands a template.
    pub(crate) fn process_template(
        &self,
        template: &Template,
        context: &Context<'_>,
        depth: usize,
    ) -> (r: ResolverResult<MiniStr>)
        requires
            context.wf(),
        ensures
            outcome_of(r) == expand(self@, template@, context@, depth as nat),
        decreases depth, 2nat, template, 0nat,
    {
        match template {
            Template::Conditional(selector) => self.process_tmpl_selector(context, selector, depth),
            Template::Parts(parts) => self.process_tmpl_parts(context, parts.as_slice(), depth),
        }
    }

    /// Expands segments, one after the other.
    pub(crate) fn process_tmpl_parts(
        &self,
        context: &Context<'_>,
        parts: &[TemplatePart],
        depth: usize,
    ) -> (r: ResolverResult<MiniStr>)
        requires
            context.wf(),
        ensures
            outcome_of(r) == expand_parts(
                self@,
                parts@.map_values(|p: TemplatePart| p@),
                context@,
                depth as nat,
            ),
        decreases depth, 1nat, parts@, 0nat,
    {
        let ghost model = parts@.map_values(|p: TemplatePart| p@);
        let ghost whole = expand_parts(self@, model, context@, depth as nat);
        let mut result = MiniStr::const_new("");
        proof {
            reveal_strlit("");
            assert(model.skip(0) =~= model);
            let rest = expand_parts(self@, model, context@, depth as nat);
            if rest is Ok {
                assert(text_of(result) + rest->Ok_0 =~= rest->Ok_0);
            }
        }
        let mut i: usize = 0;
        while i < parts.len()
            invariant
                i <= parts.len(),
                context.wf(),
                model == parts@.map_values(|p: TemplatePart| p@),
                whole == expand_parts(self@, model, context@, depth as nat),
                whole == text_before(
                    text_of(result),
                    expand_parts(self@, model.skip(i as int), context@, depth as nat),
                ),
            decreases parts.len() - i,
        {
            let ghost before = text_of(result);
            let ghost rest = model.skip(i as int);
            let ghost mut pushed: Seq<char> = Seq::empty();
            assert(rest[0] == parts@[i as int]@);
            assert(rest.drop_first() =~= model.skip(i + 1));
            match &parts[i] {
                TemplatePart::Text(text) => {
                    proof {
                        pushed = text_of(*text);
                    }
                    result.push_str(text.as_str());
                },
                TemplatePart::Variable(VariableRef::Variable(name)) => {
                    match self.try_get_template_and_process(name.as_str(), context, depth) {
                        Ok(text) => {
                            proof {
                                pushed = text_of(text);
                            }
                            result.push_str(text.as_str());
                        },
                        Err(e) => {
                            return Err(e);
                        },
                    }
                },
                TemplatePart::Variable(VariableRef::Parameter(name)) => {
                    match context.get_value(name.as_str()) {
                        Some(value) => {
                            proof {
                                pushed = value@;
                            }
                            result.push_str(value);
                        },
                        None => {
                            return Err(ResolverError::MissingParameter(name.clone()));
                        },
                    }
                },
            }
            proof {
                let tail = expand_parts(self@, model.skip(i + 1), context@, depth as nat);
                assert(text_of(result) == before + pushed);
                assert(expand_parts(self@, rest, context@, depth as nat) == text_before(
                    pushed,
                    tail,
                ));
                if tail is Ok {
                    assert(before + (pushed + tail->Ok_0) =~= text_of(result) + tail->Ok_0);
                }
            }
            i = i + 1;
        }
        Ok(result)
    }

    /// Expands the entry under `var_name`, where `depth` references may
    /// still be followed.
    pub(crate) fn try_get_template_and_process(
        &self,
        var_name: &str,
        context: &Context<'_>,
        depth: usize,
    ) -> (r: ResolverResult<MiniStr>)
        requires
            context.wf(),
        ensures
            outcome_of(r) == expand_key(self@, var_name@, context@, depth as nat),
        decreases depth, 0nat, var_name@, 0nat,
    {
        let var_template = match self.try_get_template(var_name) {
            Ok(template) => template,
            Err(e) => {
                return Err(e);
            },
        };
        if depth == 0 {
            return Err(ResolverError::CycleDetected(ministr_of(var_name)));
        }
        self.process_template(var_template, context, depth - 1)
    }

    /// Expands a selector: the first case that names the value of its
    /// parameter, else the default.
    #[verifier::loop_isolation(false)]
    pub(crate) fn process_tmpl_selector(
        &self,
        context: &Context<'_>,
        selector: &Selector,
        depth: usize,
    ) -> (r: ResolverResult<MiniStr>)
        requires
            context.wf(),
        ensures
            outcome_of(r) == expand(
                self@,
                SpecTemplate::Conditional(selector@),
                context@,
                depth as nat,
            ),
        decreases depth, 2nat, selector, 0nat,
    {
        let param_value = match context.get_value(selector.param.as_str()) {
            Some(value) => value,
            None => {
                return Err(ResolverError::MissingParameter(selector.param.clone()));
            },
        };
        let ghost values = case_values(selector@.cases);
        let mut i: usize = 0;
        while i < selector.cases.len()
            invariant
                i <= selector.cases.len(),
                forall|j: int| 0 <= j < i ==> values[j] != param_value@,
            decreases selector.cases.len() - i,
        {
            assert(values[i as int] == text_of(selector.cases@[i as int].0));
            if str_eq(selector.cases[i].0.as_str(), param_value) {
                proof {
                    assert(is_first_index(values, param_value@, i as int));
                    lemma_first_index_is(values, param_value@, i as int);
                    assert(selector@.cases[i as int].1 == selector.cases@[i as int].1@);
                }
                return self.process_template(&selector.cases[i].1, context, depth);
            }
            i = i + 1;
        }
        proof {
            lemma_first_index_none(values, param_value@);
        }
        match &selector.default {
            Some(default) => self.process_template(default, context, depth),
            None => Err(ResolverError::NoDefaultBranch(selector.param.clone())),
        }
    }
}

} // verus!
