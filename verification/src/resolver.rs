//! The compiled entries, each under its key.

pub mod from_slice;
pub mod lookup_value;
pub mod ordered_map;
pub mod std_impl;

use std::collections::HashMap;

use kstring::KString;
use vstd::prelude::*;

use crate::error::{ResolverError, ResolverResult, SpecError};
use crate::strings::{key_text, ministr_of, MiniStr};

pub use crate::parsers::context::BTreeRawMap;
pub use crate::resolver::ordered_map::OrderedAST;
use crate::template::{SpecTemplate, Template};

verus! {

/// Pairs of key and source in a hash map, before they are compiled.
pub type AHashRawMap = HashMap<KString, MiniStr, ahash::RandomState>;

/// The entries of a resolver: a hash map from keys to templates.
pub type AST = HashMap<KString, Template, ahash::RandomState>;

/// What a map of entries binds: the text of each key to its template.
pub uninterp spec fn ast_entries(ast: HashMap<KString, Template, ahash::RandomState>) -> Map<
    Seq<char>,
    Template,
>;

/// Entries that bind nothing.
pub open spec fn no_entries() -> Map<Seq<char>, Template> {
    Map::empty()
}

/// `HashMap::default`: a map that binds nothing.
#[verifier::external_body]
fn ast_new() -> (r: AST)
    ensures
        ast_entries(r) == no_entries(),
{
    HashMap::default()
}

/// `HashMap::insert`: the key is bound to the value, in place of what a
/// key with the same text was bound to.
#[verifier::external_body]
fn ast_insert(ast: &mut AST, key: KString, template: Template)
    ensures
        ast_entries(*final(ast)) == ast_entries(*old(ast)).insert(key_text(key), template),
{
    ast.insert(key, template);
}

/// `HashMap::get` by a string slice: the template bound to the key with
/// that text, if there is one.
#[verifier::external_body]
fn ast_get<'a>(ast: &'a AST, key: &str) -> (r: Option<&'a Template>)
    ensures
        match r {
            Some(template) => ast_entries(*ast).contains_key(key@) && ast_entries(*ast)[key@]
                == *template,
            None => !ast_entries(*ast).contains_key(key@),
        },
{
    ast.get(key)
}

/// `HashMap::clone`: the same keys, each bound to a clone of the
/// template that it was bound to.
#[verifier::external_body]
fn ast_clone(ast: &AST) -> (r: AST)
    ensures
        ast_entries(r).dom() == ast_entries(*ast).dom(),
        forall|k: Seq<char>| #[trigger]
            ast_entries(r).contains_key(k) ==> cloned::<Template>(
                ast_entries(*ast)[k],
                ast_entries(r)[k],
            ),
{
    ast.clone()
}

/// What entries bind as mathematical values: the text of each key to the
/// model of its template.
pub open spec fn entry_models(entries: Map<Seq<char>, Template>) -> Map<Seq<char>, SpecTemplate> {
    entries.map_values(|t: Template| t@)
}

/// A set of compiled templates, each under its key.
#[derive(Debug)]
pub struct Resolver(pub AST);

impl View for Resolver {
    type V = Map<Seq<char>, SpecTemplate>;

    open spec fn view(&self) -> Map<Seq<char>, SpecTemplate> {
        entry_models(ast_entries(self.0))
    }
}

impl Resolver {
    /// A resolver without entries.
    pub fn new() -> (r: Self)
        ensures
            r@ == Map::<Seq<char>, SpecTemplate>::empty(),
    {
        let r = Resolver(ast_new());
        assert(r@ =~= Map::<Seq<char>, SpecTemplate>::empty());
        r
    }

    /// The template under `key`.
    pub fn try_get_template(&self, key: &str) -> (r: ResolverResult<&Template>)
        ensures
            match r {
                Ok(template) => self@.contains_key(key@) && self@[key@] == template@,
                Err(e) => !self@.contains_key(key@) && e@ == SpecError::UndefinedVariable(key@),
            },
    {
        match ast_get(&self.0, key) {
            Some(template) => Ok(template),
            None => Err(ResolverError::UndefinedVariable(ministr_of(key))),
        }
    }

    /// The resolver with `template` under `key`, in place of what stood
    /// there.
    pub fn with_entry(self, key: KString, template: Template) -> (r: Self)
        ensures
            r@ == self@.insert(key_text(key), template@),
    {
        let mut ast = self.0;
        ast_insert(&mut ast, key, template);
        let r = Resolver(ast);
        assert(r@ =~= self@.insert(key_text(key), template@));
        r
    }
}

impl Clone for Resolver {
    /// A resolver that holds the same entries.
    fn clone(&self) -> (r: Self)
        ensures
            r@ == self@,
    {
        let r = Resolver(ast_clone(&self.0));
        proof {
            assert forall|k: Seq<char>| #[trigger] r@.contains_key(k) implies r@[k] == self@[k] by {
                assert(ast_entries(r.0).contains_key(k));
                assert(cloned::<Template>(ast_entries(self.0)[k], ast_entries(r.0)[k]));
            }
            assert(r@ =~= self@);
        }
        r
    }
}

impl core::ops::Deref for Resolver {
    type Target = AST;

    /// The entries that the resolver holds.
    fn deref(&self) -> (r: &AST)
        ensures
            *r == self.0,
    {
        &self.0
    }
}

impl Default for Resolver {
    fn default() -> (r: Self)
        ensures
            r@ == Map::<Seq<char>, SpecTemplate>::empty(),
    {
        Resolver::new()
    }
}

} // verus!
