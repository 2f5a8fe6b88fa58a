//! The entries of a resolver in the order of their keys.

use std::collections::BTreeMap;

use kstring::KString;
use vstd::prelude::*;

use crate::resolver::{ast_entries, Resolver, AST};
use crate::template::Template;

verus! {

/// The entries of a resolver in an ordered map, which hands them out in
/// ascending order of their keys.
pub type OrderedAST = BTreeMap<KString, Template>;

/// What an ordered map of entries binds: the text of each key to its
/// template.
pub uninterp spec fn ordered_entries(ast: BTreeMap<KString, Template>) -> Map<Seq<char>, Template>;

/// `BTreeMap::from_iter` on the entries of a hash map: the ordered map
/// binds what the hash map bound.
#[verifier::external_body]
fn ast_into_ordered(ast: AST) -> (r: OrderedAST)
    ensures
        ordered_entries(r) == ast_entries(ast),
{
    BTreeMap::from_iter(ast)
}

impl Resolver {
    /// The entries in an ordered map, so that what is written from it is
    /// the same wherever it is written.
    pub fn into_btree_map(self) -> (r: OrderedAST)
        ensures
            ordered_entries(r) == ast_entries(self.0),
    {
        ast_into_ordered(self.0)
    }

    /// The entries that the resolver holds.
    pub fn into_inner(self) -> (r: AST)
        ensures
            r == self.0,
    {
        self.0
    }
}

} // verus!
