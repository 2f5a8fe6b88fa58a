//! The context of an expansion: where the values of parameters are found.

use std::collections::BTreeMap;
use std::collections::HashMap;

use compact_str::CompactString;
use vstd::prelude::*;

use crate::order::{
    ascending, first_index_of, is_lower_bound, lemma_bisect_high, lemma_bisect_low,
    lemma_lower_bound, lex_lt,
};
use crate::strings::{str_eq, str_lt, text_of, MiniStr};

verus! {

/// A context of borrowed names and values in a hash map.
pub type ContextMap<'a> = HashMap<&'a str, &'a str, ahash::RandomState>;

/// A context that owns its names and values, in a hash map.
pub type ContextMapBuf = HashMap<kstring::KString, MiniStr, ahash::RandomState>;

/// A context that owns its names and values, in an ordered map.
pub type BTreeRawMap = BTreeMap<MiniStr, MiniStr>;

/// `ahash::RandomState`, the hasher of the hash maps. Nothing is known
/// of a value.
#[verifier::external_type_specification]
#[verifier::external_body]
pub struct ExRandomState(ahash::RandomState);

/// What an ordered map of strings binds: each key's text to its value's
/// text.
pub uninterp spec fn btree_bindings(m: BTreeMap<CompactString, CompactString>) -> Map<
    Seq<char>,
    Seq<char>,
>;

/// `BTreeMap::get` by a string slice: the value bound to the key with
/// that text, if there is one.
#[verifier::external_body]
fn btree_get<'a>(m: &'a BTreeMap<CompactString, CompactString>, key: &str) -> (r: Option<
    &'a CompactString,
>)
    ensures
        match r {
            Some(value) => btree_bindings(*m).contains_key(key@) && btree_bindings(*m)[key@]
                == text_of(*value),
            None => !btree_bindings(*m).contains_key(key@),
        },
{
    m.get(key)
}

/// What a hash map of borrowed strings binds.
pub uninterp spec fn borrowed_bindings(m: HashMap<&str, &str, ahash::RandomState>) -> Map<
    Seq<char>,
    Seq<char>,
>;

/// `HashMap::get` by a string slice.
#[verifier::external_body]
fn borrowed_get<'a>(m: &'a HashMap<&'a str, &'a str, ahash::RandomState>, key: &str) -> (r: Option<
    &'a str,
>)
    ensures
        match r {
            Some(value) => borrowed_bindings(*m).contains_key(key@) && borrowed_bindings(*m)[key@]
                == value@,
            None => !borrowed_bindings(*m).contains_key(key@),
        },
{
    m.get(key).copied()
}

/// What a hash map of owned strings binds.
pub uninterp spec fn owned_bindings(
    m: HashMap<kstring::KString, CompactString, ahash::RandomState>,
) -> Map<Seq<char>, Seq<char>>;

/// `HashMap::get` by a string slice.
#[verifier::external_body]
fn owned_get<'a>(
    m: &'a HashMap<kstring::KString, CompactString, ahash::RandomState>,
    key: &str,
) -> (r: Option<&'a CompactString>)
    ensures
        match r {
            Some(value) => owned_bindings(*m).contains_key(key@) && owned_bindings(*m)[key@]
                == text_of(*value),
            None => !owned_bindings(*m).contains_key(key@),
        },
{
    m.get(key)
}

/// Pairs of borrowed strings as pairs of texts.
pub open spec fn pairs_view(pairs: Seq<(&str, &str)>) -> Seq<(Seq<char>, Seq<char>)> {
    pairs.map_values(|p: (&str, &str)| (p.0@, p.1@))
}

/// The first components of pairs, in their order.
pub open spec fn keys_of(pairs: Seq<(Seq<char>, Seq<char>)>) -> Seq<Seq<char>> {
    pairs.map_values(|p: (Seq<char>, Seq<char>)| p.0)
}

/// What a list of pairs binds: each name to the value beside it, the
/// first where a name stands twice.
pub open spec fn bindings_of(pairs: Seq<(Seq<char>, Seq<char>)>) -> Map<Seq<char>, Seq<char>> {
    Map::new(
        |k: Seq<char>| first_index_of(keys_of(pairs), k) is Some,
        |k: Seq<char>| pairs[first_index_of(keys_of(pairs), k)->0].1,
    )
}

/// What a lookup finds in bindings, as a mathematical value.
pub open spec fn lookup(bindings: Map<Seq<char>, Seq<char>>, key: Seq<char>) -> Option<Seq<char>> {
    if bindings.contains_key(key) {
        Some(bindings[key])
    } else {
        None
    }
}

/// The text of what a lookup found.
pub open spec fn found_text(r: Option<&str>) -> Option<Seq<char>> {
    match r {
        Some(value) => Some(value@),
        None => None,
    }
}

/// Where the values of parameters are looked up.
#[derive(Debug, Clone, Copy)]
pub enum Context<'a> {
    /// No parameter has a value.
    Empty,
    /// Pairs of name and value, in ascending order of the names.
    Slice(&'a [(&'a str, &'a str)]),
    /// An ordered map from names to values.
    BTree(&'a BTreeRawMap),
    /// A hash map of borrowed names and values.
    BorrowedMap(&'a ContextMap<'a>),
    /// A hash map that owns its names and values.
    OwnedMap(&'a ContextMapBuf),
}

impl<'a> View for Context<'a> {
    type V = Map<Seq<char>, Seq<char>>;

    open spec fn view(&self) -> Map<Seq<char>, Seq<char>> {
        match self {
            Context::Empty => Map::empty(),
            Context::Slice(pairs) => bindings_of(pairs_view(pairs@)),
            Context::BTree(m) => btree_bindings(**m),
            Context::BorrowedMap(m) => borrowed_bindings(**m),
            Context::OwnedMap(m) => owned_bindings(**m),
        }
    }
}

impl<'a> Default for Context<'a> {
    fn default() -> (r: Self)
        ensures
            r == Context::<'a>::Empty,
    {
        Context::Empty
    }
}

impl<'a> Context<'a> {
    /// Whether lookups find what the context binds: the pairs of a slice
    /// are to stand in ascending order of their names.
    pub open spec fn wf(&self) -> bool {
        match self {
            Context::Slice(pairs) => ascending(keys_of(pairs_view(pairs@))),
            _ => true,
        }
    }

    /// The value of the parameter `key`, if the context binds it. In a
    /// slice whose pairs are out of order a name may be missed, and a
    /// value that is found still stands beside that name.
    pub fn get_value(&self, key: &str) -> (r: Option<&'a str>)
        ensures
            self.wf() ==> found_text(r) == lookup(self@, key@),
            self matches Context::Slice(pairs) ==> (r matches Some(value) ==> exists|i: int|
                0 <= i < pairs@.len() && (#[trigger] pairs@[i]).0@ == key@ && pairs@[i].1@
                    == value@),
    {
        match self {
            Context::Slice(context) => Self::get_slice_value(context, key),
            Context::BTree(context) => match btree_get(context, key) {
                Some(value) => Some(value.as_str()),
                None => None,
            },
            Context::Empty => None,
            Context::BorrowedMap(context) => borrowed_get(context, key),
            Context::OwnedMap(context) => match owned_get(context, key) {
                Some(value) => Some(value.as_str()),
                None => None,
            },
        }
    }

    /// Looks `key` up by bisection in pairs that stand in ascending order
    /// of their names, and gives the value of the first pair with that
    /// name. In pairs out of order a name may be missed, and a value that
    /// is found still stands beside that name.
    pub fn get_slice_value(context: &'a [(&str, &str)], key: &str) -> (r: Option<&'a str>)
        ensures
            ascending(keys_of(pairs_view(context@))) ==> found_text(r) == lookup(
                bindings_of(pairs_view(context@)),
                key@,
            ),
            r matches Some(value) ==> exists|i: int|
                0 <= i < context@.len() && (#[trigger] context@[i]).0@ == key@ && context@[i].1@
                    == value@,
    {
        let ghost keys = keys_of(pairs_view(context@));
        let mut lo: usize = 0;
        let mut hi: usize = context.len();
        while lo < hi
            invariant
                0 <= lo <= hi <= context@.len(),
                keys == keys_of(pairs_view(context@)),
                ascending(keys) ==> forall|j: int| 0 <= j < lo ==> lex_lt(#[trigger] keys[j], key@),
                ascending(keys) ==> forall|j: int|
                    hi <= j < keys.len() ==> !lex_lt(#[trigger] keys[j], key@),
            decreases hi - lo,
        {
            let mid = lo + (hi - lo) / 2;
            assert(keys[mid as int] == context@[mid as int].0@);
            if str_lt(context[mid].0, key) {
                proof {
                    if ascending(keys) {
                        lemma_bisect_low(keys, key@, mid as int);
                    }
                }
                lo = mid + 1;
            } else {
                proof {
                    if ascending(keys) {
                        lemma_bisect_high(keys, key@, mid as int);
                    }
                }
                hi = mid;
            }
        }
        proof {
            if ascending(keys) {
                assert(is_lower_bound(keys, key@, lo as int));
                lemma_lower_bound(keys, key@, lo as int);
            }
            if lo < keys.len() {
                assert(keys[lo as int] == context@[lo as int].0@);
            }
        }
        if lo < context.len() && str_eq(context[lo].0, key) {
            Some(context[lo].1)
        } else {
            None
        }
    }
}

} // verus!
