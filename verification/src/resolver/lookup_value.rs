//! Expanding the entry under a key.

use tinyvec::TinyVec;
use vstd::prelude::*;

use crate::error::{outcome_of, ResolverResult};
use crate::order::{
    first_index_of, lemma_first_index, lemma_first_index_some, lemma_lex_irreflexive,
    lemma_lex_total, lemma_lex_transitive, lemma_pairs_ascending_keys, lex_le, lex_lt, pair_le,
    pairs_ascending,
};
use crate::parsers::context::{
    bindings_of, borrowed_bindings, btree_bindings, keys_of, owned_bindings, pairs_view,
    BTreeRawMap, Context, ContextMap, ContextMapBuf,
};
use crate::parsers::process_tmpl::{expand_key, MAX_DEPTH};
use crate::resolver::Resolver;
use crate::strings::MiniStr;
use crate::template::SpecTemplate;

verus! {

/// A copy of the pairs of a context in a `tinyvec::TinyVec`, which holds
/// up to five of them inline. Nothing is known of a value but what
/// [`buffered_pairs`] names.
#[verifier::external_body]
pub struct ContextBuffer<'a> {
    inner: TinyVec<[(&'a str, &'a str); 5]>,
}

/// The pairs that the buffer holds, in order.
pub uninterp spec fn buffered_pairs(buffer: ContextBuffer<'_>) -> Seq<(Seq<char>, Seq<char>)>;

/// Collecting into a `TinyVec`: the buffer holds the pairs of the slice in
/// their order.
#[verifier::external_body]
fn buffer_of<'a>(context: &[(&'a str, &'a str)]) -> (r: ContextBuffer<'a>)
    ensures
        buffered_pairs(r) == pairs_view(context@),
{
    ContextBuffer { inner: context.iter().copied().collect() }
}

/// `sort_unstable` on the pairs: the same pairs, each as often, in
/// ascending order, which for pairs of strings is the order of the
/// names and, among equal names, that of the values.
#[verifier::external_body]
fn buffer_sort(buffer: &mut ContextBuffer<'_>)
    ensures
        pairs_ascending(buffered_pairs(*final(buffer))),
        buffered_pairs(*final(buffer)).to_multiset() == buffered_pairs(*old(buffer)).to_multiset(),
{
    buffer.inner.sort_unstable()
}

/// `TinyVec::as_slice`: all the pairs, in order.
#[verifier::external_body]
fn buffer_as_slice<'b, 'a>(buffer: &'b ContextBuffer<'a>) -> (r: &'b [(&'a str, &'a str)])
    ensures
        pairs_view(r@) == buffered_pairs(*buffer),
{
    buffer.inner.as_slice()
}

/// Whether `value` is the least of the values that stand beside `name`.
pub open spec fn is_least_value(
    pairs: Seq<(Seq<char>, Seq<char>)>,
    name: Seq<char>,
    value: Seq<char>,
) -> bool {
    &&& pairs.contains((name, value))
    &&& forall|j: int| 0 <= j < pairs.len() && (#[trigger] pairs[j]).0 == name ==> lex_le(value, pairs[j].1)
}

/// What pairs of name and value bind, in whatever order they stand: each
/// name to the value beside it, and to the least of its values where it
/// stands more than once.
pub open spec fn least_bindings(pairs: Seq<(Seq<char>, Seq<char>)>) -> Map<Seq<char>, Seq<char>> {
    Map::new(
        |k: Seq<char>| exists|i: int| 0 <= i < pairs.len() && (#[trigger] pairs[i]).0 == k,
        |k: Seq<char>| choose|v: Seq<char>| is_least_value(pairs, k, v),
    )
}

/// A name has one least value at most.
pub proof fn lemma_least_value_unique(
    pairs: Seq<(Seq<char>, Seq<char>)>,
    name: Seq<char>,
    v1: Seq<char>,
    v2: Seq<char>,
)
    requires
        is_least_value(pairs, name, v1),
        is_least_value(pairs, name, v2),
    ensures
        v1 == v2,
{
    let i = choose|i: int| 0 <= i < pairs.len() && pairs[i] == (name, v1);
    let j = choose|j: int| 0 <= j < pairs.len() && pairs[j] == (name, v2);
    assert(lex_le(v2, pairs[i].1));
    assert(lex_le(v1, pairs[j].1));
    lemma_lex_total(v1, v2);
}

/// Pairs in ascending order bind each name to the least of its values:
/// what a lookup finds in a sorted copy is what the pairs bind in any
/// order.
pub proof fn lemma_sorted_copy_bindings(
    sorted: Seq<(Seq<char>, Seq<char>)>,
    pairs: Seq<(Seq<char>, Seq<char>)>,
)
    requires
        sorted.to_multiset() == pairs.to_multiset(),
        pairs_ascending(sorted),
    ensures
        bindings_of(sorted) == least_bindings(pairs),
{
    broadcast use vstd::seq_lib::to_multiset_contains;

    let keys = keys_of(sorted);
    assert forall|k: Seq<char>| #[trigger]
        bindings_of(sorted).contains_key(k) implies least_bindings(pairs).dom().contains(k)
        && least_bindings(pairs)[k] == bindings_of(sorted)[k] by {
        lemma_first_index(keys, k);
        let first = first_index_of(keys, k)->0;
        let v = sorted[first].1;
        assert(sorted[first] == (k, v));
        assert(sorted.contains(sorted[first]));
        assert(pairs.to_multiset().count(sorted[first]) > 0);
        assert(pairs.contains((k, v)));
        let at = choose|at: int| 0 <= at < pairs.len() && pairs[at] == (k, v);
        assert(pairs[at].0 == k);
        assert forall|j: int| 0 <= j < pairs.len() && (#[trigger] pairs[j]).0 == k implies lex_le(
            v,
            pairs[j].1,
        ) by {
            assert(pairs.contains(pairs[j]));
            assert(sorted.to_multiset().count(pairs[j]) > 0);
            assert(sorted.contains(pairs[j]));
            let m = choose|m: int| 0 <= m < sorted.len() && sorted[m] == pairs[j];
            assert(keys[m] == k);
            lemma_lex_irreflexive(k);
            lemma_lex_irreflexive(v);
            if m > first {
                assert(pair_le(sorted[first], sorted[m]));
            }
        }
        assert(is_least_value(pairs, k, v));
        lemma_least_value_unique(pairs, k, v, choose|w: Seq<char>| is_least_value(pairs, k, w));
    }
    assert forall|k: Seq<char>| #[trigger]
        least_bindings(pairs).contains_key(k) implies bindings_of(sorted).dom().contains(k) by {
        let i = choose|i: int| 0 <= i < pairs.len() && (#[trigger] pairs[i]).0 == k;
        assert(pairs.contains(pairs[i]));
        assert(sorted.to_multiset().count(pairs[i]) > 0);
        assert(sorted.contains(pairs[i]));
        let m = choose|m: int| 0 <= m < sorted.len() && sorted[m] == pairs[i];
        assert(keys[m] == k);
        lemma_first_index_some(keys, k, m);
    }
    assert(bindings_of(sorted).dom() =~= least_bindings(pairs).dom());
    assert(bindings_of(sorted) =~= least_bindings(pairs));
}

/// Where no name stands twice, each name is bound to the value beside
/// it.
pub proof fn lemma_least_bindings_of_distinct(pairs: Seq<(Seq<char>, Seq<char>)>)
    requires
        keys_of(pairs).no_duplicates(),
    ensures
        least_bindings(pairs) == bindings_of(pairs),
        forall|i: int|
            0 <= i < pairs.len() ==> least_bindings(pairs).contains_key((#[trigger] pairs[i]).0)
                && least_bindings(pairs)[pairs[i].0] == pairs[i].1,
{
    let keys = keys_of(pairs);
    assert forall|i: int| 0 <= i < pairs.len() implies is_least_value(
        pairs,
        (#[trigger] pairs[i]).0,
        pairs[i].1,
    ) && first_index_of(keys, pairs[i].0) == Some(i) by {
        let k = pairs[i].0;
        assert(keys[i] == k);
        assert forall|j: int| 0 <= j < pairs.len() && (#[trigger] pairs[j]).0 == k implies j == i by {
            assert(keys[j] == k);
        }
        lemma_lex_irreflexive(pairs[i].1);
        assert(pairs.contains((k, pairs[i].1)));
        assert(crate::order::is_first_index(keys, k, i)) by {
            assert forall|j: int| 0 <= j < i implies keys[j] != k by {
                assert(pairs[j].0 == keys[j]);
            }
        }
        crate::order::lemma_first_index_is(keys, k, i);
    }
    assert forall|k: Seq<char>| #[trigger]
        least_bindings(pairs).contains_key(k) implies bindings_of(pairs).dom().contains(k)
        && bindings_of(pairs)[k] == least_bindings(pairs)[k] by {
        let i = choose|i: int| 0 <= i < pairs.len() && (#[trigger] pairs[i]).0 == k;
        lemma_least_value_unique(
            pairs,
            k,
            pairs[i].1,
            choose|w: Seq<char>| is_least_value(pairs, k, w),
        );
    }
    assert forall|k: Seq<char>| #[trigger]
        bindings_of(pairs).contains_key(k) implies least_bindings(pairs).dom().contains(k) by {
        lemma_first_index(keys, k);
        let i = first_index_of(keys, k)->0;
        assert(pairs[i].0 == k);
    }
    assert(bindings_of(pairs).dom() =~= least_bindings(pairs).dom());
    assert(least_bindings(pairs) =~= bindings_of(pairs));
    assert forall|i: int| 0 <= i < pairs.len() implies least_bindings(pairs).contains_key(
        (#[trigger] pairs[i]).0,
    ) && least_bindings(pairs)[pairs[i].0] == pairs[i].1 by {
        lemma_least_value_unique(
            pairs,
            pairs[i].0,
            pairs[i].1,
            choose|w: Seq<char>| is_least_value(pairs, pairs[i].0, w),
        );
    }
}

/// The same pairs in another order bind the same.
pub proof fn lemma_least_bindings_of_permutation(
    a: Seq<(Seq<char>, Seq<char>)>,
    b: Seq<(Seq<char>, Seq<char>)>,
)
    requires
        a.to_multiset() == b.to_multiset(),
    ensures
        least_bindings(a) == least_bindings(b),
{
    lemma_least_bindings_one_way(a, b);
    lemma_least_bindings_one_way(b, a);
    assert(least_bindings(a).dom() =~= least_bindings(b).dom());
    assert(least_bindings(a) =~= least_bindings(b));
}

proof fn lemma_least_bindings_one_way(a: Seq<(Seq<char>, Seq<char>)>, b: Seq<(Seq<char>, Seq<char>)>)
    requires
        a.to_multiset() == b.to_multiset(),
    ensures
        forall|k: Seq<char>| #[trigger]
            least_bindings(a).contains_key(k) ==> least_bindings(b).dom().contains(k)
                && least_bindings(b)[k] == least_bindings(a)[k],
{
    broadcast use vstd::seq_lib::to_multiset_contains;

    assert forall|k: Seq<char>| #[trigger]
        least_bindings(a).contains_key(k) implies least_bindings(b).dom().contains(k)
        && least_bindings(b)[k] == least_bindings(a)[k] by {
        let i = choose|i: int| 0 <= i < a.len() && (#[trigger] a[i]).0 == k;
        assert(a.contains(a[i]));
        assert(b.to_multiset().count(a[i]) > 0);
        assert(b.contains(a[i]));
        let m = choose|m: int| 0 <= m < b.len() && b[m] == a[i];
        assert(b[m].0 == k);
        lemma_least_value_exists(a, k, i);
        let v = choose|v: Seq<char>| is_least_value(a, k, v);
        assert(is_least_value(b, k, v)) by {
            assert(a.contains((k, v)));
            assert(b.to_multiset().count((k, v)) > 0);
            assert(b.contains((k, v)));
            assert forall|j: int| 0 <= j < b.len() && (#[trigger] b[j]).0 == k implies lex_le(
                v,
                b[j].1,
            ) by {
                assert(b.contains(b[j]));
                assert(a.to_multiset().count(b[j]) > 0);
                assert(a.contains(b[j]));
                let n = choose|n: int| 0 <= n < a.len() && a[n] == b[j];
                assert(a[n].0 == k);
            }
        }
        lemma_least_value_unique(b, k, v, choose|w: Seq<char>| is_least_value(b, k, w));
    }
}

/// A name that stands somewhere has a least value.
pub proof fn lemma_least_value_exists(pairs: Seq<(Seq<char>, Seq<char>)>, name: Seq<char>, i: int)
    requires
        0 <= i < pairs.len(),
        pairs[i].0 == name,
    ensures
        exists|v: Seq<char>| is_least_value(pairs, name, v),
    decreases pairs.len(),
{
    let last = pairs.last();
    let front = pairs.drop_last();
    if exists|j: int| 0 <= j < front.len() && front[j].0 == name {
        let j = choose|j: int| 0 <= j < front.len() && front[j].0 == name;
        lemma_least_value_exists(front, name, j);
        let v = choose|v: Seq<char>| is_least_value(front, name, v);
        let at = choose|at: int| 0 <= at < front.len() && front[at] == (name, v);
        assert(pairs[at] == (name, v));
        if last.0 == name && lex_lt(last.1, v) {
            assert(pairs[pairs.len() - 1] == (name, last.1));
            assert forall|m: int| 0 <= m < pairs.len() && (#[trigger] pairs[m]).0 == name implies lex_le(
                last.1,
                pairs[m].1,
            ) by {
                lemma_lex_irreflexive(last.1);
                if m < front.len() {
                    assert(front[m] == pairs[m]);
                    assert(lex_le(v, front[m].1));
                    if lex_lt(pairs[m].1, last.1) {
                        lemma_lex_transitive(pairs[m].1, last.1, v);
                    }
                }
            }
            assert(is_least_value(pairs, name, last.1));
        } else {
            assert forall|m: int| 0 <= m < pairs.len() && (#[trigger] pairs[m]).0 == name implies lex_le(
                v,
                pairs[m].1,
            ) by {
                if m < front.len() {
                    assert(front[m] == pairs[m]);
                }
            }
            assert(is_least_value(pairs, name, v));
        }
    } else {
        assert(i == pairs.len() - 1) by {
            if i < front.len() {
                assert(front[i].0 == name);
            }
        }
        assert(pairs[i] == (name, last.1));
        assert forall|m: int| 0 <= m < pairs.len() && (#[trigger] pairs[m]).0 == name implies lex_le(
            last.1,
            pairs[m].1,
        ) by {
            lemma_lex_irreflexive(last.1);
            if m < front.len() {
                assert(front[m].0 == name);
            }
        }
        assert(is_least_value(pairs, name, last.1));
    }
}

/// No pairs bind nothing.
pub proof fn lemma_least_bindings_of_none(pairs: Seq<(Seq<char>, Seq<char>)>)
    requires
        pairs.len() == 0,
    ensures
        least_bindings(pairs) == Map::<Seq<char>, Seq<char>>::empty(),
{
    assert(least_bindings(pairs) =~= Map::<Seq<char>, Seq<char>>::empty());
}

/// The order of the pairs of a context does not matter to an expansion.
pub proof fn lemma_context_order_irrelevant(
    ast: Map<Seq<char>, SpecTemplate>,
    key: Seq<char>,
    a: Seq<(Seq<char>, Seq<char>)>,
    b: Seq<(Seq<char>, Seq<char>)>,
    depth: nat,
)
    requires
        a.to_multiset() == b.to_multiset(),
    ensures
        expand_key(ast, key, least_bindings(a), depth) == expand_key(
            ast,
            key,
            least_bindings(b),
            depth,
        ),
{
    lemma_least_bindings_of_permutation(a, b);
}

/// A context without pairs is the empty context: an expansion with it is
/// the expansion without parameters.
pub proof fn lemma_empty_context(ast: Map<Seq<char>, SpecTemplate>, key: Seq<char>, depth: nat)
    ensures
        expand_key(ast, key, least_bindings(Seq::empty()), depth) == expand_key(
            ast,
            key,
            Map::empty(),
            depth,
        ),
{
    lemma_least_bindings_of_none(Seq::empty());
}

impl Resolver {
    /// Expands the entry under `var_name` with the parameters of
    /// `context`, which may stand in any order. A parameter that is named
    /// more than once has the least of its values.
    pub fn get_with_context(&self, var_name: &str, context: &[(&str, &str)]) -> (r: ResolverResult<
        MiniStr,
    >)
        ensures
            outcome_of(r) == expand_key(
                self@,
                var_name@,
                least_bindings(pairs_view(context@)),
                MAX_DEPTH as nat,
            ),
    {
        if context.len() == 0 {
            proof {
                lemma_least_bindings_of_none(pairs_view(context@));
            }
            return self.try_get_template_and_process(var_name, &Context::Empty, MAX_DEPTH);
        }
        let mut buffer = buffer_of(context);
        buffer_sort(&mut buffer);
        let sorted = buffer_as_slice(&buffer);
        proof {
            lemma_pairs_ascending_keys(pairs_view(sorted@));
            lemma_sorted_copy_bindings(pairs_view(sorted@), pairs_view(context@));
        }
        self.try_get_template_and_process(var_name, &Context::Slice(sorted), MAX_DEPTH)
    }

    /// Expands the entry under `var_name` with the parameters of an
    /// ordered map.
    pub fn get_with_ctx_btree_map(&self, var_name: &str, context_map: &BTreeRawMap) -> (r:
        ResolverResult<MiniStr>)
        ensures
            outcome_of(r) == expand_key(
                self@,
                var_name@,
                btree_bindings(*context_map),
                MAX_DEPTH as nat,
            ),
    {
        self.try_get_template_and_process(var_name, &Context::BTree(context_map), MAX_DEPTH)
    }

    /// Expands the entry under `var_name` without parameters.
    pub fn try_get(&self, var_name: &str) -> (r: ResolverResult<MiniStr>)
        ensures
            outcome_of(r) == expand_key(
                self@,
                var_name@,
                Map::<Seq<char>, Seq<char>>::empty(),
                MAX_DEPTH as nat,
            ),
    {
        self.try_get_template_and_process(var_name, &Context::Empty, MAX_DEPTH)
    }

    /// Expands the entry under `var_name` with the parameters of a hash
    /// map of borrowed names and values.
    pub fn get_with_ctx_map(&self, var_name: &str, context_map: &ContextMap<'_>) -> (r:
        ResolverResult<MiniStr>)
        ensures
            outcome_of(r) == expand_key(
                self@,
                var_name@,
                borrowed_bindings(*context_map),
                MAX_DEPTH as nat,
            ),
    {
        self.try_get_template_and_process(var_name, &Context::BorrowedMap(context_map), MAX_DEPTH)
    }

    /// Expands the entry under `var_name` with the parameters of a hash
    /// map that owns its names and values.
    pub fn get_with_ctx_map_buf(&self, var_name: &str, context_map: &ContextMapBuf) -> (r:
        ResolverResult<MiniStr>)
        ensures
            outcome_of(r) == expand_key(
                self@,
                var_name@,
                owned_bindings(*context_map),
                MAX_DEPTH as nat,
            ),
    {
        self.try_get_template_and_process(var_name, &Context::OwnedMap(context_map), MAX_DEPTH)
    }
}

} // verus!
