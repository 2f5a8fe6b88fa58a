//! The order in which keys are compared: lexicographic by Unicode scalar value.

use vstd::prelude::*;

verus! {

/// `a` comes strictly before `b` when the two are compared character by
/// character, each character by its scalar value, a proper prefix first.
pub open spec fn lex_lt(a: Seq<char>, b: Seq<char>) -> bool
    decreases a.len(),
{
    if b.len() == 0 {
        false
    } else if a.len() == 0 {
        true
    } else if a[0] == b[0] {
        lex_lt(a.drop_first(), b.drop_first())
    } else {
        (a[0] as int) < (b[0] as int)
    }
}

/// `a` comes before `b` or equals it.
pub open spec fn lex_le(a: Seq<char>, b: Seq<char>) -> bool {
    !lex_lt(b, a)
}

/// Keys in ascending order, equal neighbours allowed.
pub open spec fn ascending(keys: Seq<Seq<char>>) -> bool {
    forall|i: int, j: int| 0 <= i < j < keys.len() ==> lex_le(#[trigger] keys[i], #[trigger] keys[j])
}

/// Strings that agree in their first `n` characters are ordered as what
/// follows those characters is.
pub proof fn lemma_lex_common_prefix(a: Seq<char>, b: Seq<char>, n: int)
    requires
        0 <= n <= a.len(),
        n <= b.len(),
        forall|j: int| 0 <= j < n ==> a[j] == b[j],
    ensures
        lex_lt(a, b) == lex_lt(a.skip(n), b.skip(n)),
    decreases n,
{
    if n == 0 {
        assert(a.skip(0) =~= a);
        assert(b.skip(0) =~= b);
    } else {
        let a1 = a.drop_first();
        let b1 = b.drop_first();
        assert(a[0] == b[0]);
        assert forall|j: int| 0 <= j < n - 1 implies a1[j] == b1[j] by {
            assert(a1[j] == a[j + 1] && b1[j] == b[j + 1]);
        }
        lemma_lex_common_prefix(a1, b1, n - 1);
        assert(a1.skip(n - 1) =~= a.skip(n));
        assert(b1.skip(n - 1) =~= b.skip(n));
    }
}

/// No string comes before itself.
pub proof fn lemma_lex_irreflexive(a: Seq<char>)
    ensures
        !lex_lt(a, a),
    decreases a.len(),
{
    if a.len() > 0 {
        lemma_lex_irreflexive(a.drop_first());
    }
}

/// Of two different strings one comes before the other.
pub proof fn lemma_lex_total(a: Seq<char>, b: Seq<char>)
    ensures
        lex_lt(a, b) || a == b || lex_lt(b, a),
    decreases a.len(),
{
    if a.len() == 0 || b.len() == 0 {
        if a.len() == 0 && b.len() == 0 {
            assert(a =~= b);
        }
    } else if a[0] == b[0] {
        lemma_lex_total(a.drop_first(), b.drop_first());
        if a.drop_first() == b.drop_first() {
            assert(a =~= seq![a[0]] + a.drop_first());
            assert(b =~= seq![b[0]] + b.drop_first());
        }
    }
}

/// What comes before a string comes before all that come after it.
pub proof fn lemma_lex_transitive(a: Seq<char>, b: Seq<char>, c: Seq<char>)
    requires
        lex_lt(a, b),
        lex_lt(b, c),
    ensures
        lex_lt(a, c),
    decreases a.len(),
{
    if a.len() > 0 && a[0] == b[0] && b[0] == c[0] {
        lemma_lex_transitive(a.drop_first(), b.drop_first(), c.drop_first());
    }
}

/// Of two strings at most one comes before the other.
pub proof fn lemma_lex_asymmetric(a: Seq<char>, b: Seq<char>)
    requires
        lex_lt(a, b),
    ensures
        !lex_lt(b, a),
        a != b,
{
    lemma_lex_irreflexive(a);
    if lex_lt(b, a) {
        lemma_lex_transitive(a, b, a);
    }
}

/// `a <= b < c` gives `a < c`.
pub proof fn lemma_lex_le_lt(a: Seq<char>, b: Seq<char>, c: Seq<char>)
    requires
        lex_le(a, b),
        lex_lt(b, c),
    ensures
        lex_lt(a, c),
{
    lemma_lex_total(a, b);
    if a != b {
        lemma_lex_transitive(a, b, c);
    }
}

/// Whether `i` is the first place at which `k` stands in `keys`.
pub open spec fn is_first_index(keys: Seq<Seq<char>>, k: Seq<char>, i: int) -> bool {
    &&& 0 <= i < keys.len()
    &&& keys[i] == k
    &&& forall|j: int| 0 <= j < i ==> keys[j] != k
}

/// The first place at which `k` stands in `keys`, if it stands there at
/// all.
pub open spec fn first_index_of(keys: Seq<Seq<char>>, k: Seq<char>) -> Option<int> {
    if exists|i: int| is_first_index(keys, k, i) {
        Some(choose|i: int| is_first_index(keys, k, i))
    } else {
        None
    }
}

/// The first place of a key is the one before which it stands nowhere.
pub proof fn lemma_first_index_is(keys: Seq<Seq<char>>, k: Seq<char>, i: int)
    requires
        is_first_index(keys, k, i),
    ensures
        first_index_of(keys, k) == Some(i),
{
    let c = choose|c: int| is_first_index(keys, k, c);
    if c < i {
        assert(keys[c] != k);
    }
    if i < c {
        assert(keys[i] != k);
    }
}

/// What is found as the first place of a key is such a place.
pub proof fn lemma_first_index(keys: Seq<Seq<char>>, k: Seq<char>)
    ensures
        first_index_of(keys, k) matches Some(i) ==> is_first_index(keys, k, i),
{
}

/// A key that stands nowhere has no first place.
pub proof fn lemma_first_index_none(keys: Seq<Seq<char>>, k: Seq<char>)
    requires
        forall|j: int| 0 <= j < keys.len() ==> keys[j] != k,
    ensures
        first_index_of(keys, k) is None,
{
}

/// A key that stands somewhere has a first place.
pub proof fn lemma_first_index_some(keys: Seq<Seq<char>>, k: Seq<char>, i: int)
    requires
        0 <= i < keys.len(),
        keys[i] == k,
    ensures
        first_index_of(keys, k) is Some,
        first_index_of(keys, k)->0 <= i,
    decreases i,
{
    if exists|j: int| 0 <= j < i && keys[j] == k {
        let j = choose|j: int| 0 <= j < i && keys[j] == k;
        lemma_first_index_some(keys, k, j);
    } else {
        assert(is_first_index(keys, k, i));
        lemma_first_index_is(keys, k, i);
    }
}

/// Bisection of ascending keys: below a key that comes before `k`, every
/// key comes before `k`.
pub proof fn lemma_bisect_low(keys: Seq<Seq<char>>, k: Seq<char>, mid: int)
    requires
        ascending(keys),
        0 <= mid < keys.len(),
        lex_lt(keys[mid], k),
    ensures
        forall|j: int| 0 <= j <= mid ==> lex_lt(#[trigger] keys[j], k),
{
    assert forall|j: int| 0 <= j <= mid implies lex_lt(#[trigger] keys[j], k) by {
        if j < mid {
            assert(lex_le(keys[j], keys[mid]));
            lemma_lex_le_lt(keys[j], keys[mid], k);
        }
    }
}

/// Bisection of ascending keys: above a key that does not come before
/// `k`, no key comes before `k`.
pub proof fn lemma_bisect_high(keys: Seq<Seq<char>>, k: Seq<char>, mid: int)
    requires
        ascending(keys),
        0 <= mid < keys.len(),
        !lex_lt(keys[mid], k),
    ensures
        forall|j: int| mid <= j < keys.len() ==> !lex_lt(#[trigger] keys[j], k),
{
    assert forall|j: int| mid <= j < keys.len() implies !lex_lt(#[trigger] keys[j], k) by {
        if mid < j && lex_lt(keys[j], k) {
            assert(lex_le(keys[mid], keys[j]));
            lemma_lex_le_lt(keys[mid], keys[j], k);
        }
    }
}

/// Whether `lo` parts `keys` into those that come before `k` and those
/// that do not.
pub open spec fn is_lower_bound(keys: Seq<Seq<char>>, k: Seq<char>, lo: int) -> bool {
    &&& 0 <= lo <= keys.len()
    &&& forall|j: int| 0 <= j < lo ==> lex_lt(#[trigger] keys[j], k)
    &&& forall|j: int| lo <= j < keys.len() ==> !lex_lt(#[trigger] keys[j], k)
}

/// Where the keys that do not come before `k` begin, `k` stands first if
/// it stands there, and nowhere in ascending keys if it does not.
pub proof fn lemma_lower_bound(keys: Seq<Seq<char>>, k: Seq<char>, lo: int)
    requires
        ascending(keys),
        is_lower_bound(keys, k, lo),
    ensures
        lo < keys.len() && keys[lo] == k ==> first_index_of(keys, k) == Some(lo),
        !(lo < keys.len() && keys[lo] == k) ==> first_index_of(keys, k) is None,
        !(lo < keys.len() && keys[lo] == k) ==> forall|j: int|
            lo <= j < keys.len() ==> lex_lt(k, #[trigger] keys[j]),
{
    lemma_lex_irreflexive(k);
    if lo < keys.len() && keys[lo] == k {
        assert(is_first_index(keys, k, lo)) by {
            assert forall|j: int| 0 <= j < lo implies keys[j] != k by {
                assert(lex_lt(keys[j], k));
            }
        }
        lemma_first_index_is(keys, k, lo);
    } else {
        assert forall|j: int| lo <= j < keys.len() implies lex_lt(k, #[trigger] keys[j]) by {
            assert(!lex_lt(keys[j], k));
            lemma_lex_total(keys[j], k);
            if keys[j] == k {
                assert(lex_le(keys[lo], keys[j]));
                assert(!lex_lt(keys[lo], k));
                lemma_lex_total(keys[lo], k);
            }
        }
        assert forall|j: int| 0 <= j < keys.len() implies keys[j] != k by {
            if j < lo {
                assert(lex_lt(keys[j], k));
            } else {
                assert(lex_lt(k, keys[j]));
            }
        }
        lemma_first_index_none(keys, k);
    }
}

/// The order of pairs: by their first components, and by their second
/// where the first are equal.
pub open spec fn pair_le(a: (Seq<char>, Seq<char>), b: (Seq<char>, Seq<char>)) -> bool {
    lex_lt(a.0, b.0) || (a.0 == b.0 && lex_le(a.1, b.1))
}

/// Pairs in ascending order.
pub open spec fn pairs_ascending(pairs: Seq<(Seq<char>, Seq<char>)>) -> bool {
    forall|i: int, j: int| 0 <= i < j < pairs.len() ==> pair_le(#[trigger] pairs[i], #[trigger] pairs[j])
}

/// Pairs in ascending order have their first components in ascending
/// order.
pub proof fn lemma_pairs_ascending_keys(pairs: Seq<(Seq<char>, Seq<char>)>)
    requires
        pairs_ascending(pairs),
    ensures
        ascending(pairs.map_values(|p: (Seq<char>, Seq<char>)| p.0)),
{
    let keys = pairs.map_values(|p: (Seq<char>, Seq<char>)| p.0);
    assert forall|i: int, j: int| 0 <= i < j < keys.len() implies lex_le(
        #[trigger] keys[i],
        #[trigger] keys[j],
    ) by {
        assert(pair_le(pairs[i], pairs[j]));
        if lex_lt(pairs[i].0, pairs[j].0) {
            lemma_lex_asymmetric(pairs[i].0, pairs[j].0);
        } else {
            lemma_lex_irreflexive(pairs[i].0);
        }
    }
}

} // verus!
