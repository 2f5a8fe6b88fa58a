//! Making a resolver from pairs of key and source.

use kstring::KString;
use vstd::prelude::*;

use crate::error::{ResolverResult, SpecError};
use crate::parsers::context::pairs_view;
use crate::parsers::{failed_entry_text, parse_value_or_map_err, value_of};
use crate::resolver::Resolver;
use crate::strings::{key_of, key_text, text_of, MiniStr};
use crate::template::SpecTemplate;

verus! {

/// What pairs of key and source compile to: each source is compiled under
/// its key, a later pair in place of an earlier one with the same key. The
/// first source that is no template is the failure, with a message that
/// names its key.
pub open spec fn compiled(raw: Seq<(Seq<char>, Seq<char>)>) -> Result<
    Map<Seq<char>, SpecTemplate>,
    SpecError,
>
    decreases raw.len(),
{
    if raw.len() == 0 {
        Ok(Map::empty())
    } else {
        match compiled(raw.drop_last()) {
            Err(e) => Err(e),
            Ok(entries) => match value_of(raw.last().1) {
                Err(f) => Err(SpecError::ParseError(failed_entry_text(raw.last().0, f))),
                Ok(template) => Ok(entries.insert(raw.last().0, template)),
            },
        }
    }
}

/// Owned pairs as pairs of texts.
pub open spec fn entries_view(entries: Seq<(MiniStr, MiniStr)>) -> Seq<(Seq<char>, Seq<char>)> {
    entries.map_values(|e: (MiniStr, MiniStr)| (text_of(e.0), text_of(e.1)))
}

/// Whether `r` is what the pairs `raw` compile to.
pub open spec fn is_compiled(r: ResolverResult<Resolver>, raw: Seq<(Seq<char>, Seq<char>)>) -> bool {
    match compiled(raw) {
        Ok(entries) => r matches Ok(resolver) && resolver@ == entries,
        Err(e) => r matches Err(found) && found@ == e,
    }
}

/// The failure of a pair is the failure of every list that goes on after
/// it.
pub proof fn lemma_compiled_failure(raw: Seq<(Seq<char>, Seq<char>)>, n: int)
    requires
        0 <= n <= raw.len(),
        compiled(raw.take(n)) is Err,
    ensures
        compiled(raw) == compiled(raw.take(n)),
    decreases raw.len(),
{
    if n == raw.len() {
        assert(raw.take(n) =~= raw);
    } else {
        assert(raw.drop_last().take(n) =~= raw.take(n));
        lemma_compiled_failure(raw.drop_last(), n);
    }
}

/// The key under which an entry is kept.
pub fn convert_map_key(key: &str) -> (r: KString)
    ensures
        key_text(r) == key@,
{
    key_of(key)
}

impl Resolver {
    /// Compiles pairs of key and source.
    pub fn try_from_slice(raw: &[(&str, &str)]) -> (r: ResolverResult<Self>)
        ensures
            is_compiled(r, pairs_view(raw@)),
    {
        let ghost pairs = pairs_view(raw@);
        let mut resolver = Resolver::new();
        let mut i: usize = 0;
        assert(pairs.take(0) =~= Seq::empty());
        while i < raw.len()
            invariant
                i <= raw.len(),
                pairs == pairs_view(raw@),
                compiled(pairs.take(i as int)) == Ok::<Map<Seq<char>, SpecTemplate>, SpecError>(
                    resolver@,
                ),
            decreases raw.len() - i,
        {
            let (key, value) = raw[i];
            proof {
                let next = pairs.take(i + 1);
                assert(next.drop_last() =~= pairs.take(i as int));
                assert(next.last() == (key@, value@));
            }
            match parse_value_or_map_err(key, value) {
                Err(e) => {
                    proof {
                        lemma_compiled_failure(pairs, i + 1);
                    }
                    return Err(e);
                },
                Ok(template) => {
                    resolver = resolver.with_entry(convert_map_key(key), template);
                },
            }
            i = i + 1;
        }
        assert(pairs.take(i as int) =~= pairs);
        Ok(resolver)
    }

    /// Compiles entries of key and source, such as those of an ordered
    /// map in its order.
    pub fn try_from_str_entries(entries: &[(MiniStr, MiniStr)]) -> (r: ResolverResult<Self>)
        ensures
            is_compiled(r, entries_view(entries@)),
    {
        let mut raw: Vec<(&str, &str)> = Vec::new();
        let mut i: usize = 0;
        while i < entries.len()
            invariant
                i <= entries.len(),
                raw@.len() == i,
                pairs_view(raw@) == entries_view(entries@).take(i as int),
            decreases entries.len() - i,
        {
            let key = entries[i].0.as_str();
            let source = entries[i].1.as_str();
            let ghost before = raw@;
            raw.push((key, source));
            i = i + 1;
            proof {
                let want = entries_view(entries@).take(i as int);
                assert forall|j: int| 0 <= j < want.len() implies pairs_view(raw@)[j] == want[j] by {
                    if j < i - 1 {
                        assert(pairs_view(before)[j] == entries_view(entries@).take(i - 1)[j]);
                    }
                }
                assert(pairs_view(raw@) =~= want);
            }
        }
        assert(entries_view(entries@).take(i as int) =~= entries_view(entries@));
        Self::try_from_slice(raw.as_slice())
    }
}

} // verus!
