//! Making a resolver from entries whose keys are `KString`s.

use kstring::KString;
use vstd::prelude::*;

use crate::error::ResolverResult;
use crate::parsers::context::pairs_view;
use crate::resolver::from_slice::is_compiled;
use crate::resolver::Resolver;
use crate::strings::{key_as_str, key_text, text_of, MiniStr};

verus! {

/// Entries with `KString` keys as pairs of texts.
pub open spec fn raw_view(raw: Seq<(KString, MiniStr)>) -> Seq<(Seq<char>, Seq<char>)> {
    raw.map_values(|e: (KString, MiniStr)| (key_text(e.0), text_of(e.1)))
}

impl Resolver {
    /// Compiles entries of key and source, as [`Resolver::try_from_slice`]
    /// does.
    pub fn try_from_raw(raw: Vec<(KString, MiniStr)>) -> (r: ResolverResult<Self>)
        ensures
            is_compiled(r, raw_view(raw@)),
    {
        let mut pairs: Vec<(&str, &str)> = Vec::new();
        let mut i: usize = 0;
        while i < raw.len()
            invariant
                i <= raw.len(),
                pairs@.len() == i,
                pairs_view(pairs@) == raw_view(raw@).take(i as int),
            decreases raw.len() - i,
        {
            let key = key_as_str(&raw[i].0);
            let source = raw[i].1.as_str();
            let ghost before = pairs@;
            pairs.push((key, source));
            i = i + 1;
            proof {
                let want = raw_view(raw@).take(i as int);
                assert forall|j: int| 0 <= j < want.len() implies pairs_view(pairs@)[j] == want[j] by {
                    if j < i - 1 {
                        assert(pairs_view(before)[j] == raw_view(raw@).take(i - 1)[j]);
                    }
                }
                assert(pairs_view(pairs@) =~= want);
            }
        }
        assert(raw_view(raw@).take(i as int) =~= raw_view(raw@));
        Self::try_from_slice(pairs.as_slice())
    }
}

} // verus!
