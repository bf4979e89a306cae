//! The resource index of a dataset.
//!
//! A dataset's root URL answers with a directory of named sub-resources.
//! Resolving a logical name (such as `TypedDataSet`) yields the URL of the
//! first entry carrying that name; a name with no entry is a hard failure.
//! No ordering of the entries is assumed.

use vstd::prelude::*;

use crate::decode::str_eq;
use crate::error::PipelineError;

verus! {

/// One fetched resource index: the metadata URL of the response and its
/// named entries.
pub struct Urls {
    pub metadata_url: String,
    pub data: Vec<Value>,
}

/// One index entry: a logical resource name and its fetch URL.
pub struct Value {
    pub name: String,
    pub url: String,
}

/// The first entry of `entries` whose name reads `name`, if any.
pub open spec fn first_with_name(entries: Seq<Value>, name: Seq<char>) -> Option<Value>
    decreases entries.len(),
{
    if entries.len() == 0 {
        None
    } else if entries[0].name@ == name {
        Some(entries[0])
    } else {
        first_with_name(entries.skip(1), name)
    }
}

/// The resolution misses exactly when no entry carries the name.
pub proof fn lemma_first_with_name_none(entries: Seq<Value>, name: Seq<char>)
    ensures
        (first_with_name(entries, name) is None) <==> (forall|i: int|
            0 <= i < entries.len() ==> (#[trigger] entries[i]).name@ != name),
    decreases entries.len(),
{
    if entries.len() == 0 {
    } else if entries[0].name@ == name {
    } else {
        lemma_first_with_name_none(entries.skip(1), name);
        assert(forall|i: int|
            0 <= i < entries.skip(1).len() ==> #[trigger] entries.skip(1)[i] == entries[i + 1]);
        if first_with_name(entries, name) is None {
            assert forall|i: int| 0 <= i < entries.len() implies (#[trigger] entries[i]).name@
                != name by {
                if i >= 1 {
                    assert(entries.skip(1)[i - 1] == entries[i]);
                }
            }
        }
    }
}

impl Urls {
    /// Resolve a logical resource name to its fetch URL: the `url` of the
    /// first entry whose `name` equals the requested name, or `NotFound`
    /// carrying the name where no entry matches.
    pub fn resolve_url(&self, name: &str) -> (r: Result<String, PipelineError>)
        ensures
            match r {
                Ok(u) => first_with_name(self.data@, name@) matches Some(e) && u@ == e.url@,
                Err(err) => {
                    &&& first_with_name(self.data@, name@) is None
                    &&& err matches PipelineError::NotFound(n) && n@ == name@
                },
            },
    {
        let mut i: usize = 0;
        proof {
            assert(self.data@.skip(0int) =~= self.data@);
        }
        while i < self.data.len()
            invariant
                0 <= i <= self.data@.len(),
                first_with_name(self.data@, name@) == first_with_name(
                    self.data@.skip(i as int),
                    name@,
                ),
            decreases self.data@.len() - i,
        {
            let e = &self.data[i];
            proof {
                assert(self.data@.skip(i as int)[0] == self.data@[i as int]);
            }
            if str_eq(e.name.as_str(), name) {
                return Ok(e.url.clone());
            }
            proof {
                assert(self.data@.skip(i as int).skip(1) =~= self.data@.skip(i + 1));
            }
            i = i + 1;
        }
        proof {
            assert(self.data@.skip(i as int).len() == 0);
        }
        Err(PipelineError::NotFound(name.to_owned()))
    }
}

} // verus!
