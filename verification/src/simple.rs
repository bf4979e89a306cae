//! Code-to-label lookup tables.
//!
//! A lookup table maps short codes (`key`) to human-readable labels
//! (`title`). The enrichment join resolves each coded field of a fact row
//! against one of these tables; the resolution takes the first entry with a
//! matching key, and key uniqueness is an invariant assumed of the source
//! data, not enforced here.

use vstd::prelude::*;

use crate::decode::str_eq;

verus! {

/// One fetched lookup table: the metadata URL of the response and its
/// entries.
pub struct Simple {
    pub metadata_url: String,
    pub data: Vec<Value>,
}

/// One lookup entry: a code, its label, and an optional description.
#[derive(Debug)]
pub struct Value {
    pub key: String,
    pub title: String,
    pub description: Option<String>,
}

impl Clone for Value {
    fn clone(&self) -> (r: Self)
        ensures
            r == *self,
    {
        Value {
            key: self.key.clone(),
            title: self.title.clone(),
            description: match &self.description {
                Some(d) => Some(d.clone()),
                None => None,
            },
        }
    }
}

/// The first entry of `entries` whose key reads `key`, if any.
pub open spec fn first_with_key(entries: Seq<Value>, key: Seq<char>) -> Option<Value>
    decreases entries.len(),
{
    if entries.len() == 0 {
        None
    } else if entries[0].key@ == key {
        Some(entries[0])
    } else {
        first_with_key(entries.skip(1), key)
    }
}

/// The lookup misses exactly when no entry carries the key.
pub proof fn lemma_first_with_key_none(entries: Seq<Value>, key: Seq<char>)
    ensures
        (first_with_key(entries, key) is None) <==> (forall|i: int|
            0 <= i < entries.len() ==> (#[trigger] entries[i]).key@ != key),
    decreases entries.len(),
{
    if entries.len() == 0 {
    } else if entries[0].key@ == key {
    } else {
        lemma_first_with_key_none(entries.skip(1), key);
        assert(forall|i: int|
            0 <= i < entries.skip(1).len() ==> #[trigger] entries.skip(1)[i] == entries[i + 1]);
        if first_with_key(entries, key) is None {
            assert forall|i: int| 0 <= i < entries.len() implies (#[trigger] entries[i]).key@
                != key by {
                if i >= 1 {
                    assert(entries.skip(1)[i - 1] == entries[i]);
                }
            }
        }
    }
}

/// Find the first entry with the requested key by a linear scan.
pub fn find_entry<'a>(data: &'a Vec<Value>, key: &str) -> (r: Option<&'a Value>)
    ensures
        match r {
            Some(e) => first_with_key(data@, key@) == Some(*e),
            None => first_with_key(data@, key@) is None,
        },
{
    let mut i: usize = 0;
    proof {
        assert(data@.skip(0int) =~= data@);
    }
    while i < data.len()
        invariant
            0 <= i <= data@.len(),
            first_with_key(data@, key@) == first_with_key(data@.skip(i as int), key@),
        decreases data@.len() - i,
    {
        let e = &data[i];
        proof {
            assert(data@.skip(i as int)[0] == data@[i as int]);
        }
        if str_eq(e.key.as_str(), key) {
            return Some(e);
        }
        proof {
            assert(data@.skip(i as int).skip(1) =~= data@.skip(i + 1));
        }
        i = i + 1;
    }
    proof {
        assert(data@.skip(i as int).len() == 0);
    }
    None
}

} // verus!
