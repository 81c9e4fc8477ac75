//! Parsed streams, keyed by name, invalidated when the file changes on disk.

use vstd::hash_map::StringHashMap;
use vstd::prelude::*;

verus! {

/// Cheap identity of a file: size plus modification time, in nanoseconds from the
/// epoch of the system clock.
#[derive(Clone, Copy)]
pub struct Revision {
    pub len: u64,
    pub modified: Option<i128>,
}

impl Revision {
    /// Whether the two identify the same file content.
    pub fn same(&self, other: &Revision) -> (r: bool)
        ensures
            r == (*self == *other),
    {
        self.len == other.len && match (self.modified, other.modified) {
            (Some(a), Some(b)) => a == b,
            (None, None) => true,
            _ => false,
        }
    }
}

/// What was built from a file, by stream name, with the revision it was built from.
#[verifier::reject_recursive_types(T)]
pub struct Cache<T> {
    entries: StringHashMap<(Revision, T)>,
}

impl<T> View for Cache<T> {
    type V = Map<Seq<char>, (Revision, T)>;

    closed spec fn view(&self) -> Map<Seq<char>, (Revision, T)> {
        self.entries@
    }
}

/// What is cached for `name`, if it was built from `revision`.
pub open spec fn cached<T>(
    entries: Map<Seq<char>, (Revision, T)>,
    name: Seq<char>,
    revision: Revision,
) -> Option<T> {
    if entries.contains_key(name) && entries[name].0 == revision {
        Some(entries[name].1)
    } else {
        None
    }
}

impl<T> Cache<T> {
    pub fn new() -> (r: Cache<T>)
        ensures
            r@ == Map::<Seq<char>, (Revision, T)>::empty(),
    {
        Cache { entries: StringHashMap::new() }
    }

    /// Returns what is cached for `name`, unless the file has changed since.
    pub fn get(&self, name: &str, revision: &Revision) -> (r: Option<&T>)
        ensures
            match r {
                Some(value) => cached(self@, name@, *revision) == Some(*value),
                None => cached(self@, name@, *revision) is None,
            },
    {
        match self.entries.get(name) {
            Some(entry) => if entry.0.same(revision) {
                Some(&entry.1)
            } else {
                None
            },
            None => None,
        }
    }

    /// Caches `value` for `name`, in place of what was there.
    pub fn insert(&mut self, name: String, revision: Revision, value: T)
        ensures
            final(self)@ == old(self)@.insert(name@, (revision, value)),
    {
        self.entries.insert(name, (revision, value));
    }
}

/// What was cached last for a name is found again under the revision that it was built
/// from, and under no other; other names keep what they have.
pub proof fn law_cache_follows_the_file<T>(
    entries: Map<Seq<char>, (Revision, T)>,
    name: Seq<char>,
    revision: Revision,
    value: T,
    other_name: Seq<char>,
    other_revision: Revision,
)
    ensures
        ({
            let after = entries.insert(name, (revision, value));
            &&& cached(after, name, revision) == Some(value)
            &&& other_revision != revision ==> cached(after, name, other_revision) is None
            &&& other_name != name ==> cached(after, other_name, other_revision) == cached(
                entries,
                other_name,
                other_revision,
            )
        }),
{
}

} // verus!
