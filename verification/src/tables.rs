//! The state of the backing store as a mathematical value: the set of
//! registered projects and the map from (project, key) to what is stored
//! there, with the statements that read and change it.

use crate::models::{KeyInfoView, ProjectId};
use crate::pattern::{tokens_match, Token};
use crate::text::text_lt;
use vstd::prelude::*;

verus! {

/// A point in time, as the backing store counts it.
pub type Timestamp = u64;

/// What identifies an entry: its project and its key.
pub type EntryKey = (ProjectId, Seq<char>);

/// What the store holds for one entry.
pub struct Stored {
    pub mime_type: Seq<char>,
    pub content: Seq<u8>,
    pub updated_at: Timestamp,
}

/// Which keys a listing asks for.
pub enum KeyFilter {
    /// Every key.
    Every,
    /// The keys that the tokens of a pattern accept.
    Matching(Seq<Token>),
    /// The keys that start with a text, character for character.
    StartingWith(Seq<char>),
}

impl KeyFilter {
    /// Whether the filter lets `key` through.
    pub open spec fn accepts(self, key: Seq<char>) -> bool {
        match self {
            KeyFilter::Every => true,
            KeyFilter::Matching(tokens) => tokens_match(tokens, key),
            KeyFilter::StartingWith(prefix) => prefix.is_prefix_of(key),
        }
    }
}

/// The order in which the store keeps its entries: by project, then by key
/// in the code-point order.
pub open spec fn key_before(a: EntryKey, b: EntryKey) -> bool {
    a.0 < b.0 || (a.0 == b.0 && text_lt(a.1, b.1))
}

/// The two tables of the store. That `entries` is a map says that at most
/// one entry exists for a project and key.
pub struct Tables {
    pub projects: Set<ProjectId>,
    pub entries: Map<EntryKey, Stored>,
}

impl Tables {
    /// The store before anything was written.
    pub open spec fn empty() -> Tables {
        Tables { projects: Set::empty(), entries: Map::empty() }
    }

    /// What holds of the store at all times: the project of every entry is
    /// registered (referential integrity), and no entry has an empty key.
    pub open spec fn consistent(self) -> bool {
        forall|key: EntryKey| #[trigger]
            self.entries.contains_key(key) ==> self.projects.contains(key.0) && key.1.len() > 0
    }

    /// The smallest identifier that is not registered.
    pub open spec fn next_project(self) -> ProjectId {
        choose|id: ProjectId| self.is_least_unused(id)
    }

    /// What is stored under `key` in `project`, if anything.
    pub open spec fn entry(self, project: ProjectId, key: Seq<char>) -> Option<Stored> {
        if self.entries.contains_key((project, key)) {
            Some(self.entries[(project, key)])
        } else {
            None
        }
    }

    /// The store with `project` registered; nothing changes where it was
    /// registered already.
    pub open spec fn with_project(self, project: ProjectId) -> Tables {
        Tables { projects: self.projects.insert(project), entries: self.entries }
    }

    /// The store with `stored` under `key` in `project`, in place of whatever
    /// was there.
    pub open spec fn with_entry(self, project: ProjectId, key: Seq<char>, stored: Stored) -> Tables {
        Tables { projects: self.projects, entries: self.entries.insert((project, key), stored) }
    }

    /// The store with nothing under `key` in `project`.
    pub open spec fn without_entry(self, project: ProjectId, key: Seq<char>) -> Tables {
        Tables { projects: self.projects, entries: self.entries.remove((project, key)) }
    }

    /// Whether `id` is the smallest identifier that is not registered.
    pub open spec fn is_least_unused(self, id: ProjectId) -> bool {
        &&& !self.projects.contains(id)
        &&& forall|smaller: ProjectId| smaller < id ==> #[trigger] self.projects.contains(smaller)
    }

    /// Whether `out` is the listing of `project` under `filter`: the key and
    /// content type of each entry of the project whose key the filter lets
    /// through, and of no other, in ascending order of the keys.
    pub open spec fn is_listing(self, project: ProjectId, filter: KeyFilter, out: Seq<KeyInfoView>) -> bool {
        &&& forall|i: int, j: int|
            0 <= i < j < out.len() ==> text_lt(#[trigger] out[i].key, #[trigger] out[j].key)
        &&& forall|i: int|
            0 <= i < out.len() ==> {
                &&& filter.accepts((#[trigger] out[i]).key)
                &&& self.entries.contains_key((project, out[i].key))
                &&& self.entries[(project, out[i].key)].mime_type == out[i].mime_type
            }
        &&& forall|key: Seq<char>|
            #[trigger] self.entries.contains_key((project, key)) && filter.accepts(key) ==> exists|
                i: int,
            |
                0 <= i < out.len() && (#[trigger] out[i]).key == key
    }

    /// A listing under one filter is the listing under any filter that lets
    /// the same keys through.
    pub proof fn lemma_listing_under_equal_filters(
        self,
        project: ProjectId,
        a: KeyFilter,
        b: KeyFilter,
        out: Seq<KeyInfoView>,
    )
        requires
            forall|key: Seq<char>| #[trigger] a.accepts(key) == b.accepts(key),
            self.is_listing(project, a, out),
        ensures
            self.is_listing(project, b, out),
    {
        assert forall|i: int| 0 <= i < out.len() implies b.accepts((#[trigger] out[i]).key) by {
            assert(a.accepts(out[i].key));
        }
        assert forall|key: Seq<char>| #[trigger]
            self.entries.contains_key((project, key)) && b.accepts(key) implies exists|i: int|
            0 <= i < out.len() && (#[trigger] out[i]).key == key by {
            assert(a.accepts(key));
        }
    }
}

} // verus!
