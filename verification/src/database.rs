//! The backing store, held in memory: the two tables, their constraints, and
//! the statements that the entry operations issue against them.
//!
//! Keys and contents are as long as memory allows: the store sets no limit
//! of its own.

use crate::models::{Entry, EntryView, KeyInfo, KeyInfoView, ProjectId};
use crate::pattern::{parse_pattern, tokens_accept, tokens_of, Token};
use crate::tables::{key_before, EntryKey, KeyFilter, Stored, Tables, Timestamp};
use crate::text::{
    chars_of, compare_text, lemma_text_lt_irreflexive, lemma_text_lt_transitive, text_lt, text_of,
    Order,
};
use vstd::map::*;
use vstd::prelude::*;

verus! {

/// Why the store rejected a statement.
#[derive(Clone, Copy, Debug, PartialEq, Eq, Structural)]
pub enum DbError {
    /// An entry was written under a project that is not registered.
    ForeignKeyViolation,
    /// A match pattern ended in a lone escape character.
    MalformedPattern,
}

impl DbError {
    /// The store's account of the rejection.
    pub open spec fn reason(self) -> Seq<char> {
        match self {
            DbError::ForeignKeyViolation => "entry refers to a project that is not registered"@,
            DbError::MalformedPattern => "LIKE pattern must not end with escape character"@,
        }
    }

    /// The store's account of the rejection.
    pub fn message(&self) -> (text: String)
        ensures
            text@ == self.reason(),
    {
        match self {
            DbError::ForeignKeyViolation => {
                "entry refers to a project that is not registered".to_owned()
            },
            DbError::MalformedPattern => "LIKE pattern must not end with escape character".to_owned(),
        }
    }
}

/// One row of the entries table.
struct Row {
    project: ProjectId,
    key: Vec<char>,
    mime_type: String,
    content: Vec<u8>,
    updated_at: Timestamp,
}

impl Row {
    spec fn key_of(self) -> EntryKey {
        (self.project, self.key@)
    }

    spec fn stored(self) -> Stored {
        Stored { mime_type: self.mime_type@, content: self.content@, updated_at: self.updated_at }
    }
}

/// The backing store: the projects table and the entries table.
pub struct Database {
    /// The registered identifiers, in ascending order.
    projects: Vec<ProjectId>,
    /// The entries, in ascending order of project and key.
    rows: Vec<Row>,
}

spec fn sorted_ids(ids: Seq<ProjectId>) -> bool {
    forall|i: int, j: int| 0 <= i < j < ids.len() ==> ids[i] < ids[j]
}

spec fn sorted_rows(rows: Seq<Row>) -> bool {
    forall|i: int, j: int|
        0 <= i < j < rows.len() ==> key_before(#[trigger] rows[i].key_of(), #[trigger] rows[j].key_of())
}

spec fn has_key(rows: Seq<Row>, key: EntryKey) -> bool {
    exists|i: int| 0 <= i < rows.len() && #[trigger] rows[i].key_of() == key
}

spec fn index_of(rows: Seq<Row>, key: EntryKey) -> int {
    choose|i: int| 0 <= i < rows.len() && #[trigger] rows[i].key_of() == key
}

spec fn entries_of(rows: Seq<Row>) -> Map<EntryKey, Stored> {
    Map::new(|key: EntryKey| has_key(rows, key), |key: EntryKey| rows[index_of(rows, key)].stored())
}

spec fn filter_of(tokens: Option<&Vec<Token>>) -> KeyFilter {
    match tokens {
        Some(tokens) => KeyFilter::Matching(tokens@),
        None => KeyFilter::Every,
    }
}

proof fn lemma_key_before_irreflexive(a: EntryKey)
    ensures
        !key_before(a, a),
{
    lemma_text_lt_irreflexive(a.1);
}

proof fn lemma_key_before_transitive(a: EntryKey, b: EntryKey, c: EntryKey)
    requires
        key_before(a, b),
        key_before(b, c),
    ensures
        key_before(a, c),
{
    if a.0 == b.0 && b.0 == c.0 {
        lemma_text_lt_transitive(a.1, b.1, c.1);
    }
}

/// In sorted rows a key stands in one row only, so the map holds for it what
/// that row holds.
proof fn lemma_entries_at(rows: Seq<Row>, i: int)
    requires
        sorted_rows(rows),
        0 <= i < rows.len(),
    ensures
        entries_of(rows).contains_key(rows[i].key_of()),
        entries_of(rows)[rows[i].key_of()] == rows[i].stored(),
{
    let key = rows[i].key_of();
    assert(has_key(rows, key));
    let j = index_of(rows, key);
    lemma_key_before_irreflexive(key);
    if j < i {
        assert(key_before(rows[j].key_of(), rows[i].key_of()));
    } else if i < j {
        assert(key_before(rows[i].key_of(), rows[j].key_of()));
    }
}

/// A new row put at its place keeps the rows sorted and adds its entry to
/// the map.
proof fn lemma_insert_row(rows: Seq<Row>, at: int, row: Row)
    requires
        sorted_rows(rows),
        0 <= at <= rows.len(),
        forall|i: int| 0 <= i < at ==> key_before(#[trigger] rows[i].key_of(), row.key_of()),
        forall|i: int| at <= i < rows.len() ==> key_before(row.key_of(), #[trigger] rows[i].key_of()),
    ensures
        sorted_rows(rows.insert(at, row)),
        entries_of(rows.insert(at, row)) == entries_of(rows).insert(row.key_of(), row.stored()),
{
    let after = rows.insert(at, row);
    assert forall|i: int, j: int| 0 <= i < j < after.len() implies key_before(
        #[trigger] after[i].key_of(),
        #[trigger] after[j].key_of(),
    ) by {
        let a = if i < at { i } else { i - 1 };
        let b = if j < at { j } else { j - 1 };
        if i != at && j != at {
            assert(after[i] == rows[a]);
            assert(after[j] == rows[b]);
            assert(key_before(rows[a].key_of(), rows[b].key_of()));
        } else if i == at {
            assert(after[j] == rows[b]);
        } else {
            assert(after[i] == rows[a]);
        }
    }
    let left = entries_of(after);
    let right = entries_of(rows).insert(row.key_of(), row.stored());
    assert_maps_equal!(left, right, key => {
        if has_key(after, key) {
            let i = index_of(after, key);
            lemma_entries_at(after, i);
            if i != at {
                let a = if i < at { i } else { i - 1 };
                assert(after[i] == rows[a]);
                lemma_entries_at(rows, a);
                lemma_key_before_irreflexive(key);
            }
        }
        if key == row.key_of() {
            assert(after[at] == row);
            lemma_entries_at(after, at);
        } else if has_key(rows, key) {
            let a = index_of(rows, key);
            let i = if a < at { a } else { a + 1 };
            assert(after[i] == rows[a]);
            lemma_entries_at(after, i);
            lemma_entries_at(rows, a);
        }
    });
}

/// A row put in place of one with the same key keeps the rows sorted and
/// replaces its entry in the map.
proof fn lemma_replace_row(rows: Seq<Row>, at: int, row: Row)
    requires
        sorted_rows(rows),
        0 <= at < rows.len(),
        row.key_of() == rows[at].key_of(),
    ensures
        sorted_rows(rows.update(at, row)),
        entries_of(rows.update(at, row)) == entries_of(rows).insert(row.key_of(), row.stored()),
{
    let after = rows.update(at, row);
    assert forall|i: int, j: int| 0 <= i < j < after.len() implies key_before(
        #[trigger] after[i].key_of(),
        #[trigger] after[j].key_of(),
    ) by {
        assert(after[i].key_of() == rows[i].key_of());
        assert(after[j].key_of() == rows[j].key_of());
    }
    let left = entries_of(after);
    let right = entries_of(rows).insert(row.key_of(), row.stored());
    assert_maps_equal!(left, right, key => {
        if has_key(after, key) {
            let i = index_of(after, key);
            lemma_entries_at(after, i);
            assert(rows[i].key_of() == key);
            lemma_entries_at(rows, i);
        }
        if key == row.key_of() {
            lemma_entries_at(after, at);
        } else if has_key(rows, key) {
            let i = index_of(rows, key);
            assert(after[i] == rows[i]);
            lemma_entries_at(after, i);
            lemma_entries_at(rows, i);
        }
    });
}

/// Taking a row out keeps the rows sorted and takes its entry out of the map.
proof fn lemma_remove_row(rows: Seq<Row>, at: int)
    requires
        sorted_rows(rows),
        0 <= at < rows.len(),
    ensures
        sorted_rows(rows.remove(at)),
        entries_of(rows.remove(at)) == entries_of(rows).remove(rows[at].key_of()),
{
    let after = rows.remove(at);
    let gone = rows[at].key_of();
    assert forall|i: int, j: int| 0 <= i < j < after.len() implies key_before(
        #[trigger] after[i].key_of(),
        #[trigger] after[j].key_of(),
    ) by {
        let a = if i < at { i } else { i + 1 };
        let b = if j < at { j } else { j + 1 };
        assert(after[i] == rows[a]);
        assert(after[j] == rows[b]);
        assert(key_before(rows[a].key_of(), rows[b].key_of()));
    }
    let left = entries_of(after);
    let right = entries_of(rows).remove(gone);
    assert_maps_equal!(left, right, key => {
        lemma_key_before_irreflexive(gone);
        if has_key(after, key) {
            let i = index_of(after, key);
            let a = if i < at { i } else { i + 1 };
            assert(after[i] == rows[a]);
            lemma_entries_at(after, i);
            lemma_entries_at(rows, a);
            if a < at {
                assert(key_before(rows[a].key_of(), rows[at].key_of()));
            } else {
                assert(key_before(rows[at].key_of(), rows[a].key_of()));
            }
        }
        if key != gone && has_key(rows, key) {
            let a = index_of(rows, key);
            let i = if a < at { a } else { a - 1 };
            assert(after[i] == rows[a]);
            lemma_entries_at(after, i);
            lemma_entries_at(rows, a);
        }
    });
}

/// An identifier put at its place keeps the identifiers sorted and joins
/// their set.
proof fn lemma_insert_id(ids: Seq<ProjectId>, at: int, id: ProjectId)
    requires
        sorted_ids(ids),
        0 <= at <= ids.len(),
        forall|i: int| 0 <= i < at ==> ids[i] < id,
        forall|i: int| at <= i < ids.len() ==> id < ids[i],
    ensures
        sorted_ids(ids.insert(at, id)),
        ids.insert(at, id).to_set() == ids.to_set().insert(id),
{
    let after = ids.insert(at, id);
    assert forall|i: int, j: int| 0 <= i < j < after.len() implies after[i] < after[j] by {
        let a = if i < at { i } else { i - 1 };
        let b = if j < at { j } else { j - 1 };
        if i != at {
            assert(after[i] == ids[a]);
        }
        if j != at {
            assert(after[j] == ids[b]);
        }
    }
    assert forall|x: ProjectId| after.to_set().contains(x) == ids.to_set().insert(id).contains(
        x,
    ) by {
        if after.contains(x) {
            let i = choose|i: int| 0 <= i < after.len() && after[i] == x;
            if i != at {
                let a = if i < at { i } else { i - 1 };
                assert(after[i] == ids[a]);
                assert(ids.contains(x));
            }
        }
        if x == id {
            assert(after[at] == id);
            assert(after.contains(x));
        } else if ids.contains(x) {
            let a = choose|a: int| 0 <= a < ids.len() && ids[a] == x;
            let i = if a < at { a } else { a + 1 };
            assert(after[i] == x);
            assert(after.contains(x));
        }
    }
    assert(after.to_set() =~= ids.to_set().insert(id));
}

impl Database {
    /// The state that the store holds.
    pub closed spec fn view(&self) -> Tables {
        Tables { projects: self.projects@.to_set(), entries: entries_of(self.rows@) }
    }

    /// Whether the store is in order within: its tables sorted, no key held
    /// twice or empty, and every entry under a registered project.
    pub closed spec fn wf(&self) -> bool {
        &&& sorted_ids(self.projects@)
        &&& sorted_rows(self.rows@)
        &&& forall|i: int|
            0 <= i < self.rows@.len() ==> {
                &&& self.projects@.contains((#[trigger] self.rows@[i]).project)
                &&& self.rows@[i].key@.len() > 0
            }
    }

    /// A store that is in order keeps referential integrity.
    pub proof fn lemma_consistent(&self)
        requires
            self.wf(),
        ensures
            self@.consistent(),
    {
        assert forall|key: EntryKey| #[trigger] self@.entries.contains_key(key) implies self@.projects.contains(
            key.0,
        ) by {
            let i = index_of(self.rows@, key);
            assert(self.projects@.contains(self.rows@[i].project));
            assert(self.rows@[i].key@.len() > 0);
        }
    }

    /// An empty store.
    pub fn new() -> (db: Database)
        ensures
            db.wf(),
            db@ == Tables::empty(),
    {
        let db = Database { projects: Vec::new(), rows: Vec::new() };
        proof {
            assert(db@.projects =~= Set::<ProjectId>::empty());
            assert(db@.entries =~= Map::<EntryKey, Stored>::empty());
        }
        db
    }

    /// Where `project` stands among the identifiers, or would stand, and
    /// whether it is there.
    fn find_project(&self, project: ProjectId) -> (r: (usize, bool))
        requires
            sorted_ids(self.projects@),
        ensures
            r.0 <= self.projects.len(),
            forall|i: int| 0 <= i < r.0 ==> self.projects@[i] < project,
            r.1 ==> r.0 < self.projects.len() && self.projects@[r.0 as int] == project,
            !r.1 ==> forall|i: int| r.0 <= i < self.projects.len() ==> project < self.projects@[i],
            r.1 == self.projects@.contains(project),
    {
        let mut lo: usize = 0;
        let mut hi: usize = self.projects.len();
        while lo < hi
            invariant
                lo <= hi <= self.projects.len(),
                sorted_ids(self.projects@),
                forall|i: int| 0 <= i < lo ==> self.projects@[i] < project,
                forall|i: int| hi <= i < self.projects.len() ==> project < self.projects@[i],
            decreases hi - lo,
        {
            let mid: usize = lo + (hi - lo) / 2;
            let here = self.projects[mid];
            if here < project {
                lo = mid + 1;
            } else if here == project {
                return (mid, true);
            } else {
                hi = mid;
            }
        }
        (lo, false)
    }

    /// Where the entry of `key` in `project` stands among the rows, or would
    /// stand, and whether it is there.
    fn locate(&self, project: ProjectId, key: &Vec<char>) -> (r: (usize, bool))
        requires
            sorted_rows(self.rows@),
        ensures
            r.0 <= self.rows.len(),
            forall|i: int|
                0 <= i < r.0 ==> key_before(#[trigger] self.rows@[i].key_of(), (project, key@)),
            r.1 ==> r.0 < self.rows.len() && self.rows@[r.0 as int].key_of() == (project, key@),
            !r.1 ==> forall|i: int|
                r.0 <= i < self.rows.len() ==> key_before(
                    (project, key@),
                    #[trigger] self.rows@[i].key_of(),
                ),
            r.1 == has_key(self.rows@, (project, key@)),
    {
        let ghost target: EntryKey = (project, key@);
        let mut lo: usize = 0;
        let mut hi: usize = self.rows.len();
        while lo < hi
            invariant
                lo <= hi <= self.rows.len(),
                target == (project, key@),
                sorted_rows(self.rows@),
                forall|i: int| 0 <= i < lo ==> key_before(#[trigger] self.rows@[i].key_of(), target),
                forall|i: int|
                    hi <= i < self.rows.len() ==> key_before(
                        target,
                        #[trigger] self.rows@[i].key_of(),
                    ),
            decreases hi - lo,
        {
            let mid: usize = lo + (hi - lo) / 2;
            let row = &self.rows[mid];
            let ghost here = self.rows@[mid as int].key_of();
            let order = if row.project < project {
                Order::Less
            } else if row.project > project {
                Order::Greater
            } else {
                compare_text(&row.key, key)
            };
            match order {
                Order::Less => {
                    proof {
                        assert forall|i: int| 0 <= i < mid + 1 implies key_before(
                            #[trigger] self.rows@[i].key_of(),
                            target,
                        ) by {
                            if i < mid {
                                lemma_key_before_transitive(self.rows@[i].key_of(), here, target);
                            }
                        }
                    }
                    lo = mid + 1;
                },
                Order::Equal => {
                    proof {
                        assert(here == target);
                    }
                    return (mid, true);
                },
                Order::Greater => {
                    proof {
                        assert forall|i: int| mid <= i < self.rows.len() implies key_before(
                            target,
                            #[trigger] self.rows@[i].key_of(),
                        ) by {
                            if mid < i {
                                lemma_key_before_transitive(target, here, self.rows@[i].key_of());
                            }
                        }
                    }
                    hi = mid;
                },
            }
        }
        proof {
            lemma_key_before_irreflexive(target);
            if has_key(self.rows@, target) {
                let i = index_of(self.rows@, target);
                assert(key_before(self.rows@[i].key_of(), target) || key_before(
                    target,
                    self.rows@[i].key_of(),
                ));
            }
        }
        (lo, false)
    }

    /// Registers a new project under the smallest identifier that is not in
    /// use, and gives the identifier back.
    pub fn insert_project(&mut self) -> (id: ProjectId)
        requires
            old(self).wf(),
        ensures
            final(self).wf(),
            old(self)@.is_least_unused(id),
            final(self)@ == old(self)@.with_project(id),
    {
        let mut i: usize = 0;
        while i < self.projects.len() && self.projects[i] == i as u128
            invariant
                i <= self.projects.len(),
                forall|k: int| 0 <= k < i ==> self.projects@[k] == k,
            decreases self.projects.len() - i,
        {
            i += 1;
        }
        let id = i as u128;
        proof {
            let ids = self.projects@;
            assert forall|k: int| i <= k < ids.len() implies id < ids[k] by {
                if i > 0 {
                    assert(ids[i - 1] < ids[i as int]);
                }
                if i < k {
                    assert(ids[i as int] < ids[k]);
                }
            }
            lemma_insert_id(ids, i as int, id);
            assert forall|smaller: ProjectId| smaller < id implies #[trigger] ids.to_set().contains(
                smaller,
            ) by {
                assert(ids[smaller as int] == smaller);
            }
        }
        self.projects.insert(i, id);
        proof {
            assert forall|r: int| 0 <= r < self.rows@.len() implies self.projects@.contains(
                (#[trigger] self.rows@[r]).project,
            ) && self.rows@[r].key@.len() > 0 by {
                assert(old(self).projects@.to_set().contains(self.rows@[r].project));
                assert(self.projects@.to_set().contains(self.rows@[r].project));
            }
        }
        id
    }

    /// Registers `project` unless it is registered already.
    pub fn ensure_project(&mut self, project: ProjectId)
        requires
            old(self).wf(),
        ensures
            final(self).wf(),
            final(self)@ == old(self)@.with_project(project),
    {
        let (at, found) = self.find_project(project);
        if found {
            proof {
                assert(self@.projects.insert(project) =~= self@.projects);
            }
        } else {
            proof {
                lemma_insert_id(self.projects@, at as int, project);
            }
            self.projects.insert(at, project);
            proof {
                assert forall|r: int| 0 <= r < self.rows@.len() implies self.projects@.contains(
                    (#[trigger] self.rows@[r]).project,
                ) && self.rows@[r].key@.len() > 0 by {
                    assert(old(self).projects@.to_set().contains(self.rows@[r].project));
                    assert(self.projects@.to_set().contains(self.rows@[r].project));
                }
            }
        }
    }

    /// Whether `project` is registered.
    pub fn has_project(&self, project: ProjectId) -> (registered: bool)
        requires
            self.wf(),
        ensures
            registered == self@.projects.contains(project),
    {
        let (_, found) = self.find_project(project);
        found
    }

    /// The entry under `key` in `project`, if there is one.
    pub fn select_entry(&self, project: ProjectId, key: &str) -> (r: Option<Entry>)
        requires
            self.wf(),
        ensures
            match self@.entry(project, key@) {
                Some(stored) => r matches Some(entry) && entry@ == (EntryView {
                    mime_type: stored.mime_type,
                    content: stored.content,
                }),
                None => r is None,
            },
    {
        let chars = chars_of(key);
        let (at, found) = self.locate(project, &chars);
        if found {
            let row = &self.rows[at];
            proof {
                lemma_entries_at(self.rows@, at as int);
            }
            Some(Entry { mime_type: row.mime_type.clone(), content: row.content.clone() })
        } else {
            None
        }
    }

    /// The rows of `project` whose keys the tokens accept, or all of its
    /// rows where no tokens are given, as a listing.
    fn scan(&self, project: ProjectId, tokens: Option<&Vec<Token>>) -> (out: Vec<KeyInfo>)
        requires
            self.wf(),
        ensures
            self@.is_listing(project, filter_of(tokens), out.deep_view()),
    {
        let ghost filter = filter_of(tokens);
        let mut out: Vec<KeyInfo> = Vec::new();
        let ghost mut picked: Seq<int> = Seq::empty();
        let mut i: usize = 0;
        while i < self.rows.len()
            invariant
                i <= self.rows.len(),
                self.wf(),
                filter == filter_of(tokens),
                out.len() == picked.len(),
                forall|n: int| 0 <= n < picked.len() ==> 0 <= #[trigger] picked[n] < i,
                forall|n: int, m: int|
                    0 <= n < m < picked.len() ==> #[trigger] picked[n] < #[trigger] picked[m],
                forall|n: int|
                    0 <= n < picked.len() ==> {
                        let row = self.rows@[#[trigger] picked[n]];
                        &&& row.project == project
                        &&& filter.accepts(row.key@)
                        &&& out@[n]@ == (KeyInfoView { key: row.key@, mime_type: row.mime_type@ })
                    },
                forall|r: int|
                    0 <= r < i && (#[trigger] self.rows@[r]).project == project && filter.accepts(
                        self.rows@[r].key@,
                    ) ==> exists|n: int| 0 <= n < picked.len() && #[trigger] picked[n] == r,
            decreases self.rows.len() - i,
        {
            let row = &self.rows[i];
            let wanted = row.project == project && match tokens {
                Some(tokens) => tokens_accept(tokens, &row.key),
                None => true,
            };
            let ghost before = picked;
            if wanted {
                out.push(KeyInfo { key: text_of(&row.key), mime_type: row.mime_type.clone() });
                proof {
                    picked = picked.push(i as int);
                }
            }
            proof {
                assert forall|r: int|
                    0 <= r < i + 1 && (#[trigger] self.rows@[r]).project == project
                        && filter.accepts(self.rows@[r].key@) implies exists|n: int|
                    0 <= n < picked.len() && #[trigger] picked[n] == r by {
                    if r < i {
                        let n = choose|n: int| 0 <= n < before.len() && #[trigger] before[n] == r;
                        assert(picked[n] == r);
                    } else {
                        assert(picked[before.len() as int] == r);
                    }
                }
            }
            i += 1;
        }
        proof {
            let rows = self.rows@;
            let view = out.deep_view();
            assert(view.len() == picked.len());
            assert forall|n: int| 0 <= n < view.len() implies {
                &&& (#[trigger] view[n]).key == rows[picked[n]].key@
                &&& view[n].mime_type == rows[picked[n]].mime_type@
                &&& filter.accepts(view[n].key)
                &&& self@.entries.contains_key((project, view[n].key))
                &&& self@.entries[(project, view[n].key)].mime_type == view[n].mime_type
            } by {
                assert(view[n] == out@[n]@);
                assert(rows[picked[n]].project == project);
                lemma_entries_at(rows, picked[n]);
            }
            assert forall|n: int, m: int| 0 <= n < m < view.len() implies text_lt(
                #[trigger] view[n].key,
                #[trigger] view[m].key,
            ) by {
                assert(picked[n] < picked[m]);
                assert(rows[picked[n]].project == project);
                assert(rows[picked[m]].project == project);
                assert(key_before(rows[picked[n]].key_of(), rows[picked[m]].key_of()));
            }
            assert forall|key: Seq<char>| #[trigger]
                self@.entries.contains_key((project, key)) && filter.accepts(
                    key,
                ) implies exists|n: int| 0 <= n < view.len() && (#[trigger] view[n]).key == key by {
                let r = index_of(rows, (project, key));
                assert(rows[r].project == project);
                let n = choose|n: int| 0 <= n < picked.len() && #[trigger] picked[n] == r;
                assert(view[n].key == key);
            }
        }
        out
    }

    /// The key and content type of every entry of `project`, in ascending
    /// order of the keys.
    pub fn select_keys(&self, project: ProjectId) -> (out: Vec<KeyInfo>)
        requires
            self.wf(),
        ensures
            self@.is_listing(project, KeyFilter::Every, out.deep_view()),
    {
        self.scan(project, None)
    }

    /// The key and content type of the entries of `project` whose keys
    /// `pattern` accepts, in ascending order of the keys. A malformed pattern
    /// is rejected.
    pub fn select_keys_like(&self, project: ProjectId, pattern: &str) -> (r: Result<
        Vec<KeyInfo>,
        DbError,
    >)
        requires
            self.wf(),
        ensures
            match tokens_of(pattern@) {
                Some(tokens) => r matches Ok(out) && self@.is_listing(
                    project,
                    KeyFilter::Matching(tokens),
                    out.deep_view(),
                ),
                None => r matches Err(e) && e == DbError::MalformedPattern,
            },
    {
        match parse_pattern(pattern) {
            Some(tokens) => Ok(self.scan(project, Some(&tokens))),
            None => Err(DbError::MalformedPattern),
        }
    }

    /// Puts an entry under the non-empty `key` in `project`, in place of the
    /// one that is there if there is one. An entry under a project that is
    /// not registered is rejected, and nothing changes.
    pub fn upsert_entry(
        &mut self,
        project: ProjectId,
        key: &str,
        mime_type: String,
        content: Vec<u8>,
        now: Timestamp,
    ) -> (r: Result<(), DbError>)
        requires
            old(self).wf(),
            key@.len() > 0,
        ensures
            final(self).wf(),
            if old(self)@.projects.contains(project) {
                &&& r is Ok
                &&& final(self)@ == old(self)@.with_entry(
                    project,
                    key@,
                    Stored { mime_type: mime_type@, content: content@, updated_at: now },
                )
            } else {
                &&& r == Err::<(), DbError>(DbError::ForeignKeyViolation)
                &&& final(self)@ == old(self)@
            },
    {
        if !self.has_project(project) {
            return Err(DbError::ForeignKeyViolation);
        }
        let chars = chars_of(key);
        let (at, found) = self.locate(project, &chars);
        let row = Row { project, key: chars, mime_type, content, updated_at: now };
        let ghost before = self.rows@;
        if found {
            proof {
                lemma_replace_row(before, at as int, row);
            }
            self.rows.set(at, row);
            proof {
                assert forall|r: int| 0 <= r < self.rows@.len() implies self.projects@.contains(
                    (#[trigger] self.rows@[r]).project,
                ) && self.rows@[r].key@.len() > 0 by {
                    if r != at {
                        assert(self.rows@[r] == before[r]);
                    }
                }
            }
        } else {
            proof {
                lemma_insert_row(before, at as int, row);
            }
            self.rows.insert(at, row);
            proof {
                assert forall|r: int| 0 <= r < self.rows@.len() implies self.projects@.contains(
                    (#[trigger] self.rows@[r]).project,
                ) && self.rows@[r].key@.len() > 0 by {
                    if r < at {
                        assert(self.rows@[r] == before[r]);
                    } else if r > at {
                        assert(self.rows@[r] == before[r - 1]);
                    }
                }
            }
        }
        Ok(())
    }

    /// Takes out the entry under `key` in `project`, and says how many
    /// entries that took out: one, or none where there was none.
    pub fn delete_entry(&mut self, project: ProjectId, key: &str) -> (affected: u64)
        requires
            old(self).wf(),
        ensures
            final(self).wf(),
            final(self)@ == old(self)@.without_entry(project, key@),
            affected == if old(self)@.entries.contains_key((project, key@)) {
                1u64
            } else {
                0u64
            },
    {
        let chars = chars_of(key);
        let (at, found) = self.locate(project, &chars);
        let ghost before = self.rows@;
        if found {
            proof {
                lemma_remove_row(before, at as int);
            }
            self.rows.remove(at);
            proof {
                assert forall|r: int| 0 <= r < self.rows@.len() implies self.projects@.contains(
                    (#[trigger] self.rows@[r]).project,
                ) && self.rows@[r].key@.len() > 0 by {
                    if r < at {
                        assert(self.rows@[r] == before[r]);
                    } else {
                        assert(self.rows@[r] == before[r + 1]);
                    }
                }
            }
            1
        } else {
            proof {
                assert(self@.entries.remove((project, key@)) =~= self@.entries);
            }
            0
        }
    }
}

} // verus!
