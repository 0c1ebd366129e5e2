//! What holds of the entry operations in every state of the store, and of
//! every state that the operations can lead to.

use crate::error::{AppErrorView, StatusCode};
use crate::handlers::entries::{after_delete, after_store, delete_outcome, get_outcome};
use crate::models::{mime_type_of, EntryView, KeyInfoView, ProjectId};
use crate::tables::{KeyFilter, Tables, Timestamp};
use crate::text::{lemma_text_lt_irreflexive, lemma_text_lt_transitive, text_lt};
use vstd::prelude::*;

verus! {

/// An operation that changes the store.
pub enum Operation {
    CreateProject,
    Store {
        project: ProjectId,
        key: Seq<char>,
        content_type: Option<Seq<char>>,
        body: Seq<u8>,
        now: Timestamp,
    },
    Delete { project: ProjectId, key: Seq<char> },
}

impl Operation {
    /// Whether the operation writes under `key` in `project`.
    pub open spec fn writes(self, project: ProjectId, key: Seq<char>) -> bool {
        self matches Operation::Store { project: p, key: k, .. } && p == project && k == key
    }

    /// Whether the operation is one that the data model admits: what it
    /// stores, it stores under a key that is not empty.
    pub open spec fn admitted(self) -> bool {
        self matches Operation::Store { key, .. } ==> key.len() > 0
    }
}

/// The store after one operation.
pub open spec fn step(tables: Tables, op: Operation) -> Tables {
    match op {
        Operation::CreateProject => tables.with_project(tables.next_project()),
        Operation::Store { project, key, content_type, body, now } => after_store(
            tables,
            project,
            key,
            content_type,
            body,
            now,
        ),
        Operation::Delete { project, key } => after_delete(tables, project, key),
    }
}

/// The store after a run of operations on the empty store.
pub open spec fn run(ops: Seq<Operation>) -> Tables
    decreases ops.len(),
{
    if ops.len() == 0 {
        Tables::empty()
    } else {
        step(run(ops.drop_last()), ops.last())
    }
}

/// At most one identifier is the smallest unused one, and where there is
/// one, it is the next project's.
pub proof fn lemma_least_unused_is_next(tables: Tables, id: ProjectId)
    requires
        tables.is_least_unused(id),
    ensures
        tables.next_project() == id,
{
    let next = tables.next_project();
    assert(tables.is_least_unused(next));
    if next < id {
        assert(tables.projects.contains(next));
    } else if id < next {
        assert(tables.projects.contains(id));
    }
}

/// Registering a project twice is registering it once, and registering a
/// registered project changes nothing.
pub proof fn lemma_ensure_project_idempotent(tables: Tables, project: ProjectId)
    ensures
        tables.with_project(project).with_project(project) == tables.with_project(project),
        tables.projects.contains(project) ==> tables.with_project(project) == tables,
{
    assert(tables.projects.insert(project).insert(project) =~= tables.projects.insert(project));
    if tables.projects.contains(project) {
        assert(tables.projects.insert(project) =~= tables.projects);
    }
}

/// No operation takes a project out of the registry: an identifier that was
/// in use once is in use ever after, so a new project's identifier was
/// never in use before.
pub proof fn lemma_projects_stay_registered(tables: Tables, op: Operation, project: ProjectId)
    requires
        tables.projects.contains(project),
    ensures
        step(tables, op).projects.contains(project),
        op is CreateProject && tables.is_least_unused(tables.next_project())
            ==> tables.next_project() != project,
{
}

/// Every state that the operations lead to keeps referential integrity, and
/// holds no entry under an empty key.
pub proof fn lemma_reachable_states_consistent(ops: Seq<Operation>)
    requires
        forall|i: int| 0 <= i < ops.len() ==> (#[trigger] ops[i]).admitted(),
    ensures
        run(ops).consistent(),
    decreases ops.len(),
{
    if ops.len() > 0 {
        let before = ops.drop_last();
        assert forall|i: int| 0 <= i < before.len() implies (#[trigger] before[i]).admitted() by {
            assert(before[i] == ops[i]);
        }
        lemma_reachable_states_consistent(before);
        assert(ops.last() == ops[ops.len() - 1]);
        assert(ops.last().admitted());
    }
}

/// Under a key that was never written, in any project, a lookup finds
/// nothing, whatever else was done to the store.
pub proof fn lemma_never_written_not_found(ops: Seq<Operation>, project: ProjectId, key: Seq<char>)
    requires
        forall|i: int| 0 <= i < ops.len() ==> !(#[trigger] ops[i]).writes(project, key),
    ensures
        get_outcome(run(ops), project, key) == Err::<EntryView, AppErrorView>(
            AppErrorView::KeyNotFound(key),
        ),
    decreases ops.len(),
{
    if ops.len() > 0 {
        let before = ops.drop_last();
        assert forall|i: int| 0 <= i < before.len() implies !(#[trigger] before[i]).writes(
            project,
            key,
        ) by {
            assert(before[i] == ops[i]);
        }
        lemma_never_written_not_found(before, project, key);
        assert(ops.last() == ops[ops.len() - 1]);
        assert(!ops.last().writes(project, key));
    }
}

/// A lookup right after a write yields exactly the content type and the
/// bytes that were written, whatever bytes they are and however few.
pub proof fn lemma_store_then_get(
    tables: Tables,
    project: ProjectId,
    key: Seq<char>,
    content_type: Option<Seq<char>>,
    body: Seq<u8>,
    now: Timestamp,
)
    ensures
        get_outcome(after_store(tables, project, key, content_type, body, now), project, key)
            == Ok::<EntryView, AppErrorView>(
            EntryView { mime_type: mime_type_of(content_type), content: body },
        ),
{
}

/// The last write wins: of two writes under one key the second leaves the
/// store as if the first had not been, and a lookup yields what the second
/// wrote.
pub proof fn lemma_last_write_wins(
    tables: Tables,
    project: ProjectId,
    key: Seq<char>,
    first_type: Option<Seq<char>>,
    first_body: Seq<u8>,
    first_now: Timestamp,
    second_type: Option<Seq<char>>,
    second_body: Seq<u8>,
    second_now: Timestamp,
)
    ensures
        after_store(
            after_store(tables, project, key, first_type, first_body, first_now),
            project,
            key,
            second_type,
            second_body,
            second_now,
        ) == after_store(tables, project, key, second_type, second_body, second_now),
        get_outcome(
            after_store(
                after_store(tables, project, key, first_type, first_body, first_now),
                project,
                key,
                second_type,
                second_body,
                second_now,
            ),
            project,
            key,
        ) == Ok::<EntryView, AppErrorView>(
            EntryView { mime_type: mime_type_of(second_type), content: second_body },
        ),
{
    let once = after_store(tables, project, key, second_type, second_body, second_now);
    let twice = after_store(
        after_store(tables, project, key, first_type, first_body, first_now),
        project,
        key,
        second_type,
        second_body,
        second_now,
    );
    assert(twice.projects =~= once.projects);
    assert(twice.entries =~= once.entries);
}

/// Writes under different keys, or in different projects, do not interfere:
/// in either order they leave the store the same.
pub proof fn lemma_stores_commute(
    tables: Tables,
    project: ProjectId,
    key: Seq<char>,
    content_type: Option<Seq<char>>,
    body: Seq<u8>,
    now: Timestamp,
    other_project: ProjectId,
    other_key: Seq<char>,
    other_type: Option<Seq<char>>,
    other_body: Seq<u8>,
    other_now: Timestamp,
)
    requires
        project != other_project || key != other_key,
    ensures
        after_store(
            after_store(tables, project, key, content_type, body, now),
            other_project,
            other_key,
            other_type,
            other_body,
            other_now,
        ) == after_store(
            after_store(tables, other_project, other_key, other_type, other_body, other_now),
            project,
            key,
            content_type,
            body,
            now,
        ),
{
    let one = after_store(
        after_store(tables, project, key, content_type, body, now),
        other_project,
        other_key,
        other_type,
        other_body,
        other_now,
    );
    let other = after_store(
        after_store(tables, other_project, other_key, other_type, other_body, other_now),
        project,
        key,
        content_type,
        body,
        now,
    );
    assert(one.projects =~= other.projects);
    assert(one.entries =~= other.entries);
}

/// Deleting what was just written succeeds, and deleting it once more finds
/// nothing to delete.
pub proof fn lemma_delete_after_store(
    tables: Tables,
    project: ProjectId,
    key: Seq<char>,
    content_type: Option<Seq<char>>,
    body: Seq<u8>,
    now: Timestamp,
)
    ensures
        delete_outcome(after_store(tables, project, key, content_type, body, now), project, key)
            == Ok::<StatusCode, AppErrorView>(StatusCode::NoContent),
        delete_outcome(
            after_delete(
                after_store(tables, project, key, content_type, body, now),
                project,
                key,
            ),
            project,
            key,
        ) == Err::<StatusCode, AppErrorView>(AppErrorView::KeyNotFound(key)),
{
}

/// A project without entries, registered or not, has the empty listing
/// under every filter.
pub proof fn lemma_empty_project_lists_nothing(
    tables: Tables,
    project: ProjectId,
    filter: KeyFilter,
    out: Seq<KeyInfoView>,
)
    requires
        forall|key: Seq<char>| !tables.entries.contains_key((project, key)),
        tables.is_listing(project, filter, out),
    ensures
        out.len() == 0,
{
    if out.len() > 0 {
        assert(tables.entries.contains_key((project, out[0].key)));
    }
}

/// A write under a project that was never created registers the project,
/// and the project's listing then shows the entry.
pub proof fn lemma_store_registers_project(
    tables: Tables,
    project: ProjectId,
    key: Seq<char>,
    content_type: Option<Seq<char>>,
    body: Seq<u8>,
    now: Timestamp,
    out: Seq<KeyInfoView>,
)
    requires
        after_store(tables, project, key, content_type, body, now).is_listing(
            project,
            KeyFilter::Every,
            out,
        ),
    ensures
        after_store(tables, project, key, content_type, body, now).projects.contains(project),
        exists|i: int|
            0 <= i < out.len() && #[trigger] out[i] == (KeyInfoView {
                key,
                mime_type: mime_type_of(content_type),
            }),
{
    let after = after_store(tables, project, key, content_type, body, now);
    assert(after.entries.contains_key((project, key)));
    let i = choose|i: int| 0 <= i < out.len() && (#[trigger] out[i]).key == key;
    assert(out[i].mime_type == mime_type_of(content_type));
    assert(out[i] == (KeyInfoView { key, mime_type: mime_type_of(content_type) }));
}

/// Projects are isolated: a write or a deletion in one project changes no
/// lookup and no listing in another.
pub proof fn lemma_projects_isolated(
    tables: Tables,
    project: ProjectId,
    key: Seq<char>,
    content_type: Option<Seq<char>>,
    body: Seq<u8>,
    now: Timestamp,
    other: ProjectId,
    other_key: Seq<char>,
    filter: KeyFilter,
    out: Seq<KeyInfoView>,
)
    requires
        other != project,
    ensures
        get_outcome(after_store(tables, project, key, content_type, body, now), other, other_key)
            == get_outcome(tables, other, other_key),
        get_outcome(after_delete(tables, project, key), other, other_key) == get_outcome(
            tables,
            other,
            other_key,
        ),
        after_store(tables, project, key, content_type, body, now).is_listing(other, filter, out)
            == tables.is_listing(other, filter, out),
        after_delete(tables, project, key).is_listing(other, filter, out) == tables.is_listing(
            other,
            filter,
            out,
        ),
{
    let stored = after_store(tables, project, key, content_type, body, now);
    let deleted = after_delete(tables, project, key);
    assert forall|k: Seq<char>|
        stored.entries.contains_key((other, k)) == tables.entries.contains_key((other, k))
            && deleted.entries.contains_key((other, k)) == tables.entries.contains_key((other, k))
            && (tables.entries.contains_key((other, k)) ==> stored.entries[(other, k)]
            == tables.entries[(other, k)] && deleted.entries[(other, k)] == tables.entries[(
            other,
            k,
        )]) by {}
    lemma_same_entries_same_listing(tables, stored, other, filter, out);
    lemma_same_entries_same_listing(tables, deleted, other, filter, out);
}

/// Two states that hold the same entries for a project list it alike.
pub proof fn lemma_same_entries_same_listing(
    a: Tables,
    b: Tables,
    project: ProjectId,
    filter: KeyFilter,
    out: Seq<KeyInfoView>,
)
    requires
        forall|key: Seq<char>|
            a.entries.contains_key((project, key)) == b.entries.contains_key((project, key)),
        forall|key: Seq<char>|
            a.entries.contains_key((project, key)) ==> a.entries[(project, key)] == b.entries[(
                project,
                key,
            )],
    ensures
        a.is_listing(project, filter, out) == b.is_listing(project, filter, out),
{
    if a.is_listing(project, filter, out) {
        assert forall|key: Seq<char>| #[trigger]
            b.entries.contains_key((project, key)) && filter.accepts(key) implies exists|i: int|
            0 <= i < out.len() && (#[trigger] out[i]).key == key by {
            assert(a.entries.contains_key((project, key)));
        }
        assert(b.is_listing(project, filter, out));
    }
    if b.is_listing(project, filter, out) {
        assert forall|key: Seq<char>| #[trigger]
            a.entries.contains_key((project, key)) && filter.accepts(key) implies exists|i: int|
            0 <= i < out.len() && (#[trigger] out[i]).key == key by {
            assert(b.entries.contains_key((project, key)));
        }
        assert(a.is_listing(project, filter, out));
    }
}

/// Two listings of one project under one filter agree on the key at every
/// position that the first one has.
proof fn lemma_listings_agree_at(
    tables: Tables,
    project: ProjectId,
    filter: KeyFilter,
    a: Seq<KeyInfoView>,
    b: Seq<KeyInfoView>,
    i: int,
)
    requires
        tables.is_listing(project, filter, a),
        tables.is_listing(project, filter, b),
        0 <= i < a.len(),
    ensures
        i < b.len(),
        a[i].key == b[i].key,
    decreases i,
{
    let key = a[i].key;
    assert(tables.entries.contains_key((project, key)) && filter.accepts(key));
    let m = choose|m: int| 0 <= m < b.len() && (#[trigger] b[m]).key == key;
    lemma_text_lt_irreflexive(key);
    if m < i {
        lemma_listings_agree_at(tables, project, filter, a, b, m);
        assert(text_lt(a[m].key, a[i].key));
    } else if m > i {
        let other = b[i].key;
        assert(tables.entries.contains_key((project, other)) && filter.accepts(other));
        let n = choose|n: int| 0 <= n < a.len() && (#[trigger] a[n]).key == other;
        assert(text_lt(b[i].key, b[m].key));
        lemma_text_lt_irreflexive(other);
        if n < i {
            lemma_listings_agree_at(tables, project, filter, a, b, n);
            assert(text_lt(b[n].key, b[i].key));
        } else if n > i {
            assert(text_lt(a[i].key, a[n].key));
            lemma_text_lt_transitive(key, other, key);
        }
    }
}

/// A project has one listing under a filter and no other: what is listed,
/// and in which order, is determined by the state of the store.
pub proof fn lemma_listing_unique(
    tables: Tables,
    project: ProjectId,
    filter: KeyFilter,
    a: Seq<KeyInfoView>,
    b: Seq<KeyInfoView>,
)
    requires
        tables.is_listing(project, filter, a),
        tables.is_listing(project, filter, b),
    ensures
        a == b,
{
    if a.len() > 0 {
        lemma_listings_agree_at(tables, project, filter, a, b, a.len() - 1);
    }
    if b.len() > 0 {
        lemma_listings_agree_at(tables, project, filter, b, a, b.len() - 1);
    }
    assert forall|i: int| 0 <= i < a.len() implies a[i] == b[i] by {
        lemma_listings_agree_at(tables, project, filter, a, b, i);
        assert(a[i].mime_type == tables.entries[(project, a[i].key)].mime_type);
        assert(b[i].mime_type == tables.entries[(project, b[i].key)].mime_type);
    }
    assert(a =~= b);
}

} // verus!
