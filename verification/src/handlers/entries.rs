//! The entry store: point lookup, listing, upsert and deletion of the
//! entries of a project.

use crate::database::{Database, DbError};
use crate::error::{AppError, AppErrorView, StatusCode};
use crate::models::{
    mime_type_of, mime_type_or_default, Entry, EntryView, KeyInfo, ProjectId,
};
use crate::pattern::{
    lemma_literals_then_any_run, lemma_prefix_pattern_accepts_prefixed, literals, prefix_pattern,
    Token,
};
use crate::tables::{KeyFilter, Stored, Tables, Timestamp};
use vstd::prelude::*;

verus! {

/// The text that an optional string holds.
pub open spec fn text_view(text: Option<&str>) -> Option<Seq<char>> {
    match text {
        Some(text) => Some(text@),
        None => None,
    }
}

/// What a lookup of `key` in `project` yields: the content type and bytes
/// stored there, or that nothing is.
pub open spec fn get_outcome(tables: Tables, project: ProjectId, key: Seq<char>) -> Result<
    EntryView,
    AppErrorView,
> {
    match tables.entry(project, key) {
        Some(stored) => Ok(EntryView { mime_type: stored.mime_type, content: stored.content }),
        None => Err(AppErrorView::KeyNotFound(key)),
    }
}

/// The store after a write: the project is registered, and under the key
/// stands the new entry, whole, whatever stood there before.
pub open spec fn after_store(
    tables: Tables,
    project: ProjectId,
    key: Seq<char>,
    content_type: Option<Seq<char>>,
    body: Seq<u8>,
    now: Timestamp,
) -> Tables {
    tables.with_project(project).with_entry(
        project,
        key,
        Stored { mime_type: mime_type_of(content_type), content: body, updated_at: now },
    )
}

/// What deleting `key` in `project` yields: success where an entry was
/// there, and that nothing was where none was.
pub open spec fn delete_outcome(tables: Tables, project: ProjectId, key: Seq<char>) -> Result<
    StatusCode,
    AppErrorView,
> {
    if tables.entries.contains_key((project, key)) {
        Ok(StatusCode::NoContent)
    } else {
        Err(AppErrorView::KeyNotFound(key))
    }
}

/// The store after a deletion: nothing stands under the key.
pub open spec fn after_delete(tables: Tables, project: ProjectId, key: Seq<char>) -> Tables {
    tables.without_entry(project, key)
}

/// What a lookup answers, given what the store found under `key`.
pub fn entry_or_not_found(found: Option<Entry>, key: String) -> (r: Result<Entry, AppError>)
    ensures
        match found {
            Some(entry) => r == Ok::<Entry, AppError>(entry),
            None => r == Err::<Entry, AppError>(AppError::KeyNotFound(key)),
        },
{
    match found {
        Some(entry) => Ok(entry),
        None => Err(AppError::KeyNotFound(key)),
    }
}

/// What a deletion answers, given how many entries the store took out
/// under `key`.
pub fn deleted_or_not_found(affected: u64, key: String) -> (r: Result<StatusCode, AppError>)
    ensures
        if affected == 0 {
            r == Err::<StatusCode, AppError>(AppError::KeyNotFound(key))
        } else {
            r == Ok::<StatusCode, AppError>(StatusCode::NoContent)
        },
{
    if affected == 0 {
        Err(AppError::KeyNotFound(key))
    } else {
        Ok(StatusCode::NoContent)
    }
}

/// The error that stands for a statement which the store rejected.
pub fn store_failure(rejection: DbError) -> (e: AppError)
    ensures
        e@ == AppErrorView::Database(rejection.reason()),
{
    AppError::Database(rejection.message())
}

/// Looks up the entry under `key` in `project`.
pub fn get_entry(db: &Database, project: ProjectId, key: String) -> (r: Result<Entry, AppError>)
    requires
        db.wf(),
    ensures
        match r {
            Ok(entry) => get_outcome(db@, project, key@) == Ok::<EntryView, AppErrorView>(entry@),
            Err(e) => get_outcome(db@, project, key@) == Err::<EntryView, AppErrorView>(e@),
        },
{
    let found = db.select_entry(project, key.as_str());
    entry_or_not_found(found, key)
}

/// Lists every entry of `project` by key and content type, in ascending
/// order of the keys. A project without entries, registered or not, has the
/// empty listing.
pub fn list_entries_all(db: &Database, project: ProjectId) -> (r: Result<Vec<KeyInfo>, AppError>)
    requires
        db.wf(),
    ensures
        r matches Ok(out) && db@.is_listing(project, KeyFilter::Every, out.deep_view()),
{
    Ok(db.select_keys(project))
}

/// Lists the entries of `project` whose keys start with `prefix`, character
/// for character, by key and content type, in ascending order of the keys.
pub fn list_entries(db: &Database, project: ProjectId, prefix: String) -> (r: Result<
    Vec<KeyInfo>,
    AppError,
>)
    requires
        db.wf(),
    ensures
        r matches Ok(out) && db@.is_listing(
            project,
            KeyFilter::StartingWith(prefix@),
            out.deep_view(),
        ),
{
    let pattern = prefix_pattern(prefix.as_str());
    let ghost tokens = literals(prefix@).push(Token::AnyRun);
    proof {
        lemma_prefix_pattern_accepts_prefixed(prefix@, Seq::empty());
    }
    match db.select_keys_like(project, pattern.as_str()) {
        Ok(out) => {
            proof {
                assert forall|key: Seq<char>| #[trigger]
                    KeyFilter::Matching(tokens).accepts(key) == KeyFilter::StartingWith(
                        prefix@,
                    ).accepts(key) by {
                    lemma_literals_then_any_run(prefix@, key);
                }
                db@.lemma_listing_under_equal_filters(
                    project,
                    KeyFilter::Matching(tokens),
                    KeyFilter::StartingWith(prefix@),
                    out.deep_view(),
                );
            }
            Ok(out)
        },
        Err(rejection) => Err(store_failure(rejection)),
    }
}

/// Stores `body` under the non-empty `key` in `project`, with the content
/// type given or the generic binary one. The project is registered first
/// where it was not, so the write is never refused for want of it; an entry
/// that was there is replaced whole.
pub fn store_entry(
    db: &mut Database,
    project: ProjectId,
    key: String,
    content_type: Option<&str>,
    body: Vec<u8>,
    now: Timestamp,
) -> (r: Result<StatusCode, AppError>)
    requires
        old(db).wf(),
        key@.len() > 0,
    ensures
        final(db).wf(),
        r == Ok::<StatusCode, AppError>(StatusCode::Created),
        final(db)@ == after_store(old(db)@, project, key@, text_view(content_type), body@, now),
{
    let mime_type = mime_type_or_default(content_type);
    db.ensure_project(project);
    match db.upsert_entry(project, key.as_str(), mime_type, body, now) {
        Ok(()) => Ok(StatusCode::Created),
        Err(rejection) => Err(store_failure(rejection)),
    }
}

/// Deletes the entry under `key` in `project`; that there was none is an
/// error.
pub fn delete_entry(db: &mut Database, project: ProjectId, key: String) -> (r: Result<
    StatusCode,
    AppError,
>)
    requires
        old(db).wf(),
    ensures
        final(db).wf(),
        final(db)@ == after_delete(old(db)@, project, key@),
        match r {
            Ok(status) => delete_outcome(old(db)@, project, key@) == Ok::<
                StatusCode,
                AppErrorView,
            >(status),
            Err(e) => delete_outcome(old(db)@, project, key@) == Err::<StatusCode, AppErrorView>(
                e@,
            ),
        },
{
    let affected = db.delete_entry(project, key.as_str());
    deleted_or_not_found(affected, key)
}

} // verus!
