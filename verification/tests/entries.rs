use rust_db::database::{Database, DbError};
use rust_db::error::{AppError, StatusCode};
use rust_db::handlers::entries::{
    delete_entry, deleted_or_not_found, entry_or_not_found, get_entry, list_entries,
    list_entries_all, store_entry, store_failure,
};
use rust_db::handlers::projects::create_project;
use rust_db::models::{mime_type_or_default, Entry, KeyInfo, Project};

const P: u128 = 0x0123_4567_89ab_cdef_0123_4567_89ab_cdef;
const Q: u128 = 42;

fn put(db: &mut Database, project: u128, key: &str, mime: &str, body: &[u8]) {
    let status = store_entry(db, project, key.to_string(), Some(mime), body.to_vec(), 1);
    assert_eq!(status, Ok(StatusCode::Created));
}

fn keys(listing: &[KeyInfo]) -> Vec<String> {
    listing.iter().map(|info| info.key.clone()).collect()
}

#[test]
fn get_of_a_key_never_written_is_not_found() {
    let mut db = Database::new();
    assert_eq!(
        get_entry(&db, P, "missing".to_string()),
        Err(AppError::KeyNotFound("missing".to_string()))
    );
    put(&mut db, P, "present", "text/plain", b"x");
    put(&mut db, Q, "missing", "text/plain", b"y");
    assert_eq!(
        get_entry(&db, P, "missing".to_string()),
        Err(AppError::KeyNotFound("missing".to_string()))
    );
    assert_eq!(
        get_entry(&db, P, "presen".to_string()),
        Err(AppError::KeyNotFound("presen".to_string()))
    );
    assert_eq!(
        get_entry(&db, P, "".to_string()),
        Err(AppError::KeyNotFound("".to_string()))
    );
}

#[test]
fn store_then_get_round_trips() {
    let mut db = Database::new();
    put(&mut db, P, "docs/readme.md", "text/markdown", b"# hello");
    assert_eq!(
        get_entry(&db, P, "docs/readme.md".to_string()),
        Ok(Entry { mime_type: "text/markdown".to_string(), content: b"# hello".to_vec() })
    );
}

#[test]
fn store_then_get_round_trips_empty_content() {
    let mut db = Database::new();
    put(&mut db, P, "empty", "application/json", b"");
    assert_eq!(
        get_entry(&db, P, "empty".to_string()),
        Ok(Entry { mime_type: "application/json".to_string(), content: Vec::new() })
    );
}

#[test]
fn store_then_get_round_trips_arbitrary_bytes() {
    let mut db = Database::new();
    let body: Vec<u8> = (0..=255u8).chain([0, 0, 255, 0]).collect();
    put(&mut db, P, "blob", "application/x-custom", &body);
    assert_eq!(
        get_entry(&db, P, "blob".to_string()),
        Ok(Entry { mime_type: "application/x-custom".to_string(), content: body })
    );
}

#[test]
fn store_without_content_type_uses_the_generic_binary_type() {
    let mut db = Database::new();
    let status = store_entry(&mut db, P, "raw".to_string(), None, vec![1, 2, 3], 9);
    assert_eq!(status, Ok(StatusCode::Created));
    assert_eq!(
        get_entry(&db, P, "raw".to_string()),
        Ok(Entry { mime_type: "application/octet-stream".to_string(), content: vec![1, 2, 3] })
    );
    assert_eq!(mime_type_or_default(None), "application/octet-stream");
    assert_eq!(mime_type_or_default(Some("image/png")), "image/png");
    assert_eq!(mime_type_or_default(Some("")), "");
}

#[test]
fn last_write_wins_and_replaces_whole() {
    let mut db = Database::new();
    put(&mut db, P, "k", "text/plain", b"first and long");
    put(&mut db, P, "k", "image/png", b"2nd");
    assert_eq!(
        get_entry(&db, P, "k".to_string()),
        Ok(Entry { mime_type: "image/png".to_string(), content: b"2nd".to_vec() })
    );
    let listing = list_entries_all(&db, P).unwrap();
    assert_eq!(listing, vec![KeyInfo { key: "k".to_string(), mime_type: "image/png".to_string() }]);
}

#[test]
fn delete_succeeds_once_then_is_not_found() {
    let mut db = Database::new();
    put(&mut db, P, "k", "text/plain", b"v");
    assert_eq!(delete_entry(&mut db, P, "k".to_string()), Ok(StatusCode::NoContent));
    assert_eq!(
        delete_entry(&mut db, P, "k".to_string()),
        Err(AppError::KeyNotFound("k".to_string()))
    );
    assert_eq!(get_entry(&db, P, "k".to_string()), Err(AppError::KeyNotFound("k".to_string())));
    assert_eq!(list_entries_all(&db, P), Ok(Vec::new()));
}

#[test]
fn delete_of_a_key_never_written_is_not_found() {
    let mut db = Database::new();
    put(&mut db, P, "other", "text/plain", b"v");
    assert_eq!(
        delete_entry(&mut db, P, "k".to_string()),
        Err(AppError::KeyNotFound("k".to_string()))
    );
    assert_eq!(
        delete_entry(&mut db, Q, "other".to_string()),
        Err(AppError::KeyNotFound("other".to_string()))
    );
    assert_eq!(keys(&list_entries_all(&db, P).unwrap()), vec!["other"]);
}

#[test]
fn delete_leaves_the_other_entries() {
    let mut db = Database::new();
    for key in ["a", "b", "c", "d"] {
        put(&mut db, P, key, "text/plain", key.as_bytes());
    }
    assert_eq!(delete_entry(&mut db, P, "b".to_string()), Ok(StatusCode::NoContent));
    assert_eq!(delete_entry(&mut db, P, "d".to_string()), Ok(StatusCode::NoContent));
    assert_eq!(keys(&list_entries_all(&db, P).unwrap()), vec!["a", "c"]);
    assert_eq!(
        get_entry(&db, P, "c".to_string()),
        Ok(Entry { mime_type: "text/plain".to_string(), content: b"c".to_vec() })
    );
}

#[test]
fn list_all_is_sorted_by_key() {
    let mut db = Database::new();
    for key in ["a", "c", "b"] {
        put(&mut db, P, key, "text/plain", b"v");
    }
    assert_eq!(keys(&list_entries_all(&db, P).unwrap()), vec!["a", "b", "c"]);
}

#[test]
fn list_all_of_a_project_without_entries_is_empty() {
    let mut db = Database::new();
    assert_eq!(list_entries_all(&db, P), Ok(Vec::new()));
    let project = create_project(&mut db).unwrap();
    assert_eq!(list_entries_all(&db, project.id), Ok(Vec::new()));
    put(&mut db, Q, "k", "text/plain", b"v");
    assert_eq!(list_entries_all(&db, P), Ok(Vec::new()));
    assert_eq!(list_entries(&db, P, "k".to_string()), Ok(Vec::new()));
}

#[test]
fn list_all_shows_key_and_content_type() {
    let mut db = Database::new();
    put(&mut db, P, "b", "image/png", b"1");
    put(&mut db, P, "a", "text/html", b"22");
    assert_eq!(
        list_entries_all(&db, P),
        Ok(vec![
            KeyInfo { key: "a".to_string(), mime_type: "text/html".to_string() },
            KeyInfo { key: "b".to_string(), mime_type: "image/png".to_string() },
        ])
    );
}

#[test]
fn list_all_orders_by_code_point() {
    let mut db = Database::new();
    let mut expected: Vec<String> = ["z", "\u{e9}", "\u{1f600}", "a", "Z", "ab", "a/b", "\u{ffff}", "~"]
        .iter()
        .map(|k| k.to_string())
        .collect();
    for key in &expected {
        put(&mut db, P, key, "text/plain", b"v");
    }
    expected.sort();
    assert_eq!(keys(&list_entries_all(&db, P).unwrap()), expected);
    assert_eq!(expected[0], "Z");
    assert_eq!(expected[expected.len() - 1], "\u{1f600}");
}

#[test]
fn list_by_prefix_keeps_the_keys_that_start_with_it() {
    let mut db = Database::new();
    for key in ["user:1", "user:2", "use_case", "other"] {
        put(&mut db, P, key, "text/plain", b"v");
    }
    assert_eq!(
        keys(&list_entries(&db, P, "use".to_string()).unwrap()),
        vec!["use_case", "user:1", "user:2"]
    );
    assert_eq!(keys(&list_entries(&db, P, "user:".to_string()).unwrap()), vec!["user:1", "user:2"]);
    assert_eq!(keys(&list_entries(&db, P, "user:1".to_string()).unwrap()), vec!["user:1"]);
    assert_eq!(keys(&list_entries(&db, P, "user:12".to_string()).unwrap()), Vec::<String>::new());
    assert_eq!(
        keys(&list_entries(&db, P, "".to_string()).unwrap()),
        vec!["other", "use_case", "user:1", "user:2"]
    );
}

#[test]
fn list_by_prefix_takes_percent_literally() {
    let mut db = Database::new();
    for key in ["100%", "100% off", "1000", "100", "100x%", "10", "x100%"] {
        put(&mut db, P, key, "text/plain", b"v");
    }
    assert_eq!(keys(&list_entries(&db, P, "100%".to_string()).unwrap()), vec!["100%", "100% off"]);
    assert_eq!(keys(&list_entries(&db, P, "%".to_string()).unwrap()), Vec::<String>::new());
}

#[test]
fn list_by_prefix_takes_underscore_literally() {
    let mut db = Database::new();
    for key in ["use_case", "user", "use-case", "use_", "usd"] {
        put(&mut db, P, key, "text/plain", b"v");
    }
    assert_eq!(keys(&list_entries(&db, P, "use_".to_string()).unwrap()), vec!["use_", "use_case"]);
    assert_eq!(keys(&list_entries(&db, P, "_".to_string()).unwrap()), Vec::<String>::new());
    assert_eq!(keys(&list_entries(&db, P, "us_".to_string()).unwrap()), Vec::<String>::new());
}

#[test]
fn list_by_prefix_takes_backslash_literally() {
    let mut db = Database::new();
    for key in ["a\\b", "a\\%", "a%", "ab", "a\\", "a\\\\b"] {
        put(&mut db, P, key, "text/plain", b"v");
    }
    assert_eq!(
        keys(&list_entries(&db, P, "a\\".to_string()).unwrap()),
        vec!["a\\", "a\\%", "a\\\\b", "a\\b"]
    );
    assert_eq!(keys(&list_entries(&db, P, "a\\%".to_string()).unwrap()), vec!["a\\%"]);
    assert_eq!(keys(&list_entries(&db, P, "a\\\\".to_string()).unwrap()), vec!["a\\\\b"]);
}

#[test]
fn store_under_a_new_project_registers_it() {
    let mut db = Database::new();
    assert!(!db.has_project(P));
    put(&mut db, P, "k", "text/plain", b"v");
    assert!(db.has_project(P));
    assert!(!db.has_project(Q));
    assert_eq!(
        list_entries_all(&db, P),
        Ok(vec![KeyInfo { key: "k".to_string(), mime_type: "text/plain".to_string() }])
    );
    put(&mut db, P, "k2", "text/plain", b"v");
    assert!(db.has_project(P));
    assert_eq!(keys(&list_entries_all(&db, P).unwrap()), vec!["k", "k2"]);
}

#[test]
fn projects_are_isolated() {
    let mut db = Database::new();
    put(&mut db, P, "k", "text/plain", b"in p");
    put(&mut db, Q, "k", "image/png", b"in q");
    put(&mut db, Q, "only-q", "image/png", b"q");
    assert_eq!(
        get_entry(&db, P, "k".to_string()),
        Ok(Entry { mime_type: "text/plain".to_string(), content: b"in p".to_vec() })
    );
    assert_eq!(
        get_entry(&db, Q, "k".to_string()),
        Ok(Entry { mime_type: "image/png".to_string(), content: b"in q".to_vec() })
    );
    assert_eq!(keys(&list_entries_all(&db, P).unwrap()), vec!["k"]);
    assert_eq!(keys(&list_entries_all(&db, Q).unwrap()), vec!["k", "only-q"]);
    assert_eq!(delete_entry(&mut db, P, "k".to_string()), Ok(StatusCode::NoContent));
    assert_eq!(
        get_entry(&db, Q, "k".to_string()),
        Ok(Entry { mime_type: "image/png".to_string(), content: b"in q".to_vec() })
    );
}

#[test]
fn many_entries_stay_sorted_and_found() {
    let mut db = Database::new();
    let mut expected = Vec::new();
    for i in 0..200u32 {
        let n = (i * 7919) % 1000;
        let key = format!("key-{n}");
        put(&mut db, (n % 3) as u128, &key, "text/plain", key.as_bytes());
        if n % 3 == 1 {
            expected.push(key);
        }
    }
    expected.sort();
    expected.dedup();
    assert_eq!(keys(&list_entries_all(&db, 1).unwrap()), expected);
    for key in &expected {
        assert_eq!(
            get_entry(&db, 1, key.clone()),
            Ok(Entry { mime_type: "text/plain".to_string(), content: key.as_bytes().to_vec() })
        );
        assert_eq!(get_entry(&db, 5, key.clone()), Err(AppError::KeyNotFound(key.clone())));
    }
}

#[test]
fn create_project_mints_unused_identifiers() {
    let mut db = Database::new();
    assert_eq!(create_project(&mut db), Ok(Project { id: 0 }));
    assert_eq!(create_project(&mut db), Ok(Project { id: 1 }));
    put(&mut db, 2, "k", "text/plain", b"v");
    put(&mut db, 4, "k", "text/plain", b"v");
    assert_eq!(create_project(&mut db), Ok(Project { id: 3 }));
    assert_eq!(create_project(&mut db), Ok(Project { id: 5 }));
    for id in 0..=5 {
        assert!(db.has_project(id));
    }
    assert!(!db.has_project(6));
    assert_eq!(keys(&list_entries_all(&db, 2).unwrap()), vec!["k"]);
    assert_eq!(list_entries_all(&db, 3), Ok(Vec::new()));
}

#[test]
fn ensure_project_is_idempotent() {
    let mut db = Database::new();
    db.ensure_project(P);
    db.ensure_project(Q);
    db.ensure_project(P);
    assert!(db.has_project(P));
    assert!(db.has_project(Q));
    put(&mut db, P, "k", "text/plain", b"v");
    db.ensure_project(P);
    assert_eq!(keys(&list_entries_all(&db, P).unwrap()), vec!["k"]);
}

#[test]
fn upsert_under_an_unregistered_project_is_rejected() {
    let mut db = Database::new();
    assert_eq!(
        db.upsert_entry(P, "k", "text/plain".to_string(), vec![1], 1),
        Err(DbError::ForeignKeyViolation)
    );
    assert_eq!(db.select_entry(P, "k"), None);
    assert!(!db.has_project(P));
    db.ensure_project(P);
    assert_eq!(db.upsert_entry(P, "k", "text/plain".to_string(), vec![1], 1), Ok(()));
    assert_eq!(
        db.select_entry(P, "k"),
        Some(Entry { mime_type: "text/plain".to_string(), content: vec![1] })
    );
}

#[test]
fn store_statements_count_what_they_delete() {
    let mut db = Database::new();
    put(&mut db, P, "k", "text/plain", b"v");
    assert_eq!(db.delete_entry(P, "j"), 0);
    assert_eq!(db.delete_entry(Q, "k"), 0);
    assert_eq!(db.delete_entry(P, "k"), 1);
    assert_eq!(db.delete_entry(P, "k"), 0);
}

#[test]
fn select_keys_like_reads_wildcards() {
    let mut db = Database::new();
    for key in ["user:1", "user:2", "use_case", "other", "u"] {
        put(&mut db, P, key, "text/plain", b"v");
    }
    assert_eq!(keys(&db.select_keys_like(P, "use%").unwrap()), vec!["use_case", "user:1", "user:2"]);
    assert_eq!(keys(&db.select_keys_like(P, "user:_").unwrap()), vec!["user:1", "user:2"]);
    assert_eq!(keys(&db.select_keys_like(P, "%e%").unwrap()).len(), 4);
    assert_eq!(keys(&db.select_keys_like(P, "use\\_%").unwrap()), vec!["use_case"]);
    assert_eq!(keys(&db.select_keys_like(P, "_").unwrap()), vec!["u"]);
    assert_eq!(keys(&db.select_keys_like(P, "").unwrap()), Vec::<String>::new());
    assert_eq!(keys(&db.select_keys(P)).len(), 5);
}

#[test]
fn select_keys_like_rejects_a_malformed_pattern() {
    let mut db = Database::new();
    put(&mut db, P, "k", "text/plain", b"v");
    assert_eq!(db.select_keys_like(P, "k\\"), Err(DbError::MalformedPattern));
    assert_eq!(db.select_keys_like(P, "\\"), Err(DbError::MalformedPattern));
    assert_eq!(db.select_keys_like(P, "k\\\\").map(|l| l.len()), Ok(0));
}

#[test]
fn answers_follow_what_the_store_found() {
    let entry = Entry { mime_type: "text/plain".to_string(), content: vec![7] };
    assert_eq!(entry_or_not_found(Some(entry.clone()), "k".to_string()), Ok(entry));
    assert_eq!(
        entry_or_not_found(None, "k".to_string()),
        Err(AppError::KeyNotFound("k".to_string()))
    );
    assert_eq!(
        deleted_or_not_found(0, "k".to_string()),
        Err(AppError::KeyNotFound("k".to_string()))
    );
    assert_eq!(deleted_or_not_found(1, "k".to_string()), Ok(StatusCode::NoContent));
    assert_eq!(deleted_or_not_found(3, "k".to_string()), Ok(StatusCode::NoContent));
    assert_eq!(
        store_failure(DbError::ForeignKeyViolation),
        AppError::Database("entry refers to a project that is not registered".to_string())
    );
    assert_eq!(
        store_failure(DbError::MalformedPattern),
        AppError::Database("LIKE pattern must not end with escape character".to_string())
    );
}
