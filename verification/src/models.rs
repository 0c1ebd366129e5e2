//! The data model: projects, entries, and what a listing shows of an entry.

use vstd::prelude::*;

verus! {

/// The opaque 128-bit identifier of a project.
pub type ProjectId = u128;

/// The content type given to an entry that is stored without one.
pub open spec fn default_mime_type() -> Seq<char> {
    "application/octet-stream"@
}

/// A project: an isolation scope with no attribute but its identity.
#[derive(Clone, Copy, Debug, PartialEq, Eq, Structural)]
pub struct Project {
    pub id: ProjectId,
}

/// What a listing shows of an entry: its key and content type, never its
/// content.
#[derive(Clone, Debug, PartialEq, Eq)]
pub struct KeyInfo {
    pub key: String,
    pub mime_type: String,
}

/// What is stored under a key: a content type and the bytes.
#[derive(Clone, Debug, PartialEq, Eq)]
pub struct Entry {
    pub mime_type: String,
    pub content: Vec<u8>,
}

/// The mathematical value of a [`KeyInfo`].
pub struct KeyInfoView {
    pub key: Seq<char>,
    pub mime_type: Seq<char>,
}

/// The mathematical value of an [`Entry`].
pub struct EntryView {
    pub mime_type: Seq<char>,
    pub content: Seq<u8>,
}

impl View for KeyInfo {
    type V = KeyInfoView;

    open spec fn view(&self) -> KeyInfoView {
        KeyInfoView { key: self.key@, mime_type: self.mime_type@ }
    }
}

impl DeepView for KeyInfo {
    type V = KeyInfoView;

    open spec fn deep_view(&self) -> KeyInfoView {
        self@
    }
}

impl View for Entry {
    type V = EntryView;

    open spec fn view(&self) -> EntryView {
        EntryView { mime_type: self.mime_type@, content: self.content@ }
    }
}

impl DeepView for Entry {
    type V = EntryView;

    open spec fn deep_view(&self) -> EntryView {
        self@
    }
}

/// The content type of a stored entry: the one the caller gave, or the
/// generic binary type where the caller gave none.
pub open spec fn mime_type_of(content_type: Option<Seq<char>>) -> Seq<char> {
    match content_type {
        Some(given) => given,
        None => default_mime_type(),
    }
}

/// The content type to store for a write that came with `content_type`.
pub fn mime_type_or_default(content_type: Option<&str>) -> (mime_type: String)
    ensures
        mime_type@ == mime_type_of(
            match content_type {
                Some(given) => Some(given@),
                None => None,
            },
        ),
{
    match content_type {
        Some(given) => given.to_owned(),
        None => "application/octet-stream".to_owned(),
    }
}

} // verus!
