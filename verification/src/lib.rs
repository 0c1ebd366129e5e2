//! A project-scoped key-value store: the data model, the operations on the
//! entries of a project, and the match patterns that stand for key prefixes.
//!
//! Clients keep byte blobs under string keys within a project, each with a
//! content type. [`tables`] says what a state of the store is, [`database`]
//! holds one in memory and runs the statements against it, and [`handlers`]
//! are the operations proper. [`pattern`] reads the wildcard patterns that a
//! prefix listing is made with, [`laws`] states what holds of the operations
//! in every state, and [`config`], [`error`] and [`models`] hold the settings,
//! the errors and the data that pass in and out.

pub mod config;
pub mod database;
pub mod error;
pub mod handlers;
pub mod laws;
pub mod models;
pub mod pattern;
pub mod tables;
pub mod text;
