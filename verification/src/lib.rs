//! A note indexing and query engine: the note model with its tag
//! sanitization rules, the document schema and the projection of notes
//! into indexed documents and back, the upsert semantics of an indexing
//! pass, the staleness policy that keeps the index fresh, and the parsing
//! and construction of ranked queries with tag, visibility and sort
//! handling. Contracts state what each step computes; the index storage
//! itself is an outside concern of the binary built around this crate.

use vstd::prelude::*;

pub mod doc;
pub mod engine;
pub mod freshness;
pub mod markdown;
pub mod note;
pub mod plan;
pub mod prompt;
pub mod schema;
pub mod settings;
pub mod slug;
pub mod text;
