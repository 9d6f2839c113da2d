//! Resolution of GraphQL requests against a database schema.
//!
//! [`request`] decides which operation of a document runs, and refuses what must not run:
//! fragments that lead back into themselves ([`cycles`]) and fields that nest too deeply
//! ([`depth`]). [`operation`] begins the one that runs, and [`query`] and [`mutation`] carry it
//! out field by field. They do no work on the database themselves: they ask for it and are
//! handed the outcome, and make the outcomes of all fields ([`fields`]) into a response.
//! [`guarantees`] says of whole requests which are refused, with which message, and which run.

pub mod cycles;
pub mod depth;
pub mod document;
pub mod error;
pub mod fields;
pub mod guarantees;
pub mod json;
pub mod mutation;
pub mod names;
pub mod operation;
pub mod query;
pub mod request;
pub mod response;
pub mod schema;
pub mod text;
