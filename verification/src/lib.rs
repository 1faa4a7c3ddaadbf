//! The core of a GraphQL router: the documents that it puts together from
//! the answers of its subgraphs, and the first decision on a request.
//!
//! A response is a dynamically typed document, a [`value::Value`]. A
//! [`path::Path`] addresses places in it. The router builds a small document
//! around each fetched value ([`value::Value::from_path`]), merges it into
//! the response ([`value::Value::deep_merge`]), writes single values
//! ([`value::Value::insert`]) and reads the values that later fetches need
//! ([`value::Value::select_values_and_paths`]). Each of these is stated over
//! the mathematical model of a document, [`value::Json`], and proved.
//!
//! [`request::get_action`] decides what becomes of a `GET` request. It rests
//! on three functions of other crates and of the standard library of which
//! nothing is proved: they are named where they are called, in [`request`].

pub mod text;
pub mod value;
pub mod path;
pub mod compare;
pub mod select;
pub mod insert;
pub mod sparse;
pub mod merge;
pub mod request;
