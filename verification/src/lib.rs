//! A verified task-tracking library: an in-memory store of todo items with
//! add / complete / remove / filter operations, and a textual persisted form
//! with a proved encode/parse round trip.

pub mod codec;
pub mod store;
pub mod text;
