use vstd::prelude::*;

verus! {

use crate::Time;

/// One timestamped event: a slash-delimited hierarchical path, optional
/// categorical tags, the event time and the ingestion time.
/// Immutable once constructed.
#[derive(Clone)]
pub struct Heartbeat {
    /// Slash-delimited hierarchical path, e.g. `/a/b/c`.
    pub pathline: String,
    pub entity: Option<String>,
    pub category: Option<String>,
    pub browser: Option<String>,
    pub domain: Option<String>,
    pub user_agent: Option<String>,
    /// Event time.
    pub time: Time,
    /// Ingestion time.
    pub created_at: Time,
}

/// A unit of ingestion: a correlation identifier, the sharding key and an
/// ordered list of heartbeats. Identifiers are carried as their 128-bit
/// integer value.
pub struct Heartbeats {
    pub trace_id: u128,
    pub user_id: u128,
    pub list: Vec<Heartbeat>,
}

/// The view of an optional tag: `None` stays `None`, a string becomes its
/// character sequence.
pub open spec fn tag_view(t: Option<String>) -> Option<Seq<char>> {
    match t {
        Some(s) => Some(s@),
        None => None,
    }
}

/// Clones an optional tag; the clone holds the same value.
pub fn clone_tag(t: &Option<String>) -> (r: Option<String>)
    ensures
        r == *t,
{
    match t {
        Some(s) => Some(s.clone()),
        None => None,
    }
}

} // verus!
