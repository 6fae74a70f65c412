use vstd::prelude::*;

verus! {

/// A topic of a stream, as reported by catalog queries. Topics own the
/// partitions whose storage this engine manages.
pub struct Topic {
    pub id: u32,
    pub name: String,
    pub partitions_count: u32,
}

/// Summary of a stream, as reported by catalog queries.
pub struct Stream {
    pub id: u32,
    pub name: String,
    pub topics_count: u32,
}

/// A stream together with its topics.
pub struct StreamDetails {
    pub id: u32,
    pub name: String,
    pub topics_count: u32,
    pub topics: Vec<Topic>,
}

} // verus!
