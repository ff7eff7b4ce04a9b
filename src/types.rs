use vstd::prelude::*;

verus! {

/// The distance function a database is built with. Its on-disk tag is
/// fixed per variant and never renumbered.
#[derive(Clone, Copy, Debug, PartialEq, Eq, Structural)]
pub enum Metric {
    /// One minus the cosine similarity of the two vectors.
    Cosine,
    /// The L2 norm of the element-wise difference.
    Euclidean,
}

/// Caller-supplied data stored beside each vector.
#[derive(Clone, Debug)]
pub struct Metadata {
    pub label: String,
    pub description: Option<String>,
}

/// The mathematical value of a `Metadata`.
pub struct MetadataModel {
    pub label: Seq<char>,
    pub description: Option<Seq<char>>,
}

impl View for Metadata {
    type V = MetadataModel;

    open spec fn view(&self) -> MetadataModel {
        MetadataModel {
            label: self.label@,
            description: match self.description {
                Some(d) => Some(d@),
                None => None,
            },
        }
    }
}

impl Metadata {
    /// A copy whose contents equal those of `self`.
    pub fn duplicate(&self) -> (r: Metadata)
        ensures
            r@ == self@,
    {
        let description = match &self.description {
            Some(d) => Some(d.clone()),
            None => None,
        };
        Metadata { label: self.label.clone(), description }
    }
}

impl Default for Metadata {
    fn default() -> (r: Metadata)
        ensures
            r@.label.len() == 0,
            r@.description is None,
    {
        Metadata { label: String::new(), description: None }
    }
}

/// Beam widths used while building the graph and while querying it.
#[derive(Clone, Copy, Debug, PartialEq, Eq, Structural)]
pub struct Params {
    pub ef_construction: usize,
    pub ef_search: usize,
}

impl Default for Params {
    fn default() -> (r: Params)
        ensures
            r.ef_construction == 200,
            r.ef_search == 50,
    {
        Params { ef_construction: 200, ef_search: 50 }
    }
}

/// One ranked hit of a query. `distance` is the distance unit: the bit
/// pattern of the non-negative float distance, whose integer order is the
/// order of the distances.
#[derive(Clone, Debug)]
pub struct SearchResult {
    pub id: usize,
    pub distance: u32,
    pub metadata: Metadata,
}

/// The kinds of failure the database reports.
#[derive(Clone, Copy, Debug, PartialEq, Eq, Structural)]
pub enum DbError {
    /// Wrong magic bytes or a corrupt record stream.
    InvalidFormat,
    /// A format version this library does not read.
    UnsupportedVersion,
    /// The stored metric differs from the requested one.
    MetricMismatch,
    /// The id is already live.
    DuplicateId,
    /// The vector's length differs from the dataset's dimension.
    DimensionMismatch,
    /// The id is not live.
    NotFound,
}

} // verus!
