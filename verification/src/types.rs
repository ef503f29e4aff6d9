//! Core data model: metrics, attribute values, vector entries, filters.
//!
//! Vector components and scores are IEEE-754 single-precision bit patterns
//! (`u32`); attribute floats and filter range bounds are double-precision bit
//! patterns (`u64`). See `fpbits` for the ordering they obey.

use vstd::prelude::*;

verus! {

/// A unique identifier for a vector within a namespace.
pub type VectorId = String;

/// Distance metric for vector comparison.
#[derive(Debug, Clone, Copy, PartialEq, Eq, Structural)]
pub enum DistanceMetric {
    Cosine,
    Euclidean,
    DotProduct,
}

impl DistanceMetric {
    /// Wire name of the metric.
    pub fn as_str(&self) -> (r: &'static str)
        ensures
            self is Cosine ==> r@ == "cosine"@,
            self is Euclidean ==> r@ == "euclidean"@,
            self is DotProduct ==> r@ == "dot_product"@,
    {
        match self {
            DistanceMetric::Cosine => "cosine",
            DistanceMetric::Euclidean => "euclidean",
            DistanceMetric::DotProduct => "dot_product",
        }
    }
}

/// Attribute values that can be attached to vectors for filtering. A
/// `Float` carries the bit pattern of a double-precision value.
#[derive(Debug, Clone)]
pub enum AttributeValue {
    String(String),
    Integer(i64),
    Float(u64),
    Bool(bool),
    StringList(Vec<String>),
}

/// Attributes of one vector: association list from field name to value.
/// Lookup takes the first binding of a field.
pub type Attributes = Vec<(String, AttributeValue)>;

/// First value bound to `field`, if any.
pub open spec fn attrs_lookup(attrs: Seq<(String, AttributeValue)>, field: Seq<char>) -> Option<
    AttributeValue,
>
    decreases attrs.len(),
{
    if attrs.len() == 0 {
        None
    } else if attrs[0].0@ == field {
        Some(attrs[0].1)
    } else {
        attrs_lookup(attrs.skip(1), field)
    }
}

/// Find the first value bound to `field`.
pub fn attrs_get<'a>(attrs: &'a Attributes, field: &String) -> (r: Option<&'a AttributeValue>)
    ensures
        match r {
            Some(v) => attrs_lookup(attrs@, field@) == Some(*v),
            None => attrs_lookup(attrs@, field@) is None,
        },
{
    let n = attrs.len();
    let mut i: usize = 0;
    proof {
        assert(attrs@.skip(0) =~= attrs@);
    }
    while i < n
        invariant
            i <= n,
            n == attrs@.len(),
            attrs_lookup(attrs@, field@) == attrs_lookup(attrs@.skip(i as int), field@),
        decreases n - i,
    {
        proof {
            assert(attrs@.skip(i as int)[0] == attrs@[i as int]);
        }
        if attrs[i].0 == *field {
            return Some(&attrs[i].1);
        }
        proof {
            assert(attrs@.skip(i as int).skip(1) =~= attrs@.skip(i + 1));
        }
        i = i + 1;
    }
    proof {
        assert(attrs@.skip(n as int).len() == 0);
    }
    None
}

/// Mathematical image of a list of strings.
pub open spec fn strs_view(xs: Seq<String>) -> Seq<Seq<char>> {
    xs.map_values(|s: String| s@)
}

/// Mathematical image of a list of vector entries.
pub open spec fn entries_view(es: Seq<VectorEntry>) -> Seq<VectorEntryV> {
    es.map_values(|e: VectorEntry| e@)
}

/// Mathematical image of a list of vectors.
pub open spec fn vecs_view(vs: Seq<Vec<u32>>) -> Seq<Seq<u32>> {
    vs.map_values(|v: Vec<u32>| v@)
}

/// Mathematical image of an attribute value.
pub enum AttributeValueV {
    String(Seq<char>),
    Integer(i64),
    Float(u64),
    Bool(bool),
    StringList(Seq<Seq<char>>),
}

impl View for AttributeValue {
    type V = AttributeValueV;

    open spec fn view(&self) -> AttributeValueV {
        match self {
            AttributeValue::String(s) => AttributeValueV::String(s@),
            AttributeValue::Integer(n) => AttributeValueV::Integer(*n),
            AttributeValue::Float(x) => AttributeValueV::Float(*x),
            AttributeValue::Bool(b) => AttributeValueV::Bool(*b),
            AttributeValue::StringList(xs) => AttributeValueV::StringList(strs_view(xs@)),
        }
    }
}

/// Mathematical image of one vector's attributes.
pub open spec fn attrs_view(a: Seq<(String, AttributeValue)>) -> Seq<(Seq<char>, AttributeValueV)> {
    a.map_values(|p: (String, AttributeValue)| (p.0@, p.1@))
}

/// Mathematical image of a vector's optional attributes.
pub open spec fn opt_attrs_view(a: Option<Attributes>) -> Option<Seq<(Seq<char>, AttributeValueV)>> {
    match a {
        Some(aa) => Some(attrs_view(aa@)),
        None => None,
    }
}

/// Mathematical image of a vector entry.
pub struct VectorEntryV {
    pub id: Seq<char>,
    pub values: Seq<u32>,
    pub attributes: Option<Seq<(Seq<char>, AttributeValueV)>>,
}

/// A vector entry with its ID, component bit patterns, and optional
/// attributes.
#[derive(Debug, Clone)]
pub struct VectorEntry {
    pub id: VectorId,
    pub values: Vec<u32>,
    pub attributes: Option<Attributes>,
}

impl View for VectorEntry {
    type V = VectorEntryV;

    open spec fn view(&self) -> VectorEntryV {
        VectorEntryV {
            id: self.id@,
            values: self.values@,
            attributes: opt_attrs_view(self.attributes),
        }
    }
}

/// A search result: vector ID, score bit pattern (smaller is better), and
/// the attributes the vector carried.
#[derive(Debug, Clone)]
pub struct SearchResult {
    pub id: VectorId,
    pub score: u32,
    pub attributes: Option<Attributes>,
}

/// Copy an attribute value. The copy has the same mathematical image.
pub fn clone_attr_value(v: &AttributeValue) -> (r: AttributeValue)
    ensures
        r@ == v@,
{
    match v {
        AttributeValue::String(s) => AttributeValue::String(s.clone()),
        AttributeValue::Integer(n) => AttributeValue::Integer(*n),
        AttributeValue::Float(x) => AttributeValue::Float(*x),
        AttributeValue::Bool(b) => AttributeValue::Bool(*b),
        AttributeValue::StringList(xs) => {
            let mut out: Vec<String> = Vec::new();
            let n = xs.len();
            let mut i: usize = 0;
            while i < n
                invariant
                    i <= n,
                    n == xs@.len(),
                    out@.len() == i,
                    forall|j: int| 0 <= j < i ==> #[trigger] out@[j]@ == xs@[j]@,
                decreases n - i,
            {
                out.push(xs[i].clone());
                i = i + 1;
            }
            proof {
                assert(strs_view(out@) =~= strs_view(xs@));
            }
            AttributeValue::StringList(out)
        },
    }
}

/// Copy one vector's attributes.
pub fn clone_attrs(a: &Attributes) -> (r: Attributes)
    ensures
        attrs_view(r@) == attrs_view(a@),
{
    let mut out: Attributes = Vec::new();
    let n = a.len();
    let mut i: usize = 0;
    while i < n
        invariant
            i <= n,
            n == a@.len(),
            out@.len() == i,
            forall|j: int|
                0 <= j < i ==> #[trigger] out@[j].0@ == a@[j].0@ && out@[j].1@ == a@[j].1@,
        decreases n - i,
    {
        let v = clone_attr_value(&a[i].1);
        out.push((a[i].0.clone(), v));
        i = i + 1;
    }
    proof {
        assert(attrs_view(out@) =~= attrs_view(a@));
    }
    out
}

/// Copy a vector entry. The copy has the same mathematical image.
pub fn clone_entry(e: &VectorEntry) -> (r: VectorEntry)
    ensures
        r@ == e@,
{
    let attributes = match &e.attributes {
        Some(a) => Some(clone_attrs(a)),
        None => None,
    };
    VectorEntry { id: e.id.clone(), values: e.values.clone(), attributes }
}

/// Filter conditions for post-filtering search results. Range bounds are
/// double-precision bit patterns.
#[derive(Debug)]
pub enum Filter {
    Eq { field: String, value: AttributeValue },
    Range { field: String, gte: Option<u64>, lte: Option<u64>, gt: Option<u64>, lt: Option<u64> },
    In { field: String, values: Vec<AttributeValue> },
    And { filters: Vec<Filter> },
    Or { filters: Vec<Filter> },
    Not { filter: Box<Filter> },
}

/// Consistency level for queries.
#[derive(Debug, Clone, Copy, PartialEq, Eq, Structural)]
pub enum ConsistencyLevel {
    /// Read from index + scan all uncompacted WAL fragments.
    Strong,
    /// Read from index only (faster, may miss recent writes).
    Eventual,
}

impl Default for ConsistencyLevel {
    fn default() -> (r: Self)
        ensures
            r is Strong,
    {
        ConsistencyLevel::Strong
    }
}

/// Index type for a namespace.
#[derive(Debug, Clone, Copy, PartialEq, Eq, Structural)]
pub enum IndexType {
    IvfFlat,
}

impl Default for IndexType {
    fn default() -> (r: Self)
        ensures
            r is IvfFlat,
    {
        IndexType::IvfFlat
    }
}

} // verus!
