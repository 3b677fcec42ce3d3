//! Edges: interned identifiers for rendered output fragments and sentinels,
//! the alphabet of reference matching.
use vstd::prelude::*;

verus! {

/// What an edge stands for: a formatted output string, or one of a closed set
/// of sentinels that matching treats as placeholders.
#[derive(Debug, Clone)]
pub enum EdgeData {
    Output(String),
    YearSuffix,
    Locator,
    LocatorLabel,
    CitationNumber,
    CitationNumberLabel,
    Frnn,
    FrnnLabel,
    Accessed,
}

/// The mathematical value of an edge's payload.
pub enum EdgePayload {
    Output(Seq<char>),
    YearSuffix,
    Locator,
    LocatorLabel,
    CitationNumber,
    CitationNumberLabel,
    Frnn,
    FrnnLabel,
    Accessed,
}

impl View for EdgeData {
    type V = EdgePayload;

    open spec fn view(&self) -> EdgePayload {
        match self {
            EdgeData::Output(s) => EdgePayload::Output(s@),
            EdgeData::YearSuffix => EdgePayload::YearSuffix,
            EdgeData::Locator => EdgePayload::Locator,
            EdgeData::LocatorLabel => EdgePayload::LocatorLabel,
            EdgeData::CitationNumber => EdgePayload::CitationNumber,
            EdgeData::CitationNumberLabel => EdgePayload::CitationNumberLabel,
            EdgeData::Frnn => EdgePayload::Frnn,
            EdgeData::FrnnLabel => EdgePayload::FrnnLabel,
            EdgeData::Accessed => EdgePayload::Accessed,
        }
    }
}

/// Whether two payloads are equal.
pub fn same_payload(a: &EdgeData, b: &EdgeData) -> (r: bool)
    ensures
        r == (a@ == b@),
{
    match (a, b) {
        (EdgeData::Output(x), EdgeData::Output(y)) => {
            let r = *x == *y;
            r
        },
        (EdgeData::YearSuffix, EdgeData::YearSuffix) => true,
        (EdgeData::Locator, EdgeData::Locator) => true,
        (EdgeData::LocatorLabel, EdgeData::LocatorLabel) => true,
        (EdgeData::CitationNumber, EdgeData::CitationNumber) => true,
        (EdgeData::CitationNumberLabel, EdgeData::CitationNumberLabel) => true,
        (EdgeData::Frnn, EdgeData::Frnn) => true,
        (EdgeData::FrnnLabel, EdgeData::FrnnLabel) => true,
        (EdgeData::Accessed, EdgeData::Accessed) => true,
        _ => false,
    }
}

/// An interned payload: the index of its first sighting.
#[derive(Debug, PartialEq, Eq, Structural, Copy, Clone, Hash)]
pub struct Edge(pub u32);

/// Deduplicates payloads to stable edge identifiers, in order of first sight.
pub struct EdgeInterner {
    payloads: Vec<EdgeData>,
}

impl EdgeInterner {
    /// The payloads seen so far; an edge's number is its index here.
    pub closed spec fn view_payloads(&self) -> Seq<EdgePayload> {
        self.payloads@.map_values(|d: EdgeData| d@)
    }

    /// No payload is stored twice, and every index fits an edge.
    pub closed spec fn wf(&self) -> bool {
        &&& self.payloads@.len() <= u32::MAX
        &&& forall|i: int, j: int|
            0 <= i < j < self.payloads@.len() ==> self.payloads@[i]@ != self.payloads@[j]@
    }

    /// An interner that has seen nothing.
    pub fn new() -> (r: EdgeInterner)
        ensures
            r.wf(),
            r.view_payloads() == Seq::<EdgePayload>::empty(),
    {
        let r = EdgeInterner { payloads: Vec::new() };
        proof {
            assert(r.view_payloads() =~= Seq::<EdgePayload>::empty());
        }
        r
    }

    /// How many distinct payloads have been seen.
    pub fn len(&self) -> (n: usize)
        ensures
            n == self.view_payloads().len(),
    {
        self.payloads.len()
    }

    /// The payload that an edge stands for.
    pub fn lookup(&self, e: Edge) -> (d: &EdgeData)
        requires
            (e.0 as int) < self.view_payloads().len(),
        ensures
            d@ == self.view_payloads()[e.0 as int],
    {
        &self.payloads[e.0 as usize]
    }

    /// The edge for `payload`: the one it already has, or a new one after the
    /// last.
    pub fn edge(&mut self, payload: EdgeData) -> (e: Edge)
        requires
            old(self).wf(),
            old(self).view_payloads().len() < u32::MAX,
        ensures
            final(self).wf(),
            (e.0 as int) < final(self).view_payloads().len(),
            final(self).view_payloads()[e.0 as int] == payload@,
            old(self).view_payloads().contains(payload@) ==> final(self).view_payloads()
                == old(self).view_payloads(),
            !old(self).view_payloads().contains(payload@) ==> final(self).view_payloads()
                == old(self).view_payloads().push(payload@),
    {
        let n = self.payloads.len();
        let mut i: usize = 0;
        while i < n
            invariant
                n == self.payloads@.len(),
                n < u32::MAX,
                self.wf(),
                *self == *old(self),
                0 <= i <= n,
                forall|k: int| 0 <= k < i ==> self.payloads@[k]@ != payload@,
            decreases n - i,
        {
            if same_payload(&self.payloads[i], &payload) {
                proof {
                    assert(self.view_payloads()[i as int] == payload@);
                }
                return Edge(i as u32);
            }
            i = i + 1;
        }
        proof {
            assert forall|k: int| 0 <= k < self.view_payloads().len() implies self.view_payloads()[k]
                != payload@ by {
                assert(self.view_payloads()[k] == self.payloads@[k]@);
            }
        }
        self.payloads.push(payload);
        proof {
            assert(self.view_payloads() =~= old(self).view_payloads().push(payload@));
        }
        Edge(n as u32)
    }
}

/// The interner gives equal payloads equal edges, and different payloads
/// different edges: an edge determines its payload.
pub proof fn lemma_edges_determine_payloads(it: EdgeInterner, a: Edge, b: Edge)
    requires
        it.wf(),
        (a.0 as int) < it.view_payloads().len(),
        (b.0 as int) < it.view_payloads().len(),
    ensures
        (a == b) == (it.view_payloads()[a.0 as int] == it.view_payloads()[b.0 as int]),
{
    if a.0 < b.0 {
        assert(it.payloads@[a.0 as int]@ != it.payloads@[b.0 as int]@);
    } else if b.0 < a.0 {
        assert(it.payloads@[b.0 as int]@ != it.payloads@[a.0 as int]@);
    }
}

} // verus!
