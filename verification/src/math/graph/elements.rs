//! Graph Elements module.
//!
//! A graph element pairs an identifier, which never changes, with a payload,
//! which may be replaced.

use crate::utility::idregistry::Identifier;
use vstd::prelude::*;

verus! {

/// Pairs the (unique) vertex identifier with a (non-unique) vertex datum, fully
/// describing a vertex in a graph. Two descriptors are equal if they have the
/// same identifier.
pub struct VertexDescriptor<Id: Identifier, Data: Clone> {
    id: Id,
    data: Data,
}

/// Pairs the (unique) edge identifier with a (non-unique) edge datum, fully
/// describing an edge in a graph. Two descriptors are equal if they have the
/// same identifier.
pub struct EdgeDescriptor<Id: Identifier, WeightData: Clone> {
    id: Id,
    data: WeightData,
}

/// Graph Element trait.
///
/// Uniquely identifiable element of a graph of some category that is tied
/// with metadata.
pub trait GraphElement<IdType: Identifier, Data: Clone>: Sized {
    /// The element's identifier.
    spec fn spec_id(&self) -> IdType;

    /// The element's payload.
    spec fn spec_data(&self) -> Data;

    /// Unique identifier amongst a specific category of graph elements.
    fn id(&self) -> (id: &IdType)
        ensures
            *id == self.spec_id(),
    ;

    /// Data associated with graph element.
    fn data(&self) -> (data: &Data)
        ensures
            *data == self.spec_data(),
    ;

    /// Return a copy of the element with new data.
    fn with_data(&self, new_data: Data) -> (element: Self)
        ensures
            element.spec_id() == self.spec_id(),
            element.spec_data() == new_data,
    ;

    /// Map data in element to produce a new element with the mapped data.
    fn map<F: FnOnce(Data) -> Data>(self, op: F) -> (element: Self)
        requires
            call_requires(op, (self.spec_data(),)),
        ensures
            element.spec_id() == self.spec_id(),
            call_ensures(op, (self.spec_data(),), element.spec_data()),
    ;
}

impl<Id: Identifier, Data: Clone> GraphElement<Id, Data> for VertexDescriptor<Id, Data> {
    closed spec fn spec_id(&self) -> Id {
        self.id
    }

    closed spec fn spec_data(&self) -> Data {
        self.data
    }

    fn id(&self) -> (id: &Id) {
        &self.id
    }

    fn data(&self) -> (data: &Data) {
        &self.data
    }

    fn with_data(&self, new_data: Data) -> (element: Self) {
        VertexDescriptor { id: self.id, data: new_data }
    }

    fn map<F: FnOnce(Data) -> Data>(self, op: F) -> (element: Self) {
        VertexDescriptor { id: self.id, data: op(self.data) }
    }
}

impl<Id: Identifier, Data: Clone> GraphElement<Id, Data> for EdgeDescriptor<Id, Data> {
    closed spec fn spec_id(&self) -> Id {
        self.id
    }

    closed spec fn spec_data(&self) -> Data {
        self.data
    }

    fn id(&self) -> (id: &Id) {
        &self.id
    }

    fn data(&self) -> (data: &Data) {
        &self.data
    }

    fn with_data(&self, new_data: Data) -> (element: Self) {
        EdgeDescriptor { id: self.id, data: new_data }
    }

    fn map<F: FnOnce(Data) -> Data>(self, op: F) -> (element: Self) {
        EdgeDescriptor { id: self.id, data: op(self.data) }
    }
}

impl<Id: Identifier, Data: Clone> Clone for VertexDescriptor<Id, Data> {
    /// A descriptor with the same identifier and a clone of the payload.
    fn clone(&self) -> (copy: Self)
        ensures
            copy.spec_id() == self.spec_id(),
            cloned(self.spec_data(), copy.spec_data()),
    {
        VertexDescriptor { id: self.id, data: self.data.clone() }
    }
}

impl<Id: Identifier, Data: Clone> Clone for EdgeDescriptor<Id, Data> {
    /// A descriptor with the same identifier and a clone of the payload.
    fn clone(&self) -> (copy: Self)
        ensures
            copy.spec_id() == self.spec_id(),
            cloned(self.spec_data(), copy.spec_data()),
    {
        EdgeDescriptor { id: self.id, data: self.data.clone() }
    }
}

impl<Id: Identifier, Data: Clone> PartialEq for VertexDescriptor<Id, Data> {
    fn eq(&self, other: &Self) -> (equal: bool) {
        proof {
            Id::lemma_identifier();
        }
        self.id == other.id
    }
}

impl<Id: Identifier, Data: Clone> vstd::std_specs::cmp::PartialEqSpecImpl for VertexDescriptor<Id, Data> {
    open spec fn obeys_eq_spec() -> bool {
        true
    }

    open spec fn eq_spec(&self, other: &Self) -> bool {
        self.spec_id() == other.spec_id()
    }
}

impl<Id: Identifier, Data: Clone> PartialEq for EdgeDescriptor<Id, Data> {
    fn eq(&self, other: &Self) -> (equal: bool) {
        proof {
            Id::lemma_identifier();
        }
        self.id == other.id
    }
}

impl<Id: Identifier, Data: Clone> vstd::std_specs::cmp::PartialEqSpecImpl for EdgeDescriptor<Id, Data> {
    open spec fn obeys_eq_spec() -> bool {
        true
    }

    open spec fn eq_spec(&self, other: &Self) -> bool {
        self.spec_id() == other.spec_id()
    }
}

/// An edge descriptor with the given identifier and payload.
pub fn make_edge<Id: Identifier, Data: Clone>(id: Id, data: Data) -> (edge: EdgeDescriptor<Id, Data>)
    ensures
        edge.spec_id() == id,
        edge.spec_data() == data,
{
    EdgeDescriptor { id: id, data: data }
}

/// A vertex descriptor with the given identifier and payload.
pub fn make_vertex<Id: Identifier, Data: Clone>(id: Id, data: Data) -> (vertex: VertexDescriptor<
    Id,
    Data,
>)
    ensures
        vertex.spec_id() == id,
        vertex.spec_data() == data,
{
    VertexDescriptor { id: id, data: data }
}

} // verus!
