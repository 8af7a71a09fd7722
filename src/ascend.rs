use crate::uid::Uid;
use vstd::prelude::*;

verus! {

/// Snapshot of one property: its name, id and value.
#[derive(Debug, Clone, PartialEq)]
pub struct AscendedComponent<T> {
    pub name: String,
    pub id: Uid,
    pub data: T,
}

/// Snapshot of one sub-object: its name, id and properties in order.
#[derive(Debug, Clone, PartialEq)]
pub struct AscendedEntity<T> {
    pub name: String,
    pub id: Uid,
    pub components: Vec<AscendedComponent<T>>,
}

/// Snapshot of one root: its name, id and sub-objects in order.
#[derive(Debug, Clone, PartialEq)]
pub struct AscendedBeing<T> {
    pub name: String,
    pub id: Uid,
    pub entities: Vec<AscendedEntity<T>>,
}

} // verus!
