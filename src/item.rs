use vstd::prelude::*;

use crate::relationship::Relationship;

verus! {

/// What kind of structural element an item is.
#[derive(Clone, Copy, Debug, PartialEq, Eq, Hash, Structural)]
pub enum ItemKind {
    Crate,
    Module,
    Type,
    Trait,
    Function,
    Other,
}

/// One structural element of an analysed project. Identity is by `id`;
/// names may repeat across containers.
#[derive(Clone, Debug)]
pub struct Item {
    pub id: String,
    pub name: String,
    pub kind: ItemKind,
    /// Path of the container that declares the item; empty at the top.
    pub container: String,
}

impl Item {
    /// An item at the top, with no declaring container.
    pub fn new(id: &str, name: &str, kind: ItemKind) -> (r: Item)
        ensures
            r.id@ == id@,
            r.name@ == name@,
            r.kind == kind,
            r.container@ == Seq::<char>::empty(),
    {
        Item { id: id.to_string(), name: name.to_string(), kind, container: String::new() }
    }

    /// An item declared in the container at path `container`.
    pub fn in_container(id: &str, name: &str, kind: ItemKind, container: &str) -> (r: Item)
        ensures
            r.id@ == id@,
            r.name@ == name@,
            r.kind == kind,
            r.container@ == container@,
    {
        Item { id: id.to_string(), name: name.to_string(), kind, container: container.to_string() }
    }
}

/// A raw relationship between two items, named by their identifiers.
#[derive(Clone, Debug)]
pub struct Triple {
    pub source: String,
    pub target: String,
    pub kind: Relationship,
}

impl Triple {
    pub fn new(source: &str, target: &str, kind: Relationship) -> (r: Triple)
        ensures
            r.source@ == source@,
            r.target@ == target@,
            r.kind == kind,
    {
        Triple { source: source.to_string(), target: target.to_string(), kind }
    }
}

} // verus!
