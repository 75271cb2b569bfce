use vstd::prelude::*;

verus! {

/// The kind of a directed edge between two items.
#[derive(Clone, Copy, Debug, PartialEq, Eq, Hash, Structural)]
pub enum Relationship {
    /// The source item's definition references the target item.
    Uses,
    /// The source item structurally contains the target item.
    Owns,
}

/// Short, machine-readable name of a relationship kind.
pub open spec fn short_name(r: Relationship) -> Seq<char> {
    match r {
        Relationship::Uses => "uses"@,
        Relationship::Owns => "owns"@,
    }
}

/// Long, human-readable name of a relationship kind.
pub open spec fn long_name(r: Relationship) -> Seq<char> {
    match r {
        Relationship::Uses => "Uses"@,
        Relationship::Owns => "Owns"@,
    }
}

impl Relationship {
    pub fn display_name(&self) -> (r: &'static str)
        ensures
            r@ == short_name(*self),
    {
        match self {
            Relationship::Uses => "uses",
            Relationship::Owns => "owns",
        }
    }

    /// The name used where a relationship is shown to a person.
    pub fn to_string(&self) -> (r: String)
        ensures
            r@ == long_name(*self),
    {
        match self {
            Relationship::Uses => "Uses".to_string(),
            Relationship::Owns => "Owns".to_string(),
        }
    }
}

} // verus!
