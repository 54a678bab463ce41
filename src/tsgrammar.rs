use vstd::prelude::*;

verus! {

/// One element of a grammar's `extras` or `precedences` lists, tagged by kind.
#[derive(Debug, PartialEq)]
pub enum NamedElement {
    Symbol { name: String },
    Pattern { value: String },
    String { value: String },
}

/// The typed record of a grammar description document.
#[derive(Debug, PartialEq)]
pub struct Grammar {
    pub name: String,
    pub word: Option<String>,
    pub extras: Vec<NamedElement>,
    pub conflicts: Vec<Vec<String>>,
    pub precedences: Vec<Vec<NamedElement>>,
    pub inline: Vec<String>,
    pub supertypes: Vec<String>,
}

} // verus!
