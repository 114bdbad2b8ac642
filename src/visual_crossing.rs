//! Parts of the Visual Crossing weather response that the library names.
use vstd::prelude::*;

verus! {

/// The description of one column of a response.
#[derive(Clone, Debug, PartialEq, Eq)]
pub struct Column {
    pub id: String,
    pub name: String,
    pub typ: u8,
    pub unit: Option<String>,
}

} // verus!
