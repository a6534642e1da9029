use vstd::prelude::*;

verus! {

/// Everything that can go wrong in this library.
#[derive(Debug)]
pub enum ForustError {
    /// A column has too few distinct boundaries to be split.
    NoVariance,
    /// A configuration string names no variant: the offending value, the
    /// name of the enumeration, and the accepted values.
    ParseString(String, String, Vec<String>),
    /// A parameter is outside its range: the name of the parameter.
    InvalidParameter(String),
    /// Every eligible row was retained unconditionally, so no pool is left
    /// to draw the remainder from.
    DegenerateSampling,
}

} // verus!
