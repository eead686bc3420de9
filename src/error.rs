//! Error kinds and their descriptions.

use vstd::prelude::*;

verus! {

/// The kinds of failure reported by the library.
#[derive(Debug, Clone, Copy, PartialEq, Eq, Structural)]
pub enum ResolverError {
    EmptyBoard,
    TooShort,
    TooLarge,
    NotSquare,
    ManyStart,
    ManyEnd,
    MissingEndpoint,
    IndexOutOfRange,
    EmptyInput,
    NoPath,
    UndeclaredPoint,
    PointNotFound,
}

/// The human-readable description of each error kind.
pub open spec fn message_of(e: ResolverError) -> Seq<char> {
    match e {
        ResolverError::EmptyBoard => "The bord cannot be empty"@,
        ResolverError::TooShort => "The bord size cannot be shorter than 2 lignes"@,
        ResolverError::TooLarge => "The bord size cannot be bigger than 20 lignes"@,
        ResolverError::NotSquare => "The number of colunms should be equals to the number of lines"@,
        ResolverError::ManyStart => "Cannot have many start points"@,
        ResolverError::ManyEnd => "Cannot have many end points"@,
        ResolverError::MissingEndpoint => "A start point and a end point are required"@,
        ResolverError::IndexOutOfRange => "The index cannot be bigger than the size of APS vector"@,
        ResolverError::EmptyInput => "The parameters MUST be initializes"@,
        ResolverError::NoPath => "It seem that it has no end to this level"@,
        ResolverError::UndeclaredPoint => "The x and y must be declare for get a index"@,
        ResolverError::PointNotFound => "The target point cannot be found inside the matrix"@,
    }
}

impl ResolverError {
    /// The description of this error.
    pub fn message(&self) -> (r: &'static str)
        ensures
            r@ == message_of(*self),
    {
        match self {
            ResolverError::EmptyBoard => "The bord cannot be empty",
            ResolverError::TooShort => "The bord size cannot be shorter than 2 lignes",
            ResolverError::TooLarge => "The bord size cannot be bigger than 20 lignes",
            ResolverError::NotSquare => "The number of colunms should be equals to the number of lines",
            ResolverError::ManyStart => "Cannot have many start points",
            ResolverError::ManyEnd => "Cannot have many end points",
            ResolverError::MissingEndpoint => "A start point and a end point are required",
            ResolverError::IndexOutOfRange => "The index cannot be bigger than the size of APS vector",
            ResolverError::EmptyInput => "The parameters MUST be initializes",
            ResolverError::NoPath => "It seem that it has no end to this level",
            ResolverError::UndeclaredPoint => "The x and y must be declare for get a index",
            ResolverError::PointNotFound => "The target point cannot be found inside the matrix",
        }
    }
}

} // verus!
