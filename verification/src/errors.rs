//! The error taxonomy.  Every failure is an explicit, inspectable value that
//! names the object, arrow or pair that caused it; no operation of the
//! library panics.

use vstd::prelude::*;

verus! {

/// Why a construction or lookup failed.
#[derive(Debug)]
pub enum CatError {
    /// An object name referenced during construction does not exist.
    UnknownObject(String),
    /// An arrow name referenced in an equality pair does not exist.
    UnknownArrow(String),
    /// The named arrow does not belong to the category it was queried
    /// against.
    ArrowNotInCategory(String),
    /// The named object has no arrow with domain and codomain equal to it.
    NoIdentity(String),
    /// The named object has more than one arrow with domain and codomain
    /// equal to it.
    AmbiguousIdentity(String),
    /// The two named arrows cannot compose: the first one's codomain is not
    /// the second one's domain.
    DomainMismatch(String, String),
    /// The two named arrows line up, but no arrow of the category declares
    /// itself their composite.
    UndeclaredComposition(String, String),
}

/// Model of a failure, over character sequences.
pub ghost enum ErrModel {
    UnknownObject(Seq<char>),
    UnknownArrow(Seq<char>),
    ArrowNotInCategory(Seq<char>),
    NoIdentity(Seq<char>),
    AmbiguousIdentity(Seq<char>),
    DomainMismatch(Seq<char>, Seq<char>),
    UndeclaredComposition(Seq<char>, Seq<char>),
}

impl View for CatError {
    type V = ErrModel;

    open spec fn view(&self) -> ErrModel {
        match self {
            CatError::UnknownObject(n) => ErrModel::UnknownObject(n@),
            CatError::UnknownArrow(n) => ErrModel::UnknownArrow(n@),
            CatError::ArrowNotInCategory(n) => ErrModel::ArrowNotInCategory(n@),
            CatError::NoIdentity(n) => ErrModel::NoIdentity(n@),
            CatError::AmbiguousIdentity(n) => ErrModel::AmbiguousIdentity(n@),
            CatError::DomainMismatch(f, g) => ErrModel::DomainMismatch(f@, g@),
            CatError::UndeclaredComposition(f, g) => ErrModel::UndeclaredComposition(f@, g@),
        }
    }
}

/// Maps a result whose sides both have views to the result of the views.
pub open spec fn result_model<T: View>(r: Result<T, CatError>) -> Result<T::V, ErrModel> {
    match r {
        Ok(v) => Ok(v@),
        Err(e) => Err(e@),
    }
}

} // verus!
