//! The capability every coefficient type of the algebra offers: identities,
//! zero tests, and inversion.

use vstd::prelude::*;
use crate::intmod::{Mod, MathError};

verus! {

/// The operations a field of coefficients provides.  [`Mod`] implements it
/// for prime fields; other coefficient fields can join by implementing it.
pub trait Field: Sized {
    /// The element is a reduced member of a well-formed field.
    spec fn field_wf(&self) -> bool;

    /// The zero of the field this element belongs to.
    fn zero(&self) -> (r: Self)
        requires
            self.field_wf(),
        ensures
            r.field_wf(),
    ;

    /// The one of the field this element belongs to.
    fn one(&self) -> (r: Self)
        requires
            self.field_wf(),
        ensures
            r.field_wf(),
    ;

    /// Whether this element is the additive identity.
    fn is_zero(&self) -> bool
        requires
            self.field_wf(),
    ;

    /// Whether this element is the multiplicative identity.
    fn is_one(&self) -> bool
        requires
            self.field_wf(),
    ;

    /// The multiplicative inverse, where one exists.
    fn inverse(&self) -> (r: Result<Self, MathError>)
        requires
            self.field_wf(),
        ensures
            r matches Ok(x) ==> x.field_wf(),
    ;
}

impl Field for Mod {
    open spec fn field_wf(&self) -> bool {
        self.wf()
    }

    fn zero(&self) -> (r: Self) {
        Mod::zero(self)
    }

    fn one(&self) -> (r: Self) {
        Mod::one(self)
    }

    fn is_zero(&self) -> bool {
        Mod::is_zero(self)
    }

    fn is_one(&self) -> bool {
        Mod::is_one(self)
    }

    fn inverse(&self) -> (r: Result<Self, MathError>) {
        Mod::inverse(self)
    }
}

} // verus!
