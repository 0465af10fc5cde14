//! The calculations: pure functions from exact quantities to exact quantities.
use vstd::prelude::*;

use crate::error::EecalcError;
use crate::quantity::{is_positive, Quantity};

pub mod divider;
pub mod ohm;
pub mod power;
pub mod rc;
pub mod resistance;

verus! {

/// Fails with `NonPositiveValue { what }` unless `value` is greater than zero.
pub(crate) fn require_positive(value: &Quantity, what: &'static str) -> (r: Result<(), EecalcError>)
    ensures
        r is Ok <==> is_positive(value@),
        r matches Err(e) ==> e == (EecalcError::NonPositiveValue { what }),
        value@.den > 0,
{
    if value.is_positive() {
        Ok(())
    } else {
        Err(EecalcError::NonPositiveValue { what })
    }
}

} // verus!
