//! The string form of an error.

use crate::error::AppError;
use vstd::prelude::*;

verus! {

impl From<AppError> for String {
    fn from(error: AppError) -> (s: String) {
        error.user_message
    }
}

impl vstd::std_specs::convert::FromSpecImpl<AppError> for String {
    open spec fn obeys_from_spec() -> bool {
        true
    }

    open spec fn from_spec(error: AppError) -> String {
        error.user_message
    }
}

} // verus!
