//! Helpers that the rest of the library shares.
use std::fmt::Display;
use vstd::prelude::*;
use vstd::string::to_string_from_display_ensures;

pub mod path;

verus! {

/// Turns the error of `result` into the text that it displays as.
pub fn str_err<R, E: Display>(result: Result<R, E>) -> (r: Result<R, String>)
    ensures
        match result {
            Ok(v) => r == Ok::<R, String>(v),
            Err(e) => r matches Err(s) && to_string_from_display_ensures::<E>(&e, s),
        },
{
    match result {
        Ok(v) => Ok(v),
        Err(e) => Err(e.to_string()),
    }
}

} // verus!
