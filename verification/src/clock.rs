//! The creation timestamp of a note, taken from the system clock.

use vstd::prelude::*;

verus! {

/// Relies on `chrono::Local::now`, rendered through `chrono`'s `format`
/// with `%Y-%m-%d %H:%M:%S`: the current local time as text, for example
/// `2026-01-31 09:15:00`. The value depends on the clock, so nothing is
/// promised of it.
#[verifier::external_body]
pub(crate) fn current_timestamp() -> String {
    chrono::Local::now().format("%Y-%m-%d %H:%M:%S").to_string()
}

} // verus!
