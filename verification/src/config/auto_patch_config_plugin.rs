//! Automatic patching of configurations with user customizations.

use vstd::prelude::*;

use crate::lever::custom_settings;
pub use crate::lever::custom_settings::spec_remove_suffix;

verus! {

/// Removes `suffix` from the end of `input`, if present.
pub fn remove_suffix(input: &str, suffix: &str) -> (r: String)
    ensures
        r@ == spec_remove_suffix(input@, suffix@),
{
    custom_settings::remove_suffix(input, suffix)
}

} // verus!
