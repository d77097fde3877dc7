//! Locating per-user configuration overrides.

use vstd::prelude::*;

use crate::algo::utilities::chars_of;
use vstd::string::StringExecFns;

verus! {

/// The string with the suffix removed, when it ends with it.
pub open spec fn spec_remove_suffix(input: Seq<char>, suffix: Seq<char>) -> Seq<char> {
    if suffix.len() <= input.len() && input.subrange(
        input.len() - suffix.len(),
        input.len() as int,
    ) == suffix {
        input.take(input.len() - suffix.len())
    } else {
        input
    }
}

/// Relies on `str::chars` (through [`chars_of`]) and builds the shortened
/// string back up by characters. Removes `suffix` from the end of `input`,
/// if present.
pub fn remove_suffix(input: &str, suffix: &str) -> (r: String)
    ensures
        r@ == spec_remove_suffix(input@, suffix@),
{
    let iv = chars_of(input);
    let sv = chars_of(suffix);
    let n = iv.len();
    let m = sv.len();
    if m > n {
        return input.to_owned();
    }
    let mut k: usize = 0;
    while k < m
        invariant
            k <= m,
            m <= n,
            n == iv@.len(),
            m == sv@.len(),
            iv@ == input@,
            sv@ == suffix@,
            forall|j: int| 0 <= j < k ==> input@[n - m + j] == suffix@[j],
        decreases m - k,
    {
        if iv[n - m + k] != sv[k] {
            proof {
                assert(input@.subrange(n - m, n as int)[k as int] == input@[n - m + k]);
            }
            return input.to_owned();
        }
        k += 1;
    }
    proof {
        assert(input@.subrange(n - m, n as int) =~= suffix@);
    }
    let keep = n - m;
    let prefix = chars_to_string_prefix(&iv, keep);
    proof {
        assert(input@.take(n - m) =~= prefix@);
    }
    prefix
}

/// Relies on `core::iter::Iterator::collect` into a `String`: the first
/// `keep` characters of the buffer, as a string.
#[verifier::external_body]
fn chars_to_string_prefix(v: &Vec<char>, keep: usize) -> (r: String)
    requires
        keep <= v@.len(),
    ensures
        r@ == v@.take(keep as int),
{
    v[..keep].iter().collect()
}

/// The name of the custom configuration file for a configuration: the
/// identifier without any `.schema` suffix, with `.custom.yaml` appended.
pub fn custom_config_file(config_id: &str) -> (r: String)
    ensures
        r@ == spec_remove_suffix(config_id@, ".schema"@) + ".custom.yaml"@,
{
    let base = remove_suffix(config_id, ".schema");
    base.concat(".custom.yaml")
}

} // verus!
