//! Filtering by character set: recognizing extended CJK ideographs.

use vstd::prelude::*;

use crate::algo::utilities::chars_of;

verus! {

/// Whether the character lies in one of the extended or compatibility CJK
/// ideograph blocks.
pub open spec fn spec_is_extended_cjk(c: char) -> bool {
    ||| 0x3400 <= c as u32 <= 0x4DBF
    ||| 0x20000 <= c as u32 <= 0x2A6DF
    ||| 0x2A700 <= c as u32 <= 0x2B73F
    ||| 0x2B740 <= c as u32 <= 0x2B81F
    ||| 0x2B820 <= c as u32 <= 0x2CEAF
    ||| 0x2CEB0 <= c as u32 <= 0x2EBEF
    ||| 0x30000 <= c as u32 <= 0x3134F
    ||| 0x31350 <= c as u32 <= 0x323AF
    ||| 0x2EBF0 <= c as u32 <= 0x2EE5D
    ||| 0x3300 <= c as u32 <= 0x33FF
    ||| 0xFE30 <= c as u32 <= 0xFE4F
    ||| 0xF900 <= c as u32 <= 0xFAFF
    ||| 0x2F800 <= c as u32 <= 0x2FA1F
}

/// Whether the character is an extended or compatibility CJK ideograph.
pub fn is_extended_cjk(ch: char) -> (r: bool)
    ensures
        r == spec_is_extended_cjk(ch),
{
    let code_point = ch as u32;
    (0x3400 <= code_point && code_point <= 0x4DBF) || (0x20000 <= code_point && code_point
        <= 0x2A6DF) || (0x2A700 <= code_point && code_point <= 0x2B73F) || (0x2B740 <= code_point
        && code_point <= 0x2B81F) || (0x2B820 <= code_point && code_point <= 0x2CEAF) || (0x2CEB0
        <= code_point && code_point <= 0x2EBEF) || (0x30000 <= code_point && code_point <= 0x3134F)
        || (0x31350 <= code_point && code_point <= 0x323AF) || (0x2EBF0 <= code_point && code_point
        <= 0x2EE5D) || (0x3300 <= code_point && code_point <= 0x33FF) || (0xFE30 <= code_point
        && code_point <= 0xFE4F) || (0xF900 <= code_point && code_point <= 0xFAFF) || (0x2F800
        <= code_point && code_point <= 0x2FA1F)
}

/// Whether any character of the text is an extended CJK ideograph.
pub fn contains_extended_cjk(text: &str) -> (r: bool)
    ensures
        r == exists|i: int| 0 <= i < text@.len() && spec_is_extended_cjk(#[trigger] text@[i]),
{
    let v = chars_of(text);
    let n = v.len();
    let mut i: usize = 0;
    while i < n
        invariant
            i <= n,
            n == v@.len(),
            v@ == text@,
            forall|j: int| 0 <= j < i ==> !spec_is_extended_cjk(#[trigger] text@[j]),
        decreases n - i,
    {
        if is_extended_cjk(v[i]) {
            return true;
        }
        i += 1;
    }
    false
}

} // verus!
