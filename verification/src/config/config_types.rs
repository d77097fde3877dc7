//! Configuration value types: scalar values with typed accessors.

use vstd::prelude::*;

use crate::algo::utilities::{chars_of, digits_val, is_digit, lemma_digits_val_mono};

verus! {

/// The shape of a configuration item.
#[derive(Debug, Clone, Copy, PartialEq, Eq, Structural)]
pub enum ValueType {
    Null,
    Scalar,
    List,
    Mapping,
}

/// One configuration item: its shape.
#[derive(Debug)]
pub struct ConfigItem {
    pub kind: ValueType,
}

impl Default for ConfigItem {
    fn default() -> (c: Self)
        ensures
            c.kind == ValueType::Null,
    {
        ConfigItem { kind: ValueType::Null }
    }
}

/// A scalar configuration value, held as its textual form.
#[derive(Debug)]
pub struct ConfigValue {
    pub item: ConfigItem,
    pub value: String,
}

impl Default for ConfigValue {
    fn default() -> (c: Self)
        ensures
            c.item.kind == ValueType::Scalar,
            c.value@ == Seq::<char>::empty(),
    {
        ConfigValue { item: ConfigItem { kind: ValueType::Scalar }, value: String::new() }
    }
}

/// The value the text denotes as a boolean, if any.
pub open spec fn spec_bool_value(s: Seq<char>) -> Option<bool> {
    if s == "true"@ {
        Some(true)
    } else if s == "false"@ {
        Some(false)
    } else {
        None
    }
}

/// The value the text denotes as an unsigned decimal integer, if it is all
/// digits, nonempty, and fits a 64-bit signed integer.
pub open spec fn spec_int_value(s: Seq<char>) -> Option<i64> {
    if s.len() >= 1 && (forall|i: int| 0 <= i < s.len() ==> is_digit(#[trigger] s[i]))
        && digits_val(s) <= i64::MAX {
        Some(digits_val(s) as i64)
    } else {
        None
    }
}

impl ConfigValue {
    /// An empty scalar value.
    pub fn new() -> (c: Self)
        ensures
            c.item.kind == ValueType::Scalar,
            c.value@ == Seq::<char>::empty(),
    {
        ConfigValue::default()
    }

    /// The boolean this scalar denotes, if its text is `true` or `false`.
    pub fn get_bool(&self) -> (r: Option<bool>)
        ensures
            r == spec_bool_value(self.value@),
    {
        if self.value == "true".to_owned() {
            Some(true)
        } else if self.value == "false".to_owned() {
            Some(false)
        } else {
            None
        }
    }

    /// The integer this scalar denotes, if its text is a nonempty string of
    /// decimal digits within the 64-bit range.
    pub fn get_int(&self) -> (r: Option<i64>)
        ensures
            r == spec_int_value(self.value@),
    {
        let v = chars_of(self.value.as_str());
        let n = v.len();
        if n == 0 {
            return None;
        }
        let mut i: usize = 0;
        let mut acc: i64 = 0;
        while i < n
            invariant
                i <= n,
                n == v@.len(),
                v@ == self.value@,
                forall|j: int| 0 <= j < i ==> is_digit(#[trigger] self.value@[j]),
                acc == digits_val(self.value@.take(i as int)),
                0 <= acc <= i64::MAX,
            decreases n - i,
        {
            let c = v[i];
            if c < '0' || c > '9' {
                return None;
            }
            let d = (c as u32) - ('0' as u32);
            proof {
                assert(self.value@.take(i + 1).drop_last() =~= self.value@.take(i as int));
                assert(self.value@.take(i + 1).last() == self.value@[i as int]);
                assert(d == crate::algo::utilities::digit_val(self.value@[i as int]));
                crate::algo::utilities::lemma_digits_val_nonneg(self.value@.take(i + 1));
            }
            if acc > (i64::MAX - (d as i64)) / 10 {
                proof {
                    assert(forall|j: int|
                        0 <= j < i + 1 ==> is_digit(#[trigger] self.value@[j]));
                    if forall|j: int| 0 <= j < n ==> is_digit(#[trigger] self.value@[j]) {
                        lemma_digits_val_mono(self.value@, i + 1);
                    }
                }
                return None;
            }
            proof {
                let m = (i64::MAX - (d as i64)) as int;
                vstd::arithmetic::div_mod::lemma_fundamental_div_mod(m, 10);
                assert(acc * 10 <= (m / 10) * 10);
            }
            acc = acc * 10 + (d as i64);
            i += 1;
        }
        proof {
            assert(self.value@.take(n as int) =~= self.value@);
        }
        Some(acc)
    }

    /// The text of this scalar, when it is one.
    pub fn get_string(&self) -> (r: Option<String>)
        ensures
            (match r {
                Some(s) => self.item.kind == ValueType::Scalar && s@ == self.value@,
                None => self.item.kind != ValueType::Scalar,
            }),
    {
        match self.item.kind {
            ValueType::Scalar => Some(self.value.clone()),
            _ => None,
        }
    }

    /// The raw textual form.
    pub fn str_(&self) -> (r: &String)
        ensures
            r@ == self.value@,
    {
        &self.value
    }

    /// Whether the scalar holds no text.
    pub fn empty(&self) -> (r: bool)
        ensures
            r == (self.value@.len() == 0),
    {
        self.value.as_str().is_empty()
    }
}

} // verus!
