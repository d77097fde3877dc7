//! Version-string comparison and checksum utilities.

use vstd::prelude::*;

verus! {

/// A version-string separator.
pub open spec fn is_sep(c: char) -> bool {
    c == '.' || c == '-'
}

/// The parts of a string split at every separator occurrence: `n` separators
/// give `n + 1` parts, empty parts included.
pub open spec fn spec_split_parts(s: Seq<char>) -> Seq<Seq<char>>
    decreases s.len(),
{
    if s.len() == 0 {
        seq![Seq::<char>::empty()]
    } else if is_sep(s[0]) {
        seq![Seq::<char>::empty()] + spec_split_parts(s.drop_first())
    } else {
        let rest = spec_split_parts(s.drop_first());
        rest.update(0, seq![s[0]] + rest[0])
    }
}

/// Splitting yields at least one part.
pub proof fn lemma_split_parts_nonempty(s: Seq<char>)
    ensures
        spec_split_parts(s).len() >= 1,
    decreases s.len(),
{
    if s.len() > 0 {
        lemma_split_parts_nonempty(s.drop_first());
    }
}

/// Relies on `regex::Regex::split` with a pattern matching one `.` or `-`:
/// the haystack is split at every separator occurrence, empty pieces
/// included. The constant pattern is valid, so compiling it cannot fail.
#[verifier::external_body]
fn split_version_parts(s: &str) -> (r: Vec<String>)
    ensures
        r@.map_values(|p: String| p@) == spec_split_parts(s@),
{
    let re = regex::Regex::new(r"[.-]").unwrap();
    re.split(s).map(|p| p.to_string()).collect()
}

/// Relies on `str::chars`: the characters of the string, in order.
#[verifier::external_body]
pub fn chars_of(s: &str) -> (r: Vec<char>)
    ensures
        r@ == s@,
{
    s.chars().collect()
}

/// An ASCII decimal digit.
pub open spec fn is_digit(c: char) -> bool {
    '0' <= c <= '9'
}

/// Value of one digit.
pub open spec fn digit_val(c: char) -> int {
    c as int - '0' as int
}

/// The longest digit prefix of the string.
pub open spec fn leading_digits(s: Seq<char>) -> Seq<char>
    decreases s.len(),
{
    if s.len() == 0 || !is_digit(s[0]) {
        Seq::<char>::empty()
    } else {
        seq![s[0]] + leading_digits(s.drop_first())
    }
}

/// Numeric value of a digit string.
pub open spec fn digits_val(ds: Seq<char>) -> int
    decreases ds.len(),
{
    if ds.len() == 0 {
        0
    } else {
        digits_val(ds.drop_last()) * 10 + digit_val(ds.last())
    }
}

/// Digit-string values are never negative.
pub proof fn lemma_digits_val_nonneg(ds: Seq<char>)
    requires
        forall|i: int| 0 <= i < ds.len() ==> is_digit(#[trigger] ds[i]),
    ensures
        digits_val(ds) >= 0,
    decreases ds.len(),
{
    if ds.len() > 0 {
        lemma_digits_val_nonneg(ds.drop_last());
    }
}

/// A digit prefix never exceeds the whole digit string in value.
pub proof fn lemma_digits_val_mono(ds: Seq<char>, k: int)
    requires
        0 <= k <= ds.len(),
        forall|i: int| 0 <= i < ds.len() ==> is_digit(#[trigger] ds[i]),
    ensures
        digits_val(ds.take(k)) <= digits_val(ds),
    decreases ds.len() - k,
{
    if k < ds.len() {
        lemma_digits_val_mono(ds, k + 1);
        assert(ds.take(k + 1).drop_last() =~= ds.take(k));
        assert(ds.take(k + 1).last() == ds[k]);
        lemma_digits_val_nonneg(ds.take(k));
    } else {
        assert(ds.take(k) =~= ds);
    }
}

/// What the number at the head of a version part denotes: the value of its
/// digit prefix, if there is one and it fits a 32-bit integer.
pub open spec fn spec_leading_number(s: Seq<char>) -> Option<i32> {
    if leading_digits(s).len() == 0 || digits_val(leading_digits(s)) > i32::MAX {
        None
    } else {
        Some(digits_val(leading_digits(s)) as i32)
    }
}

/// The number a version part contributes to the comparison: its leading
/// digits, or zero when there are none or they overflow.
pub open spec fn part_num(s: Seq<char>) -> int {
    match spec_leading_number(s) {
        Some(v) => v as int,
        None => 0,
    }
}

/// The number at position `i` of a split version string, parts past the end
/// counting as zero.
pub open spec fn version_num_at(s: Seq<char>, i: int) -> int {
    if 0 <= i < spec_split_parts(s).len() {
        part_num(spec_split_parts(s)[i])
    } else {
        0
    }
}

/// How two version strings compare: the first position whose numbers differ
/// decides; equal numbers everywhere mean equal versions.
pub open spec fn spec_compare_versions(x: Seq<char>, y: Seq<char>) -> int {
    let n = if spec_split_parts(x).len() > spec_split_parts(y).len() {
        spec_split_parts(x).len() as int
    } else {
        spec_split_parts(y).len() as int
    };
    if exists|i: int|
        0 <= i < n && version_num_at(x, i) != #[trigger] version_num_at(y, i) {
        let i = choose|i: int|
            0 <= i < n && version_num_at(x, i) != #[trigger] version_num_at(y, i) && (forall|
                j: int,
            |
                0 <= j < i ==> version_num_at(x, j) == #[trigger] version_num_at(y, j));
        if version_num_at(x, i) > version_num_at(y, i) {
            1
        } else {
            -1
        }
    } else {
        0
    }
}

/// The value of the digit prefix of the part, clipped exactly as a 32-bit
/// parse would clip it.
fn extract_leading_number(s: &String) -> (r: Option<i32>)
    ensures
        r == spec_leading_number(s@),
{
    let v = chars_of(s.as_str());
    let n = v.len();
    let ghost ds = leading_digits(s@);
    let mut i: usize = 0;
    let mut acc: i32 = 0;
    proof {
        assert(forall|j: int| 0 <= j < ds.len() ==> is_digit(#[trigger] ds[j])) by {
            lemma_leading_digits_all(s@);
        }
    }
    while i < n && v[i] >= '0' && v[i] <= '9'
        invariant
            i <= n,
            n == v@.len(),
            v@ == s@,
            ds == leading_digits(s@),
            i <= ds.len(),
            forall|j: int| 0 <= j < i ==> is_digit(#[trigger] s@[j]) && ds[j] == s@[j],
            acc == digits_val(ds.take(i as int)),
            0 <= acc <= i32::MAX,
            forall|j: int| 0 <= j < ds.len() ==> is_digit(#[trigger] ds[j]),
        decreases n - i,
    {
        proof {
            lemma_leading_digits_prefix(s@, i as int);
        }
        let d = (v[i] as u32) - ('0' as u32);
        proof {
            lemma_leading_digits_all(s@);
            assert(ds[i as int] == s@[i as int]);
            assert(ds.take(i + 1).drop_last() =~= ds.take(i as int));
            assert(ds.take(i + 1).last() == ds[i as int]);
            assert(d == digit_val(ds[i as int]));
            lemma_digits_val_nonneg(ds.take(i + 1));
        }
        if acc > (i32::MAX - (d as i32)) / 10 {
            proof {
                lemma_digits_val_mono(ds, i + 1);
            }
            return None;
        }
        proof {
            let m = (i32::MAX - (d as i32)) as int;
            vstd::arithmetic::div_mod::lemma_fundamental_div_mod(m, 10);
            assert(acc * 10 <= (m / 10) * 10);
        }
        acc = acc * 10 + (d as i32);
        i += 1;
    }
    proof {
        lemma_leading_digits_stop(s@, i as int);
        assert(ds.take(i as int) =~= ds);
    }
    if i == 0 {
        None
    } else {
        Some(acc)
    }
}

/// Every character of the digit prefix is a digit.
proof fn lemma_leading_digits_all(s: Seq<char>)
    ensures
        forall|i: int| 0 <= i < leading_digits(s).len() ==> is_digit(
            #[trigger] leading_digits(s)[i],
        ),
        leading_digits(s).len() <= s.len(),
        forall|i: int| 0 <= i < leading_digits(s).len() ==> leading_digits(s)[i] == s[i],
    decreases s.len(),
{
    if s.len() > 0 && is_digit(s[0]) {
        lemma_leading_digits_all(s.drop_first());
        assert(forall|i: int|
            1 <= i < leading_digits(s).len() ==> #[trigger] leading_digits(s)[i] == leading_digits(
                s.drop_first(),
            )[i - 1] && s.drop_first()[i - 1] == s[i]);
    }
}

/// While every character so far is a digit and the next one is too, the
/// digit prefix reaches past it.
proof fn lemma_leading_digits_prefix(s: Seq<char>, i: int)
    requires
        0 <= i < s.len(),
        forall|j: int| 0 <= j <= i ==> is_digit(#[trigger] s[j]),
    ensures
        leading_digits(s).len() > i,
    decreases i,
{
    lemma_leading_digits_all(s);
    if i > 0 {
        lemma_leading_digits_prefix(s.drop_first(), i - 1);
    }
}

/// When scanning stops — at the end or at a non-digit — the digit prefix is
/// exactly what was scanned.
proof fn lemma_leading_digits_stop(s: Seq<char>, i: int)
    requires
        0 <= i <= s.len(),
        forall|j: int| 0 <= j < i ==> is_digit(#[trigger] s[j]),
        i == s.len() || !is_digit(s[i]),
    ensures
        leading_digits(s).len() == i,
    decreases i,
{
    lemma_leading_digits_all(s);
    if i > 0 {
        lemma_leading_digits_stop(s.drop_first(), i - 1);
    } else {
        if s.len() > 0 {
            assert(!is_digit(s[0]));
        }
    }
}

/// Compare two version strings part by part: the first differing numeric
/// part decides, missing parts count as zero, and non-numeric tails are
/// ignored. Returns `1`, `-1` or `0`.
pub fn compare_version_string(x: &str, y: &str) -> (r: i32)
    ensures
        r == spec_compare_versions(x@, y@),
{
    let x_parts = split_version_parts(x);
    let y_parts = split_version_parts(y);
    let xn = x_parts.len();
    let yn = y_parts.len();
    let n = if xn > yn {
        xn
    } else {
        yn
    };
    let mut i: usize = 0;
    while i < n
        invariant
            i <= n,
            xn == x_parts@.len(),
            yn == y_parts@.len(),
            n == (if xn > yn {
                xn
            } else {
                yn
            }),
            x_parts@.map_values(|p: String| p@) == spec_split_parts(x@),
            y_parts@.map_values(|p: String| p@) == spec_split_parts(y@),
            forall|j: int| 0 <= j < i ==> version_num_at(x@, j) == #[trigger] version_num_at(y@, j),
        decreases n - i,
    {
        let x_num = if i < xn {
            match extract_leading_number(&x_parts[i]) {
                Some(v) => v,
                None => 0,
            }
        } else {
            0
        };
        let y_num = if i < yn {
            match extract_leading_number(&y_parts[i]) {
                Some(v) => v,
                None => 0,
            }
        } else {
            0
        };
        proof {
            assert(x_num == version_num_at(x@, i as int));
            assert(y_num == version_num_at(y@, i as int));
        }
        if x_num > y_num {
            return 1;
        }
        if x_num < y_num {
            return -1;
        }
        i += 1;
    }
    proof {
        assert(forall|j: int|
            0 <= j < n ==> version_num_at(x@, j) == #[trigger] version_num_at(y@, j));
    }
    0
}

// ---------------------------------------------------------------------------
// CRC32 checksums
// ---------------------------------------------------------------------------

/// The bytes a CRC32 hasher has absorbed so far.
pub uninterp spec fn hasher_bytes(h: crc32fast::Hasher) -> Seq<u8>;

/// The CRC32 checksum of a byte stream; it depends on the bytes alone.
pub uninterp spec fn crc32_of(bytes: Seq<u8>) -> u32;

#[verifier::external_type_specification]
#[verifier::external_body]
pub struct ExHasher(crc32fast::Hasher);

/// Relies on `crc32fast::Hasher::new`: a fresh hasher has absorbed nothing.
#[verifier::external_body]
fn hasher_new() -> (h: crc32fast::Hasher)
    ensures
        hasher_bytes(h) == Seq::<u8>::empty(),
{
    crc32fast::Hasher::new()
}

/// Relies on `crc32fast::Hasher::update`: the buffer is appended to the
/// absorbed stream.
#[verifier::external_body]
fn hasher_update(h: &mut crc32fast::Hasher, data: &Vec<u8>)
    ensures
        hasher_bytes(*final(h)) == hasher_bytes(*old(h)) + data@,
{
    h.update(data.as_slice())
}

/// Relies on `crc32fast::Hasher::clone` (a derived clone): the copy has
/// absorbed the same stream.
#[verifier::external_body]
fn hasher_clone(h: &crc32fast::Hasher) -> (r: crc32fast::Hasher)
    ensures
        hasher_bytes(r) == hasher_bytes(*h),
{
    h.clone()
}

/// Relies on `crc32fast::Hasher::finalize`: the checksum of the absorbed
/// stream.
#[verifier::external_body]
fn hasher_finalize(h: crc32fast::Hasher) -> (r: u32)
    ensures
        r == crc32_of(hasher_bytes(h)),
{
    h.finalize()
}

/// An in-progress CRC32 computation; `fed` mirrors the absorbed stream.
pub struct ChecksumComputer {
    pub crc: crc32fast::Hasher,
    pub fed: Ghost<Seq<u8>>,
}

impl ChecksumComputer {
    /// The computer's ghost record matches what the hasher absorbed.
    pub open spec fn wf(self) -> bool {
        self.fed@ == hasher_bytes(self.crc)
    }

    /// A computer seeded with one byte derived from the initial remainder.
    pub fn from_initial(initial_remainder: u32) -> (c: Self)
        ensures
            c.wf(),
            c.fed@ == seq![initial_remainder as u8],
    {
        let mut crc = hasher_new();
        let seed: Vec<u8> = vec![initial_remainder as u8];
        hasher_update(&mut crc, &seed);
        proof {
            assert(seed@ =~= seq![initial_remainder as u8]);
            assert(Seq::<u8>::empty() + seed@ =~= seq![initial_remainder as u8]);
        }
        let ghost fed_view: Seq<u8> = seq![initial_remainder as u8];
        ChecksumComputer { crc, fed: Ghost(fed_view) }
    }

    /// Absorb a buffer.
    pub fn update(&mut self, data: &Vec<u8>)
        requires
            old(self).wf(),
        ensures
            final(self).wf(),
            final(self).fed@ == old(self).fed@ + data@,
    {
        hasher_update(&mut self.crc, data);
        self.fed = Ghost(self.fed@ + data@);
    }

    /// The checksum of everything absorbed so far.
    pub fn checksum(&self) -> (r: u32)
        requires
            self.wf(),
        ensures
            r == crc32_of(self.fed@),
    {
        let copy = hasher_clone(&self.crc);
        hasher_finalize(copy)
    }
}

/// The CRC32 checksum of a buffer, seeded with one zero byte.
pub fn checksum(data: &Vec<u8>) -> (r: u32)
    ensures
        r == crc32_of(seq![0u8] + data@),
{
    let mut c = ChecksumComputer::from_initial(0);
    c.update(data);
    c.checksum()
}

} // verus!
