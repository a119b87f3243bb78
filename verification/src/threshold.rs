//! The size threshold and its resolution against live filesystem capacity.
//!
//! A threshold is either an absolute byte count (written like "10 GB") or a
//! percentage of the filesystem capacity (written like "80%" or "12.5%").
//! A percentage is held as an exact rational `num / den` in [0, 1]; it is
//! resolved to a byte limit at every vacuum pass, never cached, so capacity
//! changes are honored without a restart.

use vstd::prelude::*;
use crate::config::ConfigError;

verus! {

/// A configured size threshold.
pub enum Threshold {
    /// A fixed limit in bytes.
    Absolute(u64),
    /// The fraction `num / den` of the filesystem capacity. The
    /// denominator is of the form `100 * 10^f` for the number `f` of
    /// fractional digits written, so the fraction is exact.
    Percentage { num: u64, den: u64 },
}

impl Threshold {
    /// A percentage lies in [0, 1] and its denominator is positive and
    /// small enough that resolution cannot overflow.
    pub open spec fn wf(&self) -> bool {
        match *self {
            Threshold::Absolute(_) => true,
            Threshold::Percentage { num, den } => 0 < den <= 100_000_000_000 && num <= den,
        }
    }

    /// Whether the threshold is well formed, decided at run time so that
    /// callers outside the library can test it before resolving.
    pub fn is_wf(&self) -> (r: bool)
        ensures
            r == self.wf(),
    {
        match self {
            Threshold::Absolute(_) => true,
            Threshold::Percentage { num, den } => 0 < *den && *den <= 100_000_000_000 && *num
                <= *den,
        }
    }

    /// The byte limit the threshold denotes at the given capacity.
    pub open spec fn spec_resolve(&self, capacity: u64) -> int {
        match *self {
            Threshold::Absolute(b) => b as int,
            Threshold::Percentage { num, den } => round_frac(
                num as int,
                den as int,
                capacity as int,
            ),
        }
    }
}

/// `num / den` of `c`, rounded to the nearest integer with halves rounded
/// up: the integer division `(2 * num * c + den) / (2 * den)`.
pub open spec fn round_frac(num: int, den: int, c: int) -> int
    recommends
        0 < den,
{
    (2 * num * c + den) / (2 * den)
}

/// Resolve the threshold against the live filesystem capacity: an absolute
/// threshold is its own limit, and a percentage yields `num / den` of the
/// capacity, rounded to the nearest byte. The result never exceeds the
/// capacity for a percentage threshold.
pub fn resolve(t: &Threshold, capacity: u64) -> (r: u64)
    requires
        t.wf(),
    ensures
        r as int == t.spec_resolve(capacity),
{
    match t {
        Threshold::Absolute(b) => *b,
        Threshold::Percentage { num, den } => {
            let n = *num as u128;
            let d = *den as u128;
            let c = capacity as u128;
            proof {
                assert(2 * n * c + d <= 0xffff_ffff_ffff_ffff_ffff_ffff_ffff_ffff)
                    by (nonlinear_arith)
                    requires
                        n <= 100_000_000_000,
                        d <= 100_000_000_000,
                        c <= 0xffff_ffff_ffff_ffff,
                ;
                assert((2 * n * c + d) / (2 * d) <= c) by (nonlinear_arith)
                    requires
                        n <= d,
                        0 < d,
                        0 <= c,
                ;
            }
            let q = (2 * n * c + d) / (2 * d);
            q as u64
        },
    }
}

/// Whether the character is an ASCII space.
pub open spec fn is_space_char(c: char) -> bool {
    c == ' ' || c == '\t' || c == '\n' || c == '\r'
}

/// Whether the character is an ASCII digit.
pub open spec fn is_digit_char(c: char) -> bool {
    48 <= c as int && c as int <= 57
}

/// The index of the first character at or after `i` that is not a space.
pub open spec fn skip_spaces(s: Seq<char>, i: int) -> int
    decreases s.len() - i,
{
    if 0 <= i < s.len() && is_space_char(s[i]) {
        skip_spaces(s, i + 1)
    } else {
        i
    }
}

/// The index just past the run of digits that starts at `i`.
pub open spec fn end_digits(s: Seq<char>, i: int) -> int
    decreases s.len() - i,
{
    if 0 <= i < s.len() && is_digit_char(s[i]) {
        end_digits(s, i + 1)
    } else {
        i
    }
}

/// The value of the digits at indices `[i, j)`, most significant first.
pub open spec fn digits_val(s: Seq<char>, i: int, j: int) -> int
    decreases j - i,
{
    if i < j {
        digits_val(s, i, j - 1) * 10 + (s[j - 1] as int - 48)
    } else {
        0
    }
}

/// Ten to the power `n`.
pub open spec fn pow10(n: nat) -> int
    decreases n,
{
    if n == 0 {
        1
    } else {
        10 * pow10((n - 1) as nat)
    }
}

/// The fraction that a percentage body (the text before the '%' sign)
/// denotes, as a numerator over a denominator of the form `100 * 10^f`.
/// The accepted form is spaces, one to six integer digits, optionally a
/// dot and one to nine fractional digits, then spaces; and the value must
/// not exceed 100 percent.
pub open spec fn frac_of(s: Seq<char>) -> Option<(int, int)> {
    let i0 = skip_spaces(s, 0);
    let i1 = end_digits(s, i0);
    if i1 == i0 || i1 - i0 > 6 {
        None
    } else {
        let iv = digits_val(s, i0, i1);
        if i1 < s.len() && s[i1] == '.' {
            let i2 = end_digits(s, i1 + 1);
            let f = i2 - (i1 + 1);
            if f == 0 || f > 9 || skip_spaces(s, i2) != s.len() {
                None
            } else {
                let num = iv * pow10(f as nat) + digits_val(s, i1 + 1, i2);
                let den = 100 * pow10(f as nat);
                if num <= den {
                    Some((num, den))
                } else {
                    None
                }
            }
        } else if skip_spaces(s, i1) != s.len() {
            None
        } else if iv <= 100 {
            Some((iv, 100))
        } else {
            None
        }
    }
}

/// What `byte_unit` reads out of a size string such as "10 GB": the byte
/// count, or nothing when the text is not a well-formed size.
pub uninterp spec fn parsed_size(s: Seq<char>) -> Option<u128>;

/// Relies on `byte_unit::Byte::from_str` and `byte_unit::Byte::get_bytes`:
/// parses a size such as "10 GB" or "512 MiB" to its number of bytes. The
/// result depends on the text alone.
#[verifier::external_body]
fn parse_size(s: &str) -> (r: Option<u128>)
    ensures
        r == parsed_size(s@),
{
    byte_unit::Byte::from_str(s).ok().map(|b| b.get_bytes())
}

pub proof fn lemma_skip_spaces(s: Seq<char>, i: int)
    requires
        0 <= i <= s.len(),
    ensures
        i <= skip_spaces(s, i) <= s.len(),
        forall|k: int| i <= k < skip_spaces(s, i) ==> is_space_char(#[trigger] s[k]),
        skip_spaces(s, i) == s.len() || !is_space_char(s[skip_spaces(s, i)]),
    decreases s.len() - i,
{
    if i < s.len() && is_space_char(s[i]) {
        lemma_skip_spaces(s, i + 1);
    }
}

pub proof fn lemma_end_digits(s: Seq<char>, i: int)
    requires
        0 <= i <= s.len(),
    ensures
        i <= end_digits(s, i) <= s.len(),
        forall|k: int| i <= k < end_digits(s, i) ==> is_digit_char(#[trigger] s[k]),
        end_digits(s, i) == s.len() || !is_digit_char(s[end_digits(s, i)]),
    decreases s.len() - i,
{
    if i < s.len() && is_digit_char(s[i]) {
        lemma_end_digits(s, i + 1);
    }
}

/// The value of a run of digits is non-negative and below ten to the
/// number of digits.
pub proof fn lemma_digits_val_bound(s: Seq<char>, i: int, j: int)
    requires
        0 <= i <= j <= s.len(),
        forall|k: int| i <= k < j ==> is_digit_char(#[trigger] s[k]),
    ensures
        0 <= digits_val(s, i, j) < pow10((j - i) as nat),
    decreases j - i,
{
    if i < j {
        assert forall|k: int| i <= k < j - 1 implies is_digit_char(#[trigger] s[k]) by {
            assert(is_digit_char(s[k]));
        }
        lemma_digits_val_bound(s, i, j - 1);
        assert(is_digit_char(s[j - 1]));
        assert(pow10((j - i) as nat) == 10 * pow10((j - 1 - i) as nat));
    }
}

/// Powers of ten do not decrease.
pub proof fn lemma_pow10_le(a: nat, b: nat)
    requires
        a <= b,
    ensures
        pow10(a) <= pow10(b),
        pow10(a) >= 1,
    decreases b,
{
    if a == b {
        lemma_pow10_pos(a);
    } else {
        lemma_pow10_le(a, (b - 1) as nat);
        lemma_pow10_pos((b - 1) as nat);
    }
}

pub proof fn lemma_pow10_pos(n: nat)
    ensures
        pow10(n) >= 1,
    decreases n,
{
    if n > 0 {
        lemma_pow10_pos((n - 1) as nat);
    }
}

/// Whether the character of `s` at `i` is an ASCII space.
fn space_at(s: &str, i: usize) -> (r: bool)
    requires
        i < s@.len(),
    ensures
        r == is_space_char(s@[i as int]),
{
    let c = s.get_char(i);
    c == ' ' || c == '\t' || c == '\n' || c == '\r'
}

/// Whether the character of `s` at `i` is an ASCII digit.
fn digit_at(s: &str, i: usize) -> (r: bool)
    requires
        i < s@.len(),
    ensures
        r == is_digit_char(s@[i as int]),
{
    let c = s.get_char(i);
    let u = c as u32;
    48 <= u && u <= 57
}

/// The index of the first non-space character of `s` at or after `from`.
fn scan_spaces(s: &str, from: usize, len: usize) -> (r: usize)
    requires
        len == s@.len(),
        from <= len,
    ensures
        from <= r <= len,
        r == skip_spaces(s@, from as int),
{
    let mut i = from;
    while i < len && space_at(s, i)
        invariant
            len == s@.len(),
            from <= i <= len,
            skip_spaces(s@, from as int) == skip_spaces(s@, i as int),
        decreases len - i,
    {
        proof {
            assert(skip_spaces(s@, i as int) == skip_spaces(s@, i + 1));
        }
        i += 1;
    }
    proof {
        assert(skip_spaces(s@, i as int) == i);
    }
    i
}

/// The index just past the digits of `s` that start at `from`.
fn scan_digits(s: &str, from: usize, len: usize) -> (r: usize)
    requires
        len == s@.len(),
        from <= len,
    ensures
        from <= r <= len,
        r == end_digits(s@, from as int),
{
    let mut i = from;
    while i < len && digit_at(s, i)
        invariant
            len == s@.len(),
            from <= i <= len,
            end_digits(s@, from as int) == end_digits(s@, i as int),
        decreases len - i,
    {
        proof {
            assert(end_digits(s@, i as int) == end_digits(s@, i + 1));
        }
        i += 1;
    }
    proof {
        assert(end_digits(s@, i as int) == i);
    }
    i
}

/// The value of the digits of `s` at `[from, to)`.
fn scan_digits_val(s: &str, from: usize, to: usize) -> (r: u64)
    requires
        from <= to <= s@.len(),
        to - from <= 9,
        forall|k: int| from <= k < to ==> is_digit_char(#[trigger] s@[k]),
    ensures
        r == digits_val(s@, from as int, to as int),
        r < pow10((to - from) as nat),
{
    proof {
        lemma_digits_val_bound(s@, from as int, to as int);
        lemma_pow10_le((to - from) as nat, 9);
        assert(pow10(9) == 1_000_000_000) by {
            reveal_with_fuel(pow10, 11);
        }
    }
    let mut v: u64 = 0;
    let mut i = from;
    while i < to
        invariant
            from <= i <= to,
            to <= s@.len(),
            to - from <= 9,
            forall|k: int| from <= k < to ==> is_digit_char(#[trigger] s@[k]),
            v == digits_val(s@, from as int, i as int),
            v < pow10((i - from) as nat),
        decreases to - i,
    {
        proof {
            lemma_digits_val_bound(s@, from as int, i as int);
            lemma_pow10_le((i - from) as nat, 8);
            assert(pow10(8) == 100_000_000) by {
                reveal_with_fuel(pow10, 10);
            }
            assert(pow10((i + 1 - from) as nat) == 10 * pow10((i - from) as nat));
        }
        let c = s.get_char(i);
        let d = (c as u32) - 48;
        v = v * 10 + (d as u64);
        i += 1;
    }
    v
}

/// Ten to the power `f`, executable.
fn pow10_exec(f: usize) -> (r: u64)
    requires
        f <= 9,
    ensures
        r == pow10(f as nat),
{
    proof {
        assert(pow10(9) == 1_000_000_000) by {
            reveal_with_fuel(pow10, 11);
        }
    }
    let mut r: u64 = 1;
    let mut k: usize = 0;
    while k < f
        invariant
            k <= f <= 9,
            r == pow10(k as nat),
        decreases f - k,
    {
        proof {
            lemma_pow10_le(k as nat, 8);
            assert(pow10(8) == 100_000_000) by {
                reveal_with_fuel(pow10, 10);
            }
            assert(pow10((k + 1) as nat) == 10 * pow10(k as nat));
        }
        r = r * 10;
        k += 1;
    }
    r
}

/// Parse the body of a percentage threshold (the text before '%').
fn parse_percent_body(s: &str) -> (r: Option<(u64, u64)>)
    ensures
        match r {
            Some(p) => frac_of(s@) == Some((p.0 as int, p.1 as int)) && 0 < p.1
                <= 100_000_000_000 && p.0 <= p.1,
            None => frac_of(s@) is None,
        },
{
    let len = s.unicode_len();
    let i0 = scan_spaces(s, 0, len);
    let i1 = scan_digits(s, i0, len);
    proof {
        lemma_skip_spaces(s@, 0);
        lemma_end_digits(s@, i0 as int);
    }
    if i1 == i0 || i1 - i0 > 6 {
        return None;
    }
    let iv = scan_digits_val(s, i0, i1);
    if i1 < len && s.get_char(i1) == '.' {
        let i2 = scan_digits(s, i1 + 1, len);
        proof {
            lemma_end_digits(s@, i1 + 1);
        }
        let f = i2 - (i1 + 1);
        if f == 0 || f > 9 {
            return None;
        }
        let tail = scan_spaces(s, i2, len);
        if tail != len {
            return None;
        }
        let fv = scan_digits_val(s, i1 + 1, i2);
        let p = pow10_exec(f);
        proof {
            lemma_pow10_le(f as nat, 9);
            assert(pow10(9) == 1_000_000_000) by {
                reveal_with_fuel(pow10, 11);
            }
            assert(pow10(6) == 1_000_000) by {
                reveal_with_fuel(pow10, 8);
            }
            lemma_digits_val_bound(s@, i0 as int, i1 as int);
            lemma_pow10_le((i1 - i0) as nat, 6);
            assert(iv < 1_000_000);
            assert(iv * p <= 1_000_000 * 1_000_000_000) by (nonlinear_arith)
                requires
                    0 <= iv < 1_000_000,
                    0 <= p <= 1_000_000_000,
            ;
        }
        let num = iv * p + fv;
        let den = 100 * p;
        if num <= den {
            Some((num, den))
        } else {
            None
        }
    } else {
        let tail = scan_spaces(s, i1, len);
        if tail != len {
            return None;
        }
        if iv <= 100 {
            Some((iv, 100))
        } else {
            None
        }
    }
}

/// The threshold a configured text denotes: a value ending in '%' is a
/// percentage of filesystem capacity; anything else is an absolute size
/// such as "10 GB". Malformed values, percentages over 100, and absolute
/// sizes that do not fit in an unsigned 64-bit byte count are
/// configuration errors.
pub open spec fn spec_parse_threshold(s: Seq<char>) -> Result<Threshold, ConfigError> {
    if s.len() > 0 && s[s.len() - 1] == '%' {
        match frac_of(s.take(s.len() - 1)) {
            Some(p) => Ok(Threshold::Percentage { num: p.0 as u64, den: p.1 as u64 }),
            None => Err(ConfigError::BadThreshold),
        }
    } else {
        match parsed_size(s) {
            Some(b) => if b <= 0xffff_ffff_ffff_ffff {
                Ok(Threshold::Absolute(b as u64))
            } else {
                Err(ConfigError::BadThreshold)
            },
            None => Err(ConfigError::BadThreshold),
        }
    }
}

/// Parse a configured threshold.
pub fn parse_threshold(s: &str) -> (r: Result<Threshold, ConfigError>)
    ensures
        r == spec_parse_threshold(s@),
        r is Ok ==> r.unwrap().wf(),
{
    let len = s.unicode_len();
    if len > 0 && s.get_char(len - 1) == '%' {
        let body = s.substring_char(0, len - 1);
        proof {
            assert(body@ =~= s@.take(len - 1));
        }
        match parse_percent_body(body) {
            Some(p) => Ok(Threshold::Percentage { num: p.0, den: p.1 }),
            None => Err(ConfigError::BadThreshold),
        }
    } else {
        match parse_size(s) {
            Some(b) => {
                if b <= 0xffff_ffff_ffff_ffff {
                    Ok(Threshold::Absolute(b as u64))
                } else {
                    Err(ConfigError::BadThreshold)
                }
            },
            None => Err(ConfigError::BadThreshold),
        }
    }
}

} // verus!
