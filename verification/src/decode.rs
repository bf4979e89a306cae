//! Decoding of metric fields.
//!
//! A metric field of the fact table carries either a finite decimal number,
//! the literal marker string `"NaN"` meaning "value absent", or nothing at
//! all. The decoder turns such a raw field into an explicit `Option<Metric>`:
//! the marker and an absent field become `None`, a finite number becomes
//! `Some` of that exact value, and any other string is rejected. The metric
//! itself is held as a fixed-point count of thousandths, so that later
//! averaging is exact integer arithmetic and no non-finite value can leak in.

use vstd::prelude::*;

use crate::error::PipelineError;

verus! {

/// The marker string that the source encoding uses for an absent value.
pub const MISSING_MARKER: &'static str = "NaN";

/// One thousand: the denominator of the fixed-point metric representation.
pub const MILLI_PER_UNIT: i64 = 1000;

/// A raw metric field as it appears in a fact table: a number (carried as
/// its decimal text), an arbitrary string, or an absent/null field.
pub enum RawValue {
    Number(String),
    Text(String),
    Null,
}

/// A finite metric value, as a fixed-point count of thousandths of a unit.
/// `milli == 83_500` stands for the decimal number `83.5`.
#[derive(Clone, Copy, Debug, PartialEq, Eq, Structural)]
pub struct Metric {
    pub milli: i64,
}

impl Metric {
    /// Values decoded from at most twelve integer digits and three fraction
    /// digits stay strictly within this bound.
    pub open spec fn wf(self) -> bool {
        -1_000_000_000_000_000 < self.milli < 1_000_000_000_000_000
    }
}

/// Whether `c` is a decimal digit.
pub open spec fn is_dec_digit(c: char) -> bool {
    '0' <= c && c <= '9'
}

/// The numeric value of a decimal digit.
pub open spec fn digit_val(c: char) -> int {
    c as int - '0' as int
}

/// Whether every character of `s` is a decimal digit.
pub open spec fn all_digits(s: Seq<char>) -> bool {
    forall|i: int| 0 <= i < s.len() ==> is_dec_digit(#[trigger] s[i])
}

/// The value of a digit string read in base ten.
pub open spec fn digits_val(s: Seq<char>) -> int
    decreases s.len(),
{
    if s.len() == 0 {
        0
    } else {
        digits_val(s.drop_last()) * 10 + digit_val(s.last())
    }
}

/// Ten to the `n`th power.
pub open spec fn pow10(n: nat) -> int
    decreases n,
{
    if n == 0 {
        1
    } else {
        10 * pow10((n - 1) as nat)
    }
}

/// A valid integer part: one to twelve decimal digits.
pub open spec fn is_int_digits(s: Seq<char>) -> bool {
    1 <= s.len() <= 12 && all_digits(s)
}

/// A valid fraction part: one to three decimal digits.
pub open spec fn is_frac_digits(s: Seq<char>) -> bool {
    1 <= s.len() <= 3 && all_digits(s)
}

/// The value of a fraction part scaled to thousandths: `"5"` scales to 500,
/// `"25"` to 250, `"125"` to 125.
pub open spec fn frac_milli(s: Seq<char>) -> int {
    if s.len() == 1 {
        digits_val(s) * 100
    } else if s.len() == 2 {
        digits_val(s) * 10
    } else {
        digits_val(s)
    }
}

/// Whether `s` splits at position `i` into a valid integer part, a decimal
/// point, and a valid fraction part.
pub open spec fn is_decimal_split_at(s: Seq<char>, i: int) -> bool {
    &&& 0 <= i < s.len()
    &&& s[i] == '.'
    &&& is_int_digits(s.take(i))
    &&& is_frac_digits(s.skip(i + 1))
}

/// The value of an unsigned decimal numeral in thousandths, or `None` where
/// `s` is not a valid unsigned numeral. A valid numeral is either a plain
/// digit string, or a digit string, a point and a fraction part.
pub open spec fn unsigned_milli_of(s: Seq<char>) -> Option<int> {
    if is_int_digits(s) {
        Some(digits_val(s) * 1000)
    } else if exists|i: int| is_decimal_split_at(s, i) {
        let i = choose|i: int| is_decimal_split_at(s, i);
        Some(digits_val(s.take(i)) * 1000 + frac_milli(s.skip(i + 1)))
    } else {
        None
    }
}

/// The value of a possibly negated decimal numeral in thousandths, or `None`
/// where `s` is not a valid numeral.
pub open spec fn decimal_milli_of(s: Seq<char>) -> Option<int> {
    if s.len() > 0 && s[0] == '-' {
        match unsigned_milli_of(s.skip(1)) {
            Some(v) => Some(-v),
            None => None,
        }
    } else {
        unsigned_milli_of(s)
    }
}

/// `pow10` stays within machine range for the lengths the parser admits.
proof fn lemma_pow10_bounds(n: nat)
    requires
        n <= 13,
    ensures
        1 <= pow10(n) <= 10_000_000_000_000,
{
    lemma_pow10_values();
    lemma_pow10_increases(n, 13);
}

/// `pow10` is monotone.
proof fn lemma_pow10_increases(m: nat, n: nat)
    requires
        m <= n,
    ensures
        pow10(m) <= pow10(n),
        1 <= pow10(m),
    decreases n,
{
    if m == n {
        lemma_pow10_pos(m);
    } else {
        lemma_pow10_increases(m, (n - 1) as nat);
        lemma_pow10_pos((n - 1) as nat);
    }
}

/// `pow10` is positive.
proof fn lemma_pow10_pos(n: nat)
    ensures
        1 <= pow10(n),
    decreases n,
{
    if n > 0 {
        lemma_pow10_pos((n - 1) as nat);
    }
}

/// The small powers of ten that the parser's bounds need, written out.
proof fn lemma_pow10_values()
    ensures
        pow10(1) == 10,
        pow10(2) == 100,
        pow10(3) == 1000,
        pow10(12) == 1_000_000_000_000,
        pow10(13) == 10_000_000_000_000,
{
    assert(pow10(0) == 1);
    assert(pow10(1) == 10);
    assert(pow10(2) == 100);
    assert(pow10(3) == 1000);
    assert(pow10(4) == 10000);
    assert(pow10(5) == 100000);
    assert(pow10(6) == 1000000);
    assert(pow10(7) == 10000000);
    assert(pow10(8) == 100000000);
    assert(pow10(9) == 1000000000);
    assert(pow10(10) == 10000000000);
    assert(pow10(11) == 100000000000);
    assert(pow10(12) == 1000000000000);
    assert(pow10(13) == 10000000000000);
}

/// A digit string's value is nonnegative and below ten to its length.
pub proof fn lemma_digits_val_bound(s: Seq<char>)
    requires
        all_digits(s),
    ensures
        0 <= digits_val(s) < pow10(s.len()),
    decreases s.len(),
{
    if s.len() == 0 {
    } else {
        let dl = s.drop_last();
        assert(all_digits(dl));
        lemma_digits_val_bound(dl);
        assert(0 <= digit_val(s.last()) <= 9);
        assert(pow10(s.len()) == 10 * pow10(dl.len()));
    }
}

/// Two valid split positions in one string coincide.
proof fn lemma_split_unique(s: Seq<char>, i: int, j: int)
    requires
        is_decimal_split_at(s, i),
        is_decimal_split_at(s, j),
    ensures
        i == j,
{
    if i < j {
        assert(s.take(j)[i] == s[i]);
        assert(is_dec_digit(s[i]));
        assert(!is_dec_digit('.'));
    } else if j < i {
        assert(s.take(i)[j] == s[j]);
        assert(is_dec_digit(s[j]));
        assert(!is_dec_digit('.'));
    }
}

/// The length of the longest all-digit prefix of `s`, capped at `cap`.
fn leading_digits(s: &str, cap: usize) -> (k: usize)
    ensures
        k <= cap,
        k <= s@.len(),
        all_digits(s@.take(k as int)),
        k < cap && k < s@.len() ==> !is_dec_digit(s@[k as int]),
{
    let n = s.unicode_len();
    let mut i: usize = 0;
    while i < n && i < cap
        invariant
            n == s@.len(),
            0 <= i <= n,
            i <= cap,
            all_digits(s@.take(i as int)),
        decreases n - i,
    {
        let c = s.get_char(i);
        if !('0' <= c && c <= '9') {
            return i;
        }
        proof {
            assert(forall|q: int| 0 <= q < i + 1 ==> is_dec_digit(#[trigger] s@.take(i + 1)[q]));
        }
        i = i + 1;
    }
    i
}

/// Read the value of a known all-digit prefix of `s` in base ten.
fn digits_prefix_val(s: &str, k: usize) -> (acc: i64)
    requires
        k <= 13,
        k <= s@.len(),
        all_digits(s@.take(k as int)),
    ensures
        acc == digits_val(s@.take(k as int)),
        0 <= acc <= 9_999_999_999_999,
{
    let mut acc: i64 = 0;
    let mut i: usize = 0;
    while i < k
        invariant
            k <= 13,
            k <= s@.len(),
            all_digits(s@.take(k as int)),
            0 <= i <= k,
            acc == digits_val(s@.take(i as int)),
            0 <= acc <= 9_999_999_999_999,
        decreases k - i,
    {
        let c = s.get_char(i);
        proof {
            assert(s@.take(k as int)[i as int] == s@[i as int]);
            assert(is_dec_digit(s@[i as int]));
            assert(s@.take(i + 1).drop_last() =~= s@.take(i as int));
            assert(s@.take(i + 1).last() == s@[i as int]);
            assert(all_digits(s@.take(i + 1))) by {
                assert(forall|q: int| 0 <= q < i + 1 ==> s@.take(k as int)[q] == #[trigger] s@.take(
                    i + 1,
                )[q]);
            }
            lemma_digits_val_bound(s@.take(i + 1));
            lemma_pow10_bounds((i + 1) as nat);
        }
        acc = acc * 10 + (c as i64 - 48);
        i = i + 1;
    }
    acc
}

/// Parse an unsigned decimal numeral into thousandths. Returns exactly the
/// value that `unsigned_milli_of` assigns to the text.
pub fn parse_unsigned_milli(s: &str) -> (r: Option<i64>)
    ensures
        match r {
            Some(v) => unsigned_milli_of(s@) == Some(v as int) && 0 <= v < 1_000_000_000_000_000,
            None => unsigned_milli_of(s@) is None,
        },
{
    let n = s.unicode_len();
    let i = leading_digits(s, 13);
    // `i` counts the leading digits of `s`, capped at 13.
    if i == 0 {
        proof {
            assert(!is_int_digits(s@)) by {
                if s@.len() > 0 {
                    assert(s@.take(0int).len() == 0);
                }
            }
            assert forall|d: int| !is_decimal_split_at(s@, d) by {
                if 0 <= d < s@.len() && is_decimal_split_at(s@, d) {
                    assert(s@.take(d)[0] == s@[0]);
                }
            }
        }
        return None;
    }
    if i == 13 {
        // Thirteen leading digits: too long for an integer part wherever the
        // point falls.
        proof {
            assert(!is_int_digits(s@));
            assert forall|d: int| !is_decimal_split_at(s@, d) by {
                if 0 <= d < s@.len() && is_decimal_split_at(s@, d) {
                    assert(s@.take(d).len() == d);
                    assert(d <= 12);
                    assert(s@.take(13int)[d] == s@[d]);
                    assert(is_dec_digit(s@[d]));
                    assert(!is_dec_digit('.'));
                }
            }
        }
        return None;
    }
    let acc = digits_prefix_val(s, i);
    proof {
        lemma_digits_val_bound(s@.take(i as int));
        lemma_pow10_increases(i as nat, 12);
        lemma_pow10_values();
    }
    if i == n {
        // A plain digit string.
        proof {
            assert(s@.take(n as int) =~= s@);
            assert(is_int_digits(s@));
        }
        return Some(acc * 1000);
    }
    let c = s.get_char(i);
    if !(c == '.') {
        // A stray character where a digit or the point had to stand.
        proof {
            let k = i as int;
            assert(!is_dec_digit(s@[k]));
            assert(!is_int_digits(s@));
            assert forall|d: int| !is_decimal_split_at(s@, d) by {
                if 0 <= d < s@.len() && is_decimal_split_at(s@, d) {
                    if d < k {
                        assert(s@.skip(d + 1)[k - d - 1] == s@[k]);
                        assert(is_frac_digits(s@.skip(d + 1)));
                        assert(is_dec_digit(s@[k]));
                    } else if d == k {
                        assert(s@[k] == '.');
                    } else {
                        assert(s@.take(d)[k] == s@[k]);
                        assert(is_dec_digit(s@[k]));
                    }
                }
            }
        }
        return None;
    }
    // The point sits at `i`; everything after it must be one to three digits.
    let d = i;
    let flen = n - d - 1;
    let mut j: usize = d + 1;
    let mut facc: i64 = 0;
    while j < n
        invariant
            n == s@.len(),
            d < j <= n,
            all_digits(s@.subrange(d + 1, j as int)),
            facc == digits_val(s@.subrange(d + 1, j as int)),
            0 <= facc < 1_000_000_000_000,
            j <= d + 4,
            s@[d as int] == '.',
            all_digits(s@.take(d as int)),
            1 <= d <= 12,
            acc == digits_val(s@.take(d as int)),
            0 <= acc <= 9_999_999_999_999,
        decreases n - j,
    {
        let c = s.get_char(j);
        if !('0' <= c && c <= '9') {
            // A stray character inside the fraction part.
            proof {
                let k = j as int;
                assert(!is_dec_digit(s@[k]));
                assert(!is_int_digits(s@)) by {
                    assert(!is_dec_digit(s@[d as int]));
                }
                assert forall|p: int| !is_decimal_split_at(s@, p) by {
                    if 0 <= p < s@.len() && is_decimal_split_at(s@, p) {
                        lemma_point_fixes_split(s@, d as int, p);
                        assert(s@.skip(p + 1)[k - p - 1] == s@[k]);
                    }
                }
            }
            return None;
        }
        if j - d > 3 {
            // A fourth fraction digit: no valid split remains.
            proof {
                assert forall|p: int| !is_decimal_split_at(s@, p) by {
                    if 0 <= p < s@.len() && is_decimal_split_at(s@, p) {
                        lemma_point_fixes_split(s@, d as int, p);
                        assert(s@.skip(p + 1).len() >= 4);
                    }
                }
                assert(!is_int_digits(s@)) by {
                    assert(!is_dec_digit(s@[d as int]));
                }
            }
            return None;
        }
        proof {
            assert(s@.subrange(d + 1, j + 1).drop_last() =~= s@.subrange(d + 1, j as int));
            assert(s@.subrange(d + 1, j + 1).last() == s@[j as int]);
            lemma_digits_val_bound(s@.subrange(d + 1, j as int));
            lemma_digits_val_bound(s@.subrange(d + 1, j + 1));
            lemma_pow10_increases((j + 1 - d - 1) as nat, 3);
            lemma_pow10_values();
        }
        facc = facc * 10 + (c as i64 - 48);
        j = j + 1;
    }
    if flen == 0 || flen > 3 {
        // An empty fraction part (the text ends on the point), or one that
        // the digit scan above already rejected; only the empty case can
        // reach this line.
        proof {
            assert(flen == 0);
            assert(!is_int_digits(s@)) by {
                assert(!is_dec_digit(s@[d as int]));
            }
            assert forall|p: int| !is_decimal_split_at(s@, p) by {
                if 0 <= p < s@.len() && is_decimal_split_at(s@, p) {
                    lemma_point_fixes_split(s@, d as int, p);
                    assert(s@.skip(p + 1).len() == 0);
                }
            }
        }
        return None;
    }
    let scale: i64 = if flen == 1 {
        100
    } else if flen == 2 {
        10
    } else {
        1
    };
    proof {
        let frac = s@.skip(d + 1);
        assert(frac =~= s@.subrange(d + 1, n as int));
        assert(is_frac_digits(frac));
        assert(is_decimal_split_at(s@, d as int));
        assert(!is_int_digits(s@)) by {
            assert(!is_dec_digit(s@[d as int]));
        }
        assert(exists|p: int| is_decimal_split_at(s@, p));
        let p = choose|p: int| is_decimal_split_at(s@, p);
        lemma_split_unique(s@, p, d as int);
        assert(frac_milli(frac) == facc * scale);
        lemma_digits_val_bound(s@.take(d as int));
        lemma_digits_val_bound(frac);
        lemma_pow10_increases(d as nat, 12);
        lemma_pow10_increases(frac.len(), 3);
        lemma_pow10_values();
    }
    Some(acc * 1000 + facc * scale)
}

/// Where one valid split exists, a point anywhere with only digits before it
/// forces every valid split onto that point.
proof fn lemma_point_fixes_split(s: Seq<char>, d: int, p: int)
    requires
        0 <= d < s.len(),
        s[d] == '.',
        all_digits(s.take(d)),
        is_decimal_split_at(s, p),
    ensures
        p == d,
{
    if p < d {
        assert(s.skip(p + 1)[d - p - 1] == s[d]);
        assert(is_frac_digits(s.skip(p + 1)));
        assert(is_dec_digit(s[d]));
        assert(!is_dec_digit('.'));
    } else if d < p {
        assert(s.take(p)[d] == s[d]);
        assert(is_dec_digit(s[d]));
        assert(!is_dec_digit('.'));
    }
}

/// Parse a decimal numeral with an optional leading minus sign into
/// thousandths. Returns exactly the value that `decimal_milli_of` assigns.
pub fn parse_decimal_milli(s: &str) -> (r: Option<i64>)
    ensures
        match r {
            Some(v) => decimal_milli_of(s@) == Some(v as int)
                && -1_000_000_000_000_000 < v < 1_000_000_000_000_000,
            None => decimal_milli_of(s@) is None,
        },
{
    let n = s.unicode_len();
    if n > 0 && s.get_char(0) == '-' {
        let body = s.substring_char(1, n);
        proof {
            assert(body@ =~= s@.skip(1));
        }
        match parse_unsigned_milli(body) {
            Some(v) => Some(-v),
            None => None,
        }
    } else {
        parse_unsigned_milli(s)
    }
}

/// Whether two string slices hold the same characters.
pub fn str_eq(a: &str, b: &str) -> (r: bool)
    ensures
        r == (a@ == b@),
{
    let na = a.unicode_len();
    let nb = b.unicode_len();
    if na != nb {
        return false;
    }
    let mut i: usize = 0;
    while i < na
        invariant
            na == a@.len(),
            nb == b@.len(),
            na == nb,
            0 <= i <= na,
            forall|k: int| 0 <= k < i ==> a@[k] == b@[k],
        decreases na - i,
    {
        if a.get_char(i) != b.get_char(i) {
            return false;
        }
        i = i + 1;
    }
    proof {
        assert(a@ =~= b@);
    }
    true
}

/// Decode one raw metric field.
///
/// - an absent field decodes to `Ok(None)`;
/// - the marker string `"NaN"` decodes to `Ok(None)`;
/// - a valid decimal numeral decodes to `Ok(Some)` of that exact value;
/// - any other string fails with `InvalidValue` carrying that string;
/// - a numeral outside the decimal grammar fails with `Decode` carrying it.
pub fn decode_metric(raw: RawValue) -> (r: Result<Option<Metric>, PipelineError>)
    ensures
        match raw {
            RawValue::Null => r == Ok::<Option<Metric>, PipelineError>(None::<Metric>),
            RawValue::Text(t) => if t@ == MISSING_MARKER@ {
                r == Ok::<Option<Metric>, PipelineError>(None::<Metric>)
            } else {
                r matches Err(PipelineError::InvalidValue(m)) && m@ == t@
            },
            RawValue::Number(txt) => match decimal_milli_of(txt@) {
                Some(v) => r matches Ok(Some(m)) && m.milli == v && m.wf(),
                None => r matches Err(PipelineError::Decode(m)) && m@ == txt@,
            },
        },
{
    match raw {
        RawValue::Null => Ok(None),
        RawValue::Text(t) => {
            if str_eq(t.as_str(), MISSING_MARKER) {
                Ok(None)
            } else {
                Err(PipelineError::InvalidValue(t))
            }
        },
        RawValue::Number(txt) => {
            match parse_decimal_milli(txt.as_str()) {
                Some(v) => Ok(Some(Metric { milli: v })),
                None => Err(PipelineError::Decode(txt)),
            }
        },
    }
}

} // verus!
