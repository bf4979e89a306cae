//! The aggregation engine.
//!
//! Enriched rows are grouped by the year parsed from their period label,
//! years are ordered ascending, and per-category averages of the public
//! transport metric are computed per year, skipping absent metrics. A group
//! with no present metric yields an explicit missing point (`None`), never a
//! non-finite number. The average itself is reported as its exact numerator
//! (a sum of fixed-point thousandths) and denominator (a count), so nothing
//! is rounded inside the library.

use vstd::prelude::*;

use crate::decode::all_digits;
use crate::decode::digit_val;
use crate::decode::digits_val;
use crate::decode::is_dec_digit;
use crate::decode::lemma_digits_val_bound;
use crate::error::PipelineError;
use crate::typed_dataset::DataRow;
use vstd::string::StringExecFns;

verus! {

/// The year of a period label: the label read as an unsigned decimal
/// integer, where it is nonempty, all digits, and within `u32` range.
pub open spec fn year_of_label(s: Seq<char>) -> Option<int> {
    if 1 <= s.len() && all_digits(s) && digits_val(s) <= 0xffff_ffff {
        Some(digits_val(s))
    } else {
        None
    }
}

/// Extending a digit string can only grow its value.
proof fn lemma_digits_val_prefix_le(s: Seq<char>, i: int)
    requires
        all_digits(s),
        0 <= i <= s.len(),
    ensures
        0 <= digits_val(s.take(i)) <= digits_val(s),
    decreases s.len() - i,
{
    assert(all_digits(s.take(i)));
    lemma_digits_val_bound(s.take(i));
    if i == s.len() {
        assert(s.take(i) =~= s);
    } else {
        assert(s.take(i + 1).drop_last() =~= s.take(i));
        assert(s.take(i + 1).last() == s[i]);
        assert(all_digits(s.take(i + 1)));
        lemma_digits_val_bound(s.take(i + 1));
        assert(digits_val(s.take(i + 1)) == digits_val(s.take(i)) * 10 + digit_val(s[i]));
        lemma_digits_val_prefix_le(s, i + 1);
    }
}

/// Parse a period label as an unsigned integer year. Returns exactly the
/// value that `year_of_label` assigns to the text.
pub fn parse_year(s: &str) -> (r: Option<u32>)
    ensures
        match r {
            Some(y) => year_of_label(s@) == Some(y as int),
            None => year_of_label(s@) is None,
        },
{
    let n = s.unicode_len();
    if n == 0 {
        return None;
    }
    let mut i: usize = 0;
    let mut acc: u64 = 0;
    while i < n
        invariant
            n == s@.len(),
            0 <= i <= n,
            all_digits(s@.take(i as int)),
            acc == digits_val(s@.take(i as int)),
            0 <= acc <= 0xffff_ffff,
        decreases n - i,
    {
        let c = s.get_char(i);
        if !('0' <= c && c <= '9') {
            proof {
                assert(!is_dec_digit(s@[i as int]));
            }
            return None;
        }
        proof {
            assert(s@.take(i + 1).drop_last() =~= s@.take(i as int));
            assert(s@.take(i + 1).last() == s@[i as int]);
            assert(forall|q: int| 0 <= q < i + 1 ==> is_dec_digit(#[trigger] s@.take(i + 1)[q]));
        }
        acc = acc * 10 + (c as u64 - 48);
        if acc > 0xffff_ffff {
            proof {
                if all_digits(s@) {
                    lemma_digits_val_prefix_le(s@, i + 1);
                }
            }
            return None;
        }
        i = i + 1;
    }
    proof {
        assert(s@.take(n as int) =~= s@);
    }
    Some(acc as u32)
}

/// Whether a sequence of years is strictly ascending.
pub open spec fn strictly_ascending(s: Seq<u32>) -> bool {
    forall|a: int, b: int| 0 <= a < b < s.len() ==> s[a] < s[b]
}

/// The year of each row, in row order. Succeeds exactly when every period
/// label parses; otherwise fails with `InvalidYear` carrying the label of
/// the first row that does not.
pub fn years_of(rows: &Vec<DataRow>) -> (r: Result<Vec<u32>, PipelineError>)
    ensures
        r is Ok <==> (forall|i: int|
            0 <= i < rows@.len() ==> year_of_label(
                (#[trigger] rows@[i]).perioden.title@,
            ) is Some),
        r matches Ok(ys) ==> ys@.len() == rows@.len() && (forall|i: int|
            0 <= i < rows@.len() ==> year_of_label(rows@[i].perioden.title@) == Some(
                (#[trigger] ys@[i]) as int,
            )),
        r matches Err(e) ==> e matches PipelineError::InvalidYear(t) && (exists|k: int|
            {
                &&& 0 <= k < rows@.len()
                &&& year_of_label((#[trigger] rows@[k]).perioden.title@) is None
                &&& t@ == rows@[k].perioden.title@
                &&& forall|j: int|
                    0 <= j < k ==> year_of_label((#[trigger] rows@[j]).perioden.title@) is Some
            }),
{
    let mut ys: Vec<u32> = Vec::new();
    let mut i: usize = 0;
    while i < rows.len()
        invariant
            0 <= i <= rows@.len(),
            ys@.len() == i,
            forall|j: int|
                0 <= j < i ==> year_of_label(rows@[j].perioden.title@) == Some(
                    (#[trigger] ys@[j]) as int,
                ),
        decreases rows@.len() - i,
    {
        match parse_year(rows[i].perioden.title.as_str()) {
            Some(y) => {
                ys.push(y);
            },
            None => {
                proof {
                    assert forall|j: int| 0 <= j < i implies year_of_label(
                        (#[trigger] rows@[j]).perioden.title@,
                    ) is Some by {
                        let yv = ys@[j];
                        assert(year_of_label(rows@[j].perioden.title@) == Some(yv as int));
                    }
                }
                return Err(PipelineError::InvalidYear(rows[i].perioden.title.clone()));
            },
        }
        i = i + 1;
    }
    proof {
        assert forall|j: int| 0 <= j < rows@.len() implies year_of_label(
            (#[trigger] rows@[j]).perioden.title@,
        ) is Some by {
            let yv = ys@[j];
            assert(year_of_label(rows@[j].perioden.title@) == Some(yv as int));
        }
    }
    Ok(ys)
}

/// Aggregation determinism: a strictly ascending sequence of years is
/// determined by its membership alone. Two runs that see the same set of
/// years — in whatever order the rows arrived — produce the same year axis.
pub proof fn lemma_ascending_unique(a: Seq<u32>, b: Seq<u32>)
    requires
        strictly_ascending(a),
        strictly_ascending(b),
        forall|y: u32| #[trigger] a.contains(y) <==> b.contains(y),
    ensures
        a =~= b,
    decreases a.len(),
{
    if a.len() == 0 {
        if b.len() > 0 {
            assert(b.contains(b[0]));
            assert(a.contains(b[0]));
        }
    } else if b.len() == 0 {
        assert(a.contains(a[0]));
        assert(b.contains(a[0]));
    } else {
        assert(a.contains(a[0]));
        assert(b.contains(a[0]));
        let j = choose|j: int| 0 <= j < b.len() && b[j] == a[0];
        assert(b.contains(b[0]));
        assert(a.contains(b[0]));
        let i = choose|i: int| 0 <= i < a.len() && a[i] == b[0];
        if j > 0 {
            assert(b[0] < b[j]);
        }
        if i > 0 {
            assert(a[0] < a[i]);
        }
        assert(a[0] == b[0]);
        let at = a.skip(1);
        let bt = b.skip(1);
        assert(forall|k: int| 0 <= k < at.len() ==> #[trigger] at[k] == a[k + 1]);
        assert(forall|k: int| 0 <= k < bt.len() ==> #[trigger] bt[k] == b[k + 1]);
        assert forall|y: u32| #[trigger] at.contains(y) <==> bt.contains(y) by {
            if at.contains(y) {
                let k = choose|k: int| 0 <= k < at.len() && at[k] == y;
                assert(a[k + 1] == y);
                assert(a.contains(y));
                assert(b.contains(y));
                let m = choose|m: int| 0 <= m < b.len() && b[m] == y;
                if m == 0 {
                    assert(a[0] < a[k + 1]);
                } else {
                    assert(bt[m - 1] == y);
                    assert(bt.contains(y));
                }
            }
            if bt.contains(y) {
                let k = choose|k: int| 0 <= k < bt.len() && bt[k] == y;
                assert(b[k + 1] == y);
                assert(b.contains(y));
                assert(a.contains(y));
                let m = choose|m: int| 0 <= m < a.len() && a[m] == y;
                if m == 0 {
                    assert(b[0] < b[k + 1]);
                } else {
                    assert(at[m - 1] == y);
                    assert(at.contains(y));
                }
            }
        }
        lemma_ascending_unique(at, bt);
        assert(at.len() == bt.len());
        assert forall|k: int| 0 <= k < a.len() implies a[k] == b[k] by {
            if k > 0 {
                assert(at[k - 1] == bt[k - 1]);
            }
        }
    }
}

/// Aggregation determinism for bucket sets: any two well-formed bucket sets
/// that cover the same rows carry the same years, in the same ascending
/// order — however the buckets were built.
pub proof fn lemma_buckets_deterministic(b1: &YearBuckets, b2: &YearBuckets, rows: Seq<DataRow>)
    requires
        b1.wf_for(rows),
        b1.covers(rows),
        b2.wf_for(rows),
        b2.covers(rows),
    ensures
        b1.groups@.len() == b2.groups@.len(),
        forall|gi: int|
            0 <= gi < b1.groups@.len() ==> (#[trigger] b1.groups@[gi]).year
                == b2.groups@[gi].year,
{
    let s1 = Seq::new(b1.groups@.len(), |gi: int| b1.groups@[gi].year);
    let s2 = Seq::new(b2.groups@.len(), |gi: int| b2.groups@[gi].year);
    lemma_bucket_years_match_rows(b1, rows, s1);
    lemma_bucket_years_match_rows(b2, rows, s2);
    assert forall|y: u32| #[trigger] s1.contains(y) <==> s2.contains(y) by {
        if s1.contains(y) {
            assert(year_present(rows, y));
            assert(s2.contains(y));
        }
        if s2.contains(y) {
            assert(year_present(rows, y));
            assert(s1.contains(y));
        }
    }
    lemma_ascending_unique(s1, s2);
    assert forall|gi: int| 0 <= gi < b1.groups@.len() implies (#[trigger] b1.groups@[gi]).year
        == b2.groups@[gi].year by {
        assert(s1[gi] == s2[gi]);
    }
}

/// The year sequence of a well-formed, covering bucket set is strictly
/// ascending and holds exactly the years present among the rows.
proof fn lemma_bucket_years_match_rows(b: &YearBuckets, rows: Seq<DataRow>, s: Seq<u32>)
    requires
        b.wf_for(rows),
        b.covers(rows),
        s == Seq::new(b.groups@.len(), |gi: int| b.groups@[gi].year),
    ensures
        strictly_ascending(s),
        forall|y: u32| #[trigger] s.contains(y) <==> year_present(rows, y),
{
    assert forall|y: u32| #[trigger] s.contains(y) implies year_present(rows, y) by {
        let gi = choose|gi: int| 0 <= gi < s.len() && s[gi] == y;
        assert(b.groups@[gi].year == y);
        assert(year_present(rows, b.groups@[gi].year));
    }
    assert forall|y: u32| year_present(rows, y) implies #[trigger] s.contains(y) by {
        let n = choose|n: int|
            0 <= n < rows.len() && year_of_label((#[trigger] rows[n]).perioden.title@) == Some(
                y as int,
            );
        assert(b.has_bucket_for(rows[n].perioden.title@));
        let gi = choose|gi: int|
            0 <= gi < b.groups@.len() && year_of_label(rows[n].perioden.title@) == Some(
                (#[trigger] b.groups@[gi]).year as int,
            );
        assert(b.groups@[gi].year == y);
        assert(s[gi] == y);
    }
}

/// The distinct values of `v`, in strictly ascending order.
pub fn sorted_unique(v: &Vec<u32>) -> (r: Vec<u32>)
    ensures
        strictly_ascending(r@),
        forall|y: u32| #[trigger] r@.contains(y) <==> v@.contains(y),
{
    let mut r: Vec<u32> = Vec::new();
    let mut i: usize = 0;
    proof {
        assert(v@.take(0int) =~= Seq::<u32>::empty());
    }
    while i < v.len()
        invariant
            0 <= i <= v@.len(),
            strictly_ascending(r@),
            forall|y: u32| #[trigger] r@.contains(y) <==> v@.take(i as int).contains(y),
        decreases v@.len() - i,
    {
        let x = v[i];
        let ghost old_r = r@;
        let mut p: usize = 0;
        while p < r.len() && r[p] < x
            invariant
                0 <= p <= r@.len(),
                r@ == old_r,
                forall|k: int| 0 <= k < p ==> r@[k] < x,
            decreases r@.len() - p,
        {
            p = p + 1;
        }
        if p < r.len() && r[p] == x {
            // Already present.
            proof {
                assert(r@.contains(x)) by {
                    assert(r@[p as int] == x);
                }
            }
        } else {
            proof {
                r@.insert_ensures(p as int, x);
                assert(!old_r.contains(x)) by {
                    if old_r.contains(x) {
                        let w = choose|w: int| 0 <= w < old_r.len() && old_r[w] == x;
                        if w < p {
                            assert(old_r[w] < x);
                        } else if w == p {
                        } else {
                            assert(old_r[p as int] < old_r[w]);
                        }
                    }
                }
            }
            r.insert(p, x);
            proof {
                // Strict ascent is kept around the insertion point.
                assert forall|a: int, b: int| 0 <= a < b < r@.len() implies r@[a] < r@[b] by {
                    if b < p {
                        assert(r@[a] == old_r[a] && r@[b] == old_r[b]);
                    } else if a < p && b == p {
                        assert(r@[a] == old_r[a] && r@[b] == x);
                    } else if a < p && b > p {
                        assert(r@[a] == old_r[a] && r@[b] == old_r[b - 1]);
                        if b - 1 == p as int {
                            assert(old_r[p as int] >= x);
                        }
                    } else if a == p {
                        assert(r@[a] == x && r@[b] == old_r[b - 1]);
                        assert(old_r[b - 1] >= old_r[p as int] >= x);
                        assert(old_r[b - 1] != x);
                    } else {
                        assert(r@[a] == old_r[a - 1] && r@[b] == old_r[b - 1]);
                    }
                }
                // Membership gains exactly `x`.
                assert forall|y: u32| #[trigger] r@.contains(y) implies (old_r.contains(y) || y
                    == x) by {
                    let w = choose|w: int| 0 <= w < r@.len() && r@[w] == y;
                    if w < p {
                        assert(old_r[w] == y);
                    } else if w > p {
                        assert(old_r[w - 1] == y);
                    }
                }
                assert forall|y: u32| old_r.contains(y) || y == x implies #[trigger] r@.contains(
                    y,
                ) by {
                    if y == x {
                        assert(r@[p as int] == x);
                    } else {
                        let w = choose|w: int| 0 <= w < old_r.len() && old_r[w] == y;
                        if w < p {
                            assert(r@[w] == y);
                        } else {
                            assert(r@[w + 1] == y);
                        }
                    }
                }
            }
        }
        proof {
            // The scanned prefix grows by one element, `x`.
            assert forall|y: u32| #[trigger] v@.take(i + 1).contains(y) implies r@.contains(y) by {
                let w = choose|w: int| 0 <= w < i + 1 && #[trigger] v@.take(i + 1)[w] == y;
                if w < i {
                    assert(v@.take(i as int)[w] == y);
                } else {
                    assert(y == x);
                }
            }
            assert forall|y: u32| #[trigger] r@.contains(y) implies v@.take(i + 1).contains(y) by {
                if y == x {
                    assert(v@.take(i + 1)[i as int] == x);
                } else {
                    assert(v@.take(i as int).contains(y));
                    let w = choose|w: int| 0 <= w < i && v@.take(i as int)[w] == y;
                    assert(v@.take(i + 1)[w] == y);
                }
            }
        }
        i = i + 1;
    }
    proof {
        assert(v@.take(v@.len() as int) =~= v@);
    }
    r
}

/// The indices whose year equals `y`, ascending.
pub fn members_for(ys: &Vec<u32>, y: u32) -> (ms: Vec<usize>)
    ensures
        forall|a: int, b: int| 0 <= a < b < ms@.len() ==> ms@[a] < ms@[b],
        forall|k: int| 0 <= k < ms@.len() ==> (#[trigger] ms@[k]) < ys@.len(),
        forall|n: usize| n < ys@.len() ==> (#[trigger] ms@.contains(n) <==> ys@[n as int] == y),
{
    let mut ms: Vec<usize> = Vec::new();
    let mut i: usize = 0;
    while i < ys.len()
        invariant
            0 <= i <= ys@.len(),
            forall|a: int, b: int| 0 <= a < b < ms@.len() ==> ms@[a] < ms@[b],
            forall|k: int| 0 <= k < ms@.len() ==> (#[trigger] ms@[k]) < i,
            forall|n: usize| n < i ==> (#[trigger] ms@.contains(n) <==> ys@[n as int] == y),
        decreases ys@.len() - i,
    {
        let ghost old_ms = ms@;
        if ys[i] == y {
            ms.push(i);
            proof {
                assert forall|n: usize| n < i + 1 implies (#[trigger] ms@.contains(n) <==> ys@[n as int]
                    == y) by {
                    assert(ms@[old_ms.len() as int] == i);
                    if n < i {
                        if old_ms.contains(n) {
                            let w = choose|w: int| 0 <= w < old_ms.len() && old_ms[w] == n;
                            assert(ms@[w] == n);
                        }
                        if ms@.contains(n) {
                            let w = choose|w: int| 0 <= w < ms@.len() && ms@[w] == n;
                            if w < old_ms.len() {
                                assert(old_ms[w] == n);
                            }
                        }
                    } else {
                        assert(ms@.contains(i));
                    }
                }
            }
        } else {
            proof {
                assert forall|n: usize| n < i + 1 implies (#[trigger] ms@.contains(n) <==> ys@[n as int]
                    == y) by {
                    if n == i {
                        if ms@.contains(n) {
                            let w = choose|w: int| 0 <= w < ms@.len() && ms@[w] == n;
                            assert(ms@[w] < i);
                        }
                    }
                }
            }
        }
        i = i + 1;
    }
    ms
}

/// Whether some row of `rows` carries the year `y` in its period label.
pub open spec fn year_present(rows: Seq<DataRow>, y: u32) -> bool {
    exists|n: int|
        0 <= n < rows.len() && year_of_label((#[trigger] rows[n]).perioden.title@) == Some(y as int)
}

/// One year's bucket: the year and the indices (into the row vector, in
/// ascending order) of the rows belonging to it.
pub struct YearGroup {
    pub year: u32,
    pub members: Vec<usize>,
}

/// All year buckets of a row set, in strictly ascending year order.
pub struct YearBuckets {
    pub groups: Vec<YearGroup>,
}

impl YearBuckets {
    /// Structural well-formedness against the row vector the buckets were
    /// built from: years strictly ascending, members in range and ascending,
    /// and each bucket holding exactly the indices of the rows of its year.
    pub open spec fn wf_for(&self, rows: Seq<DataRow>) -> bool {
        &&& forall|a: int, b: int|
            0 <= a < b < self.groups@.len() ==> (#[trigger] self.groups@[a]).year < (
            #[trigger] self.groups@[b]).year
        &&& forall|gi: int, a: int, b: int|
            0 <= gi < self.groups@.len() && 0 <= a < b < self.groups@[gi].members@.len() ==> (
            #[trigger] self.groups@[gi].members@[a]) < (#[trigger] self.groups@[gi].members@[b])
        &&& forall|gi: int, k: int|
            0 <= gi < self.groups@.len() && 0 <= k < self.groups@[gi].members@.len() ==> (
            #[trigger] self.groups@[gi].members@[k]) < rows.len()
        &&& forall|gi: int, n: usize|
            0 <= gi < self.groups@.len() && n < rows.len() ==> ((#[trigger] self.groups@[gi].members@.contains(
                n,
            )) <==> year_of_label(rows[n as int].perioden.title@) == Some(
                self.groups@[gi].year as int,
            ))
    }

    /// Whether some bucket carries the year that `label` names.
    pub open spec fn has_bucket_for(&self, label: Seq<char>) -> bool {
        exists|gi: int|
            0 <= gi < self.groups@.len() && year_of_label(label) == Some(
                (#[trigger] self.groups@[gi]).year as int,
            )
    }

    /// Every bucket's year is some row's year, and every row's year appears
    /// as a bucket.
    pub open spec fn covers(&self, rows: Seq<DataRow>) -> bool {
        &&& forall|gi: int|
            0 <= gi < self.groups@.len() ==> year_present(
                rows,
                (#[trigger] self.groups@[gi]).year,
            )
        &&& forall|n: int|
            0 <= n < rows.len() ==> self.has_bucket_for((#[trigger] rows[n]).perioden.title@)
    }

    /// The bucket years, ascending: the labels of the shared year axis.
    pub fn years_sorted(&self) -> (r: Vec<u32>)
        ensures
            r@.len() == self.groups@.len(),
            forall|gi: int| 0 <= gi < r@.len() ==> (#[trigger] r@[gi]) == self.groups@[gi].year,
    {
        let mut r: Vec<u32> = Vec::new();
        let mut i: usize = 0;
        while i < self.groups.len()
            invariant
                0 <= i <= self.groups@.len(),
                r@.len() == i,
                forall|gi: int| 0 <= gi < i ==> (#[trigger] r@[gi]) == self.groups@[gi].year,
            decreases self.groups@.len() - i,
        {
            r.push(self.groups[i].year);
            i = i + 1;
        }
        r
    }

    /// The bucket years rendered as canonical decimal strings, ascending:
    /// the labels of the shared year axis.
    pub fn year_labels(&self) -> (r: Vec<String>)
        ensures
            r@.len() == self.groups@.len(),
            forall|gi: int|
                0 <= gi < r@.len() ==> is_year_label(
                    (#[trigger] r@[gi])@,
                    self.groups@[gi].year,
                ),
    {
        let mut r: Vec<String> = Vec::new();
        let mut i: usize = 0;
        while i < self.groups.len()
            invariant
                0 <= i <= self.groups@.len(),
                r@.len() == i,
                forall|gi: int|
                    0 <= gi < i ==> is_year_label((#[trigger] r@[gi])@, self.groups@[gi].year),
            decreases self.groups@.len() - i,
        {
            r.push(year_label(self.groups[i].year));
            i = i + 1;
        }
        r
    }
}

/// Group the rows by the year of their period label. Succeeds exactly when
/// every period label parses as a year; the buckets then hold each row index
/// under its year, with years strictly ascending. An unparsable label fails
/// with `InvalidYear` carrying the first offending label.
pub fn group_by_year(rows: &Vec<DataRow>) -> (r: Result<YearBuckets, PipelineError>)
    ensures
        r is Ok <==> (forall|i: int|
            0 <= i < rows@.len() ==> year_of_label(
                (#[trigger] rows@[i]).perioden.title@,
            ) is Some),
        r matches Ok(b) ==> b.wf_for(rows@) && b.covers(rows@),
        r matches Err(e) ==> e matches PipelineError::InvalidYear(t) && (exists|k: int|
            {
                &&& 0 <= k < rows@.len()
                &&& year_of_label((#[trigger] rows@[k]).perioden.title@) is None
                &&& t@ == rows@[k].perioden.title@
                &&& forall|j: int|
                    0 <= j < k ==> year_of_label((#[trigger] rows@[j]).perioden.title@) is Some
            }),
{
    let ys = match years_of(rows) {
        Ok(ys) => ys,
        Err(e) => {
            return Err(e);
        },
    };
    let sorted = sorted_unique(&ys);
    let mut groups: Vec<YearGroup> = Vec::new();
    let mut gi: usize = 0;
    while gi < sorted.len()
        invariant
            0 <= gi <= sorted@.len(),
            groups@.len() == gi,
            ys@.len() == rows@.len(),
            strictly_ascending(sorted@),
            forall|i: int|
                0 <= i < rows@.len() ==> year_of_label(rows@[i].perioden.title@) == Some(
                    (#[trigger] ys@[i]) as int,
                ),
            forall|g: int| 0 <= g < gi ==> (#[trigger] groups@[g]).year == sorted@[g],
            forall|g: int, a: int, b: int|
                0 <= g < gi && 0 <= a < b < groups@[g].members@.len() ==> (
                #[trigger] groups@[g].members@[a]) < (#[trigger] groups@[g].members@[b]),
            forall|g: int, k: int|
                0 <= g < gi && 0 <= k < groups@[g].members@.len() ==> (
                #[trigger] groups@[g].members@[k]) < rows@.len(),
            forall|g: int, n: usize|
                0 <= g < gi && n < rows@.len() ==> ((#[trigger] groups@[g].members@.contains(n))
                    <==> ys@[n as int] == groups@[g].year),
        decreases sorted@.len() - gi,
    {
        let y = sorted[gi];
        let ms = members_for(&ys, y);
        groups.push(YearGroup { year: y, members: ms });
        gi = gi + 1;
    }
    let b = YearBuckets { groups };
    proof {
        assert forall|g: int, n: usize| 0 <= g < b.groups@.len() && n < rows@.len() implies ((
        #[trigger] b.groups@[g].members@.contains(n)) <==> year_of_label(
            rows@[n as int].perioden.title@,
        ) == Some(b.groups@[g].year as int)) by {
            let yv = ys@[n as int];
            assert(year_of_label(rows@[n as int].perioden.title@) == Some(yv as int));
        }
        assert forall|g: int| 0 <= g < b.groups@.len() implies year_present(
            rows@,
            (#[trigger] b.groups@[g]).year,
        ) by {
            let y = b.groups@[g].year;
            assert(sorted@[g] == y);
            assert(sorted@.contains(y));
            assert(ys@.contains(y));
            let n = choose|n: int| 0 <= n < ys@.len() && ys@[n] == y;
            assert(year_of_label(rows@[n].perioden.title@) == Some(y as int));
        }
        assert forall|n: int| 0 <= n < rows@.len() implies b.has_bucket_for(
            (#[trigger] rows@[n]).perioden.title@,
        ) by {
            let y = ys@[n];
            assert(year_of_label(rows@[n].perioden.title@) == Some(y as int));
            assert(ys@.contains(y));
            assert(sorted@.contains(y));
            let g = choose|g: int| 0 <= g < sorted@.len() && sorted@[g] == y;
            assert(b.groups@[g].year == y);
        }
    }
    Ok(b)
}

/// Whether `s` is the canonical decimal rendering of the year `y`: digits
/// only, the right value, and no leading zero.
pub open spec fn is_year_label(s: Seq<char>, y: u32) -> bool {
    &&& 1 <= s.len()
    &&& all_digits(s)
    &&& digits_val(s) == y as int
    &&& s.len() > 1 ==> s[0] != '0'
}

/// One decimal digit as a string.
fn digit_str(d: u32) -> (s: String)
    requires
        d < 10,
    ensures
        s@.len() == 1,
        is_dec_digit(s@[0]),
        digit_val(s@[0]) == d as int,
{
    match d {
        0 => {
            proof {
                reveal_strlit("0");
            }
            "0".to_owned()
        },
        1 => {
            proof {
                reveal_strlit("1");
            }
            "1".to_owned()
        },
        2 => {
            proof {
                reveal_strlit("2");
            }
            "2".to_owned()
        },
        3 => {
            proof {
                reveal_strlit("3");
            }
            "3".to_owned()
        },
        4 => {
            proof {
                reveal_strlit("4");
            }
            "4".to_owned()
        },
        5 => {
            proof {
                reveal_strlit("5");
            }
            "5".to_owned()
        },
        6 => {
            proof {
                reveal_strlit("6");
            }
            "6".to_owned()
        },
        7 => {
            proof {
                reveal_strlit("7");
            }
            "7".to_owned()
        },
        8 => {
            proof {
                reveal_strlit("8");
            }
            "8".to_owned()
        },
        _ => {
            proof {
                reveal_strlit("9");
            }
            "9".to_owned()
        },
    }
}

/// Render a year as its canonical decimal string, for axis labeling.
pub fn year_label(y: u32) -> (s: String)
    ensures
        is_year_label(s@, y),
    decreases y,
{
    if y < 10 {
        let s = digit_str(y);
        proof {
            assert(s@.drop_last().len() == 0);
            assert(digits_val(s@) == digits_val(s@.drop_last()) * 10 + digit_val(s@.last()));
            assert(s@.last() == s@[0]);
            assert(all_digits(s@)) by {
                assert(is_dec_digit(s@[0]));
            }
        }
        s
    } else {
        let mut s = year_label(y / 10);
        let d = digit_str(y % 10);
        let ghost prefix = s@;
        s.append(d.as_str());
        proof {
            assert(s@.drop_last() =~= prefix);
            assert(s@.last() == d@[0]);
            assert(digits_val(s@) == digits_val(prefix) * 10 + digit_val(d@[0]));
            assert((y / 10) * 10 + (y % 10) == y) by (nonlinear_arith);
            assert forall|i: int| 0 <= i < s@.len() implies is_dec_digit(#[trigger] s@[i]) by {
                if i < prefix.len() {
                    assert(s@[i] == prefix[i]);
                } else {
                    assert(s@[i] == s@.last());
                }
            }
            assert(s@[0] == prefix[0]);
            if prefix.len() == 1 {
                assert(digits_val(prefix) == digits_val(prefix.drop_last()) * 10 + digit_val(
                    prefix.last(),
                ));
                assert(prefix.last() == prefix[0]);
                assert(digit_val(prefix[0]) >= 1);
                assert(prefix[0] != '0');
            }
        }
        s
    }
}

/// A category predicate over enriched rows: either the gender label equals a
/// given title, or the person-trait label is among a given set of titles.
/// These are the two predicate forms the reference panels use.
pub enum RowFilter {
    GenderTitleIs(String),
    TraitTitleAmong(Vec<String>),
}

/// Whether `title` occurs among the titles `ts`.
pub open spec fn title_among(title: Seq<char>, ts: Seq<String>) -> bool {
    exists|i: int| 0 <= i < ts.len() && title == (#[trigger] ts[i])@
}

/// What a filter means: the row's gender title equals the given one, or the
/// row's person-trait title occurs among the given ones.
pub open spec fn spec_matches(f: RowFilter, row: DataRow) -> bool {
    match f {
        RowFilter::GenderTitleIs(t) => row.geslacht.title@ == t@,
        RowFilter::TraitTitleAmong(ts) => title_among(row.persoonskenmerken.title@, ts@),
    }
}

/// Decide whether a row matches a filter.
pub fn row_matches(f: &RowFilter, row: &DataRow) -> (b: bool)
    ensures
        b == spec_matches(*f, *row),
{
    match f {
        RowFilter::GenderTitleIs(t) => row.geslacht.title.eq(t),
        RowFilter::TraitTitleAmong(ts) => {
            let mut i: usize = 0;
            while i < ts.len()
                invariant
                    *f == RowFilter::TraitTitleAmong(*ts),
                    0 <= i <= ts@.len(),
                    forall|j: int|
                        0 <= j < i ==> row.persoonskenmerken.title@ != (#[trigger] ts@[j])@,
                decreases ts@.len() - i,
            {
                if row.persoonskenmerken.title.eq(&ts[i]) {
                    proof {
                        assert(row.persoonskenmerken.title@ == (ts@[i as int])@);
                        assert(title_among(row.persoonskenmerken.title@, ts@));
                    }
                    return true;
                }
                i = i + 1;
            }
            false
        },
    }
}

/// The metric a member index contributes under a filter: the row's public
/// transport metric, where the index is in range, the row matches, and the
/// metric is present.
pub open spec fn member_metric(rows: Seq<DataRow>, n: usize, f: RowFilter) -> Option<int> {
    if n < rows.len() && spec_matches(f, rows[n as int]) {
        match rows[n as int].gebruik_openbaar_vervoer {
            Some(m) => Some(m.milli as int),
            None => None,
        }
    } else {
        None
    }
}

/// The sum of the present metrics of the matching members, in thousandths.
pub open spec fn metric_sum(rows: Seq<DataRow>, members: Seq<usize>, f: RowFilter) -> int
    decreases members.len(),
{
    if members.len() == 0 {
        0
    } else {
        metric_sum(rows, members.drop_last(), f) + match member_metric(rows, members.last(), f) {
            Some(v) => v,
            None => 0,
        }
    }
}

/// How many members match the filter and carry a present metric.
pub open spec fn metric_count(rows: Seq<DataRow>, members: Seq<usize>, f: RowFilter) -> int
    decreases members.len(),
{
    if members.len() == 0 {
        0int
    } else {
        metric_count(rows, members.drop_last(), f) + if member_metric(
            rows,
            members.last(),
            f,
        ) is Some {
            1int
        } else {
            0int
        }
    }
}

/// An exact arithmetic mean: the sum of the contributing metrics in
/// thousandths, and how many contributed. The mean itself is the fraction
/// `sum_milli / (1000 * count)`; the division is left to the caller so that
/// the library never rounds and never produces a non-finite number.
pub struct Mean {
    pub sum_milli: i128,
    pub count: usize,
}

/// Average the public transport metric over the members of one bucket that
/// match the filter, excluding absent metrics from both the numerator and
/// the denominator. Returns `None` exactly when no matching member carries a
/// present metric — an explicit missing point, by design, rather than the
/// non-finite number a zero-by-zero division would give.
pub fn average_for(rows: &Vec<DataRow>, members: &Vec<usize>, f: &RowFilter) -> (r: Option<Mean>)
    requires
        forall|k: int| 0 <= k < members@.len() ==> (#[trigger] members@[k]) < rows@.len(),
        forall|n: int| 0 <= n < rows@.len() ==> (#[trigger] rows@[n]).metrics_wf(),
    ensures
        r is None <==> metric_count(rows@, members@, *f) == 0,
        r matches Some(m) ==> m.sum_milli == metric_sum(rows@, members@, *f) && m.count
            == metric_count(rows@, members@, *f) && m.count > 0,
{
    let mut sum: i128 = 0;
    let mut count: usize = 0;
    let mut k: usize = 0;
    proof {
        assert(members@.take(0int) =~= Seq::<usize>::empty());
    }
    while k < members.len()
        invariant
            forall|q: int| 0 <= q < members@.len() ==> (#[trigger] members@[q]) < rows@.len(),
            forall|n: int| 0 <= n < rows@.len() ==> (#[trigger] rows@[n]).metrics_wf(),
            0 <= k <= members@.len(),
            sum == metric_sum(rows@, members@.take(k as int), *f),
            count == metric_count(rows@, members@.take(k as int), *f),
            count <= k,
            -(k as int) * 1_000_000_000_000_000 <= sum <= (k as int) * 1_000_000_000_000_000,
        decreases members@.len() - k,
    {
        let n = members[k];
        proof {
            assert(members@.take(k + 1).drop_last() =~= members@.take(k as int));
            assert(members@.take(k + 1).last() == members@[k as int]);
            assert((k as int + 1) * 1_000_000_000_000_000 == (k as int) * 1_000_000_000_000_000
                + 1_000_000_000_000_000);
            assert((k as int + 1) * 1_000_000_000_000_000
                <= 0x7fff_ffff_ffff_ffff_ffff_ffff_ffff_ffff) by (nonlinear_arith)
                requires
                    0 <= k < 0xffff_ffff_ffff_ffff,
            ;
        }
        if row_matches(f, &rows[n]) {
            match rows[n].gebruik_openbaar_vervoer {
                Some(m) => {
                    sum = sum + m.milli as i128;
                    count = count + 1;
                },
                None => {},
            }
        }
        k = k + 1;
    }
    proof {
        assert(members@.take(members@.len() as int) =~= members@);
    }
    if count == 0 {
        None
    } else {
        Some(Mean { sum_milli: sum, count })
    }
}

/// One chart series under a filter: for each bucket, in ascending year
/// order, the exact mean of the matching rows' public transport metric, or
/// an explicit missing point where no matching row carries one.
pub fn series_for(rows: &Vec<DataRow>, buckets: &YearBuckets, f: &RowFilter) -> (r: Vec<
    Option<Mean>,
>)
    requires
        forall|gi: int, k: int|
            0 <= gi < buckets.groups@.len() && 0 <= k < buckets.groups@[gi].members@.len() ==> (
            #[trigger] buckets.groups@[gi].members@[k]) < rows@.len(),
        forall|n: int| 0 <= n < rows@.len() ==> (#[trigger] rows@[n]).metrics_wf(),
    ensures
        r@.len() == buckets.groups@.len(),
        forall|gi: int|
            0 <= gi < buckets.groups@.len() ==> ((#[trigger] r@[gi]) is None <==> metric_count(
                rows@,
                buckets.groups@[gi].members@,
                *f,
            ) == 0),
        forall|gi: int|
            0 <= gi < buckets.groups@.len() ==> ((#[trigger] r@[gi]) matches Some(m) ==> m.sum_milli
                == metric_sum(rows@, buckets.groups@[gi].members@, *f) && m.count == metric_count(
                rows@,
                buckets.groups@[gi].members@,
                *f,
            )),
{
    let mut r: Vec<Option<Mean>> = Vec::new();
    let mut gi: usize = 0;
    while gi < buckets.groups.len()
        invariant
            forall|g: int, k: int|
                0 <= g < buckets.groups@.len() && 0 <= k < buckets.groups@[g].members@.len() ==> (
                #[trigger] buckets.groups@[g].members@[k]) < rows@.len(),
            forall|n: int| 0 <= n < rows@.len() ==> (#[trigger] rows@[n]).metrics_wf(),
            0 <= gi <= buckets.groups@.len(),
            r@.len() == gi,
            forall|g: int|
                0 <= g < gi ==> ((#[trigger] r@[g]) is None <==> metric_count(
                    rows@,
                    buckets.groups@[g].members@,
                    *f,
                ) == 0),
            forall|g: int|
                0 <= g < gi ==> ((#[trigger] r@[g]) matches Some(m) ==> m.sum_milli == metric_sum(
                    rows@,
                    buckets.groups@[g].members@,
                    *f,
                ) && m.count == metric_count(rows@, buckets.groups@[g].members@, *f)),
        decreases buckets.groups@.len() - gi,
    {
        let point = average_for(rows, &buckets.groups[gi].members, f);
        r.push(point);
        gi = gi + 1;
    }
    r
}

} // verus!
