//! Runs of neighbouring bottles given as ranges: their checks and the
//! flags that mark them.
use vstd::prelude::*;

use crate::bits::Bits;
use crate::starting::StartError;
use crate::state::{BOTTLE_COUNT, State, flags_view};

verus! {

/// Whether range `a` does not come after range `b` (lexicographic order).
pub open spec fn range_le(a: (u8, u8), b: (u8, u8)) -> bool {
    a.0 < b.0 || (a.0 == b.0 && a.1 <= b.1)
}

/// The error of the first malformed range among `r[j..]`, if any.
pub open spec fn range_error_from(r: Seq<(u8, u8)>, count: int, j: int) -> Option<StartError>
    decreases r.len() - j,
{
    if j >= r.len() {
        None
    } else {
        if r[j].0 == 0 || r[j].1 == 0 {
            Some(StartError::RangeContainsZero)
        } else if r[j].0 >= r[j].1 {
            Some(StartError::InvalidRange)
        } else if r[j].0 > count || r[j].1 > count + 1 {
            Some(StartError::RangeTooLarge)
        } else {
            range_error_from(r, count, j + 1)
        }
    }
}

/// Why a list of bottle ranges `[from, to)` over `count` bottles is refused:
/// not sorted, overlapping, or a range that is empty, reversed, touches
/// slot zero or leaves the bottles.
pub open spec fn run_error(r: Seq<(u8, u8)>, count: int) -> Option<StartError> {
    if exists|i: int| 0 <= i < r.len() - 1 && !range_le(#[trigger] r[i], r[i + 1]) {
        Some(StartError::RangesNotSorted)
    } else if exists|i: int| 0 <= i < r.len() - 1 && #[trigger] r[i].1 > r[i + 1].0 {
        Some(StartError::RangesOverlapping)
    } else {
        range_error_from(r, count, 0)
    }
}

/// Whether bottle `x` lies in one of the ranges.
pub open spec fn in_ranges(r: Seq<(u8, u8)>, x: int) -> bool {
    exists|j: int| 0 <= j < r.len() && (#[trigger] r[j]).0 <= x < r[j].1
}

/// Whether a range starts or ends at bottle `x`.
pub open spec fn is_boundary(r: Seq<(u8, u8)>, x: int) -> bool {
    exists|j: int| 0 <= j < r.len() && ((#[trigger] r[j]).0 == x || r[j].1 == x)
}

/// The run flags of valid ranges: zero at bottle one, flipping exactly where
/// a range starts or ends, and clear outside the bottles.
pub open spec fn is_run_of(run: Seq<bool>, r: Seq<(u8, u8)>, count: int) -> bool {
    &&& run.len() == 32
    &&& !run[0]
    &&& !run[1]
    &&& forall|x: int| 1 <= x < count ==> #[trigger] run[x + 1] == (run[x] != is_boundary(r, x + 1))
    &&& forall|x: int| count < x < 32 ==> !#[trigger] run[x]
}

/// The flag of a run at bottle `x`: false at bottle one, flipping at every
/// bottle where a range starts or ends.
pub open spec fn run_bit(r: Seq<(u8, u8)>, x: int) -> bool
    decreases x,
{
    if x <= 1 {
        false
    } else {
        run_bit(r, x - 1) != is_boundary(r, x)
    }
}

/// The run flags of all bottle slots: `run_bit` on the bottles `1..=count`,
/// clear elsewhere.
pub open spec fn run_flags(r: Seq<(u8, u8)>, count: int) -> Seq<bool> {
    Seq::new(32, |x: int| 1 <= x <= count && run_bit(r, x))
}

proof fn lemma_run_flags(run: Seq<bool>, r: Seq<(u8, u8)>, count: int)
    requires
        is_run_of(run, r, count),
        0 <= count < 32,
    ensures
        run == run_flags(r, count),
{
    assert forall|x: int| 1 <= x <= count implies run[x] == run_bit(r, x) by {
        lemma_run_bit_from(run, r, count, x);
    }
    assert(run =~= run_flags(r, count));
}

proof fn lemma_run_bit_from(run: Seq<bool>, r: Seq<(u8, u8)>, count: int, x: int)
    requires
        is_run_of(run, r, count),
        1 <= x <= count,
        count < 32,
    ensures
        run[x] == run_bit(r, x),
    decreases x,
{
    if x > 1 {
        lemma_run_bit_from(run, r, count, x - 1);
        assert(run[(x - 1) + 1] == (run[x - 1] != is_boundary(r, (x - 1) + 1)));
    }
}

/// Two neighbouring bottles with the same run flag lie both inside or both
/// outside the ranges.
pub proof fn lemma_run_same_side(r: Seq<(u8, u8)>, count: int, b: int)
    requires
        1 <= b < count < 32,
        run_flags(r, count)[b] == run_flags(r, count)[b + 1],
    ensures
        in_ranges(r, b) == in_ranges(r, b + 1),
{
    assert(run_bit(r, b + 1) == (run_bit(r, b) != is_boundary(r, b + 1)));
    assert(!is_boundary(r, b + 1));
    if in_ranges(r, b) {
        let j = choose|j: int| 0 <= j < r.len() && (#[trigger] r[j]).0 <= b < r[j].1;
        assert(!(r[j].0 == b + 1 || r[j].1 == b + 1));
        assert(r[j].0 <= b + 1 < r[j].1);
    }
    if in_ranges(r, b + 1) {
        let j = choose|j: int| 0 <= j < r.len() && (#[trigger] r[j]).0 <= b + 1 < r[j].1;
        assert(!(r[j].0 == b + 1 || r[j].1 == b + 1));
        assert(r[j].0 <= b < r[j].1);
    }
}

proof fn lemma_sorted_ranges(r: Seq<(u8, u8)>, j: int, k: int)
    requires
        forall|i: int| 0 <= i < r.len() - 1 ==> #[trigger] r[i].1 <= r[i + 1].0,
        forall|i: int| 0 <= i < r.len() ==> (#[trigger] r[i]).0 < r[i].1,
        0 <= j < k < r.len(),
    ensures
        r[j].1 <= r[k].0,
    decreases k - j,
{
    if k > j + 1 {
        lemma_sorted_ranges(r, j, k - 1);
        assert(r[k - 1].1 <= r[k].0);
    }
}

/// Checks that bottle ranges are sorted, do not overlap, and each lies
/// within `1..=count` with `from < to`; gives the first failure.
fn check_ranges(ranges: &Vec<(u8, u8)>, count: u8) -> (r: Option<StartError>)
    requires
        count < BOTTLE_COUNT,
    ensures
        r == run_error(ranges@, count as int),
{
    let ghost rs = ranges@;
    let n = ranges.len();
    let mut i: usize = 1;
    while i < n
        invariant
            n == rs.len(),
            rs == ranges@,
            1 <= i,
            forall|k: int| 0 <= k < i - 1 && k < n - 1 ==> range_le(#[trigger] rs[k], rs[k + 1]),
        decreases n - i,
    {
        let a = ranges[i - 1];
        let b = ranges[i];
        if !(a.0 < b.0 || (a.0 == b.0 && a.1 <= b.1)) {
            assert(!range_le(rs[i - 1], rs[(i - 1) + 1]));
            return Some(StartError::RangesNotSorted);
        }
        i = i + 1;
    }
    let mut i: usize = 1;
    while i < n
        invariant
            n == rs.len(),
            rs == ranges@,
            1 <= i,
            forall|k: int| 0 <= k < n - 1 ==> range_le(#[trigger] rs[k], rs[k + 1]),
            forall|k: int| 0 <= k < i - 1 && k < n - 1 ==> #[trigger] rs[k].1 <= rs[k + 1].0,
        decreases n - i,
    {
        if ranges[i - 1].1 > ranges[i].0 {
            assert(rs[i - 1].1 > rs[(i - 1) + 1].0);
            return Some(StartError::RangesOverlapping);
        }
        i = i + 1;
    }
    assert(!exists|k: int| 0 <= k < rs.len() - 1 && !range_le(#[trigger] rs[k], rs[k + 1]));
    assert(!exists|k: int| 0 <= k < rs.len() - 1 && #[trigger] rs[k].1 > rs[k + 1].0);
    check_range_bounds(ranges, count)
}

/// The first range among `ranges` that touches slot zero, is empty or
/// reversed, or leaves the `count` bottles.
fn check_range_bounds(ranges: &Vec<(u8, u8)>, count: u8) -> (r: Option<StartError>)
    requires
        count < BOTTLE_COUNT,
    ensures
        r == range_error_from(ranges@, count as int, 0),
{
    let ghost rs = ranges@;
    let n = ranges.len();
    let mut i: usize = 0;
    while i < n
        invariant
            n == rs.len(),
            rs == ranges@,
            count < 32,
            0 <= i <= n,
            range_error_from(rs, count as int, 0) == range_error_from(rs, count as int, i as int),
        decreases n - i,
    {
        let r = ranges[i];
        assert(r == rs[i as int]);
        if r.0 == 0 || r.1 == 0 {
            return Some(StartError::RangeContainsZero);
        }
        if r.0 >= r.1 {
            return Some(StartError::InvalidRange);
        }
        if r.0 > count || r.1 > count + 1 {
            return Some(StartError::RangeTooLarge);
        }
        assert(range_error_from(rs, count as int, i as int) == range_error_from(rs, count as int, i + 1));
        i = i + 1;
    }
    None
}

impl State {
    /// Checks bottle ranges and marks them: flags that flip at every range
    /// border (`run`) and the bottles inside a range (`set`).
    pub(crate) fn compute_run(&self, ranges: &Vec<(u8, u8)>) -> (r: Result<(Bits<2>, Bits<2>), StartError>)
        requires
            self@.bottle_count < BOTTLE_COUNT,
        ensures
            match r {
                Err(e) => run_error(ranges@, self@.bottle_count as int) == Some(e),
                Ok((run, set)) => run_error(ranges@, self@.bottle_count as int) is None
                    && flags_view(run) == run_flags(ranges@, self@.bottle_count as int)
                    && flags_view(set) == Seq::new(32, |x: int| in_ranges(ranges@, x)),
            },
    {
        let ghost rs = ranges@;
        let count = self.bottle_count();
        let n = ranges.len();
        match check_ranges(ranges, count) {
            Some(e) => {
                return Err(e);
            },
            None => {},
        }
        let mut run = Bits::<2>::zero();
        let mut set = Bits::<2>::zero();
        let mut bit = false;
        let mut x: u8 = 1;
        while x <= count
            invariant
                n == rs.len(),
                rs == ranges@,
                count == self@.bottle_count,
                count < 32,
                1 <= x <= count + 1,
                x >= 2 ==> bit == run.spec_has(x - 1),
                x == 1 ==> !bit,
                !run.spec_has(0),
                !set.spec_has(0),
                x >= 2 ==> !run.spec_has(1),
                forall|y: int| x <= y < 32 ==> !#[trigger] run.spec_has(y),
                forall|y: int| count < y < 32 ==> !#[trigger] set.spec_has(y),
                forall|y: int| 1 <= y < x ==> #[trigger] set.spec_has(y) == in_ranges(rs, y),
                forall|y: int|
                    1 <= y && y + 1 < x ==> #[trigger] run.spec_has(y + 1) == (run.spec_has(y)
                        != is_boundary(rs, y + 1)),
            decreases count + 1 - x,
        {
            let mut boundary = false;
            let mut inside = false;
            let mut k: usize = 0;
            while k < n
                invariant
                    n == rs.len(),
                    rs == ranges@,
                    0 <= k <= n,
                    boundary == exists|q: int| 0 <= q < k && ((#[trigger] rs[q]).0 == x || rs[q].1 == x),
                    inside == exists|q: int| 0 <= q < k && (#[trigger] rs[q]).0 <= x < rs[q].1,
                decreases n - k,
            {
                let r = ranges[k];
                if r.0 == x || r.1 == x {
                    boundary = true;
                }
                if r.0 <= x && x < r.1 {
                    inside = true;
                }
                proof {
                    if boundary {
                        if r.0 == x || r.1 == x {
                            assert(rs[k as int] == r);
                        }
                    }
                    if inside {
                        if r.0 <= x && x < r.1 {
                            assert(rs[k as int] == r);
                        }
                    }
                }
                k = k + 1;
            }
            if x > 1 && boundary {
                bit = !bit;
            }
            run.set(x as usize, bit);
            set.set(x as usize, inside);
            x = x + 1;
        }
        proof {
            assert forall|y: int| 0 <= y < 32 && !(1 <= y <= count) implies !in_ranges(rs, y) by {
                if in_ranges(rs, y) {
                    let j = choose|j: int| 0 <= j < rs.len() && (#[trigger] rs[j]).0 <= y < rs[j].1;
                    lemma_range_ok(rs, count as int, j);
                }
            }
            assert(flags_view(set) =~= Seq::new(32, |y: int| in_ranges(rs, y)));
            assert forall|y: int| 1 <= y < count implies #[trigger] flags_view(run)[y + 1] == (
            flags_view(run)[y] != is_boundary(rs, y + 1)) by {}
            assert(is_run_of(flags_view(run), rs, count as int));
            lemma_run_flags(flags_view(run), rs, count as int);
        }
        Ok((run, set))
    }
}

proof fn lemma_range_ok(r: Seq<(u8, u8)>, count: int, k: int)
    requires
        range_error_from(r, count, 0) is None,
        0 <= k < r.len(),
    ensures
        1 <= r[k].0 < r[k].1 <= count + 1,
        r[k].0 <= count,
{
    lemma_range_ok_from(r, count, 0, k);
}

proof fn lemma_range_ok_from(r: Seq<(u8, u8)>, count: int, j: int, k: int)
    requires
        range_error_from(r, count, j) is None,
        0 <= j <= k < r.len(),
    ensures
        1 <= r[k].0 < r[k].1 <= count + 1,
        r[k].0 <= count,
    decreases k - j,
{
    if j < k {
        lemma_range_ok_from(r, count, j + 1, k);
    }
}

} // verus!

verus! {

/// Valid ranges keep their order: an earlier range ends before a later one
/// starts.
pub proof fn lemma_ranges_ordered(r: Seq<(u8, u8)>, count: int, j: int, k: int)
    requires
        run_error(r, count) is None,
        0 <= j < k < r.len(),
    ensures
        r[j].1 <= r[k].0,
{
    assert forall|i: int| 0 <= i < r.len() - 1 implies #[trigger] r[i].1 <= r[i + 1].0 by {
        if r[i].1 > r[i + 1].0 {
            assert(exists|i: int| 0 <= i < r.len() - 1 && #[trigger] r[i].1 > r[i + 1].0);
        }
    }
    assert forall|i: int| 0 <= i < r.len() implies (#[trigger] r[i]).0 < r[i].1 by {
        lemma_range_ok(r, count, i);
    }
    lemma_sorted_ranges(r, j, k);
}

/// A valid range lies within the bottles, and the `k`-th one starts at
/// bottle `k + 1` or later.
pub proof fn lemma_range_valid(r: Seq<(u8, u8)>, count: int, k: int)
    requires
        run_error(r, count) is None,
        0 <= k < r.len(),
    ensures
        1 <= r[k].0 < r[k].1 <= count + 1,
        r[k].0 <= count,
        k + 1 <= r[k].0,
    decreases k,
{
    lemma_range_ok(r, count, k);
    if k > 0 {
        lemma_range_valid(r, count, k - 1);
        lemma_ranges_ordered(r, count, k - 1, k);
    }
}

/// There are at most as many valid ranges as bottles.
pub proof fn lemma_ranges_len(r: Seq<(u8, u8)>, count: int)
    requires
        run_error(r, count) is None,
        0 <= count,
    ensures
        r.len() <= count,
{
    if r.len() > 0 {
        lemma_range_valid(r, count, r.len() - 1);
    }
}

} // verus!
