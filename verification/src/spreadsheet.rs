//! Row checksums over a spreadsheet of numbers: the sum of each row's
//! spread (largest minus smallest), and the sum of each row's one even
//! quotient.

use vstd::prelude::*;

verus! {

/// The largest of the first `k` entries (`k >= 1`).
pub open spec fn row_max(s: Seq<u32>, k: int) -> int
    decreases k,
{
    if k <= 1 {
        s[0] as int
    } else {
        let m = row_max(s, k - 1);
        if s[k - 1] > m {
            s[k - 1] as int
        } else {
            m
        }
    }
}

/// The smallest of the first `k` entries (`k >= 1`).
pub open spec fn row_min(s: Seq<u32>, k: int) -> int
    decreases k,
{
    if k <= 1 {
        s[0] as int
    } else {
        let m = row_min(s, k - 1);
        if s[k - 1] < m {
            s[k - 1] as int
        } else {
            m
        }
    }
}

/// The spread of a whole row.
pub open spec fn row_spread(s: Seq<u32>) -> int {
    row_max(s, s.len() as int) - row_min(s, s.len() as int)
}

/// The sum of the spreads of the first `k` rows.
pub open spec fn spread_sum(rows: Seq<Vec<u32>>, k: int) -> int
    decreases k,
{
    if k <= 0 {
        0
    } else {
        spread_sum(rows, k - 1) + row_spread(rows[k - 1]@)
    }
}

proof fn lemma_max_ge_min(s: Seq<u32>, k: int)
    requires
        1 <= k <= s.len(),
    ensures
        row_max(s, k) >= row_min(s, k),
        row_max(s, k) <= u32::MAX,
        row_min(s, k) >= 0,
    decreases k,
{
    if k > 1 {
        lemma_max_ge_min(s, k - 1);
    }
}

proof fn lemma_spread_sum_mono(rows: Seq<Vec<u32>>, j: int, k: int)
    requires
        0 <= j <= k <= rows.len(),
        forall|i: int| 0 <= i < rows.len() ==> (#[trigger] rows[i])@.len() > 0,
    ensures
        spread_sum(rows, j) <= spread_sum(rows, k),
    decreases k,
{
    if j < k {
        lemma_spread_sum_mono(rows, j, k - 1);
        lemma_max_ge_min(rows[k - 1]@, rows[k - 1]@.len() as int);
    }
}

/// The sum, over all rows, of the difference between the row's largest and
/// smallest entry.
#[verifier::loop_isolation(false)]
pub fn check_sum(lines: &[Vec<u32>]) -> (sum: u32)
    requires
        forall|i: int| 0 <= i < lines@.len() ==> (#[trigger] lines@[i])@.len() > 0,
        spread_sum(lines@, lines@.len() as int) <= u32::MAX,
    ensures
        sum == spread_sum(lines@, lines@.len() as int),
{
    let mut sum: u32 = 0;
    let mut i: usize = 0;
    while i < lines.len()
        invariant
            0 <= i <= lines@.len(),
            sum == spread_sum(lines@, i as int),
        decreases lines@.len() - i,
    {
        let l = &lines[i];
        let mut biggest: u32 = l[0];
        let mut smallest: u32 = l[0];
        let mut j: usize = 1;
        while j < l.len()
            invariant
                1 <= j <= l@.len(),
                biggest == row_max(l@, j as int),
                smallest == row_min(l@, j as int),
            decreases l@.len() - j,
        {
            if l[j] > biggest {
                biggest = l[j];
            }
            if l[j] < smallest {
                smallest = l[j];
            }
            j = j + 1;
        }
        proof {
            lemma_max_ge_min(l@, l@.len() as int);
            lemma_spread_sum_mono(lines@, i + 1, lines@.len() as int);
        }
        sum = sum + (biggest - smallest);
        i = i + 1;
    }
    sum
}

/// The larger and smaller of two entries, in that order.
pub open spec fn ordered_pair(a: u32, b: u32) -> (u32, u32) {
    if b > a {
        (b, a)
    } else {
        (a, b)
    }
}

/// The first pair of entries, scanning positions `(i, j)` with `j > i` in
/// reading order, whose larger member is a multiple of the smaller.
pub open spec fn best_from(s: Seq<u32>, i: int, j: int) -> Option<(u32, u32)>
    decreases s.len() - i, s.len() - j,
{
    if i < 0 || j <= i || s.len() < 1 {
        None
    } else if i >= s.len() {
        None
    } else if j >= s.len() {
        best_from(s, i + 1, i + 2)
    } else {
        let d = ordered_pair(s[i], s[j]);
        if d.0 as int % d.1 as int == 0 {
            Some(d)
        } else {
            best_from(s, i, j + 1)
        }
    }
}

/// The first evenly dividing pair of the row, if any.
#[verifier::loop_isolation(false)]
pub fn find_best(line: &[u32]) -> (r: Option<(u32, u32)>)
    requires
        forall|i: int| 0 <= i < line@.len() ==> (#[trigger] line@[i]) > 0,
    ensures
        r == best_from(line@, 0, 1),
{
    let n = line.len();
    let mut i: usize = 0;
    while i < n
        invariant
            0 <= i <= n,
            best_from(line@, 0, 1) == best_from(line@, i as int, i + 1),
        decreases n - i,
    {
        let mut j: usize = i + 1;
        while j < n
            invariant
                i < j <= n || j == i + 1,
                i < n,
                best_from(line@, 0, 1) == best_from(line@, i as int, j as int),
            decreases n - j,
        {
            let v0 = line[i];
            let v1 = line[j];
            let d = if v1 > v0 {
                (v1, v0)
            } else {
                (v0, v1)
            };
            if d.0 % d.1 == 0 {
                return Some(d);
            }
            j = j + 1;
        }
        i = i + 1;
    }
    None
}

/// The quotient of each row's first dividing pair, summed over the first
/// `k` rows.
pub open spec fn quotient_sum(rows: Seq<Vec<u32>>, k: int) -> int
    decreases k,
{
    if k <= 0 {
        0
    } else {
        let d = best_from(rows[k - 1]@, 0, 1)->0;
        quotient_sum(rows, k - 1) + d.0 as int / d.1 as int
    }
}

proof fn lemma_quotient_sum_mono(rows: Seq<Vec<u32>>, j: int, k: int)
    requires
        0 <= j <= k <= rows.len(),
        forall|i: int| 0 <= i < rows.len() ==> best_from((#[trigger] rows[i])@, 0, 1) is Some,
        forall|i: int| 0 <= i < rows.len() ==> best_pos((#[trigger] rows[i])@),
    ensures
        quotient_sum(rows, j) <= quotient_sum(rows, k),
    decreases k,
{
    if j < k {
        lemma_quotient_sum_mono(rows, j, k - 1);
        let d = best_from(rows[k - 1]@, 0, 1)->0;
        assert(d.0 as int / d.1 as int >= 0) by (nonlinear_arith)
            requires
                d.0 > 0,
                d.1 > 0,
        ;
    }
}

/// The dividing pair found in a row has positive members.
pub open spec fn best_pos(s: Seq<u32>) -> bool {
    best_from(s, 0, 1) is Some ==> (best_from(s, 0, 1)->0).0 > 0 && (best_from(s, 0, 1)->0).1 > 0
}

proof fn lemma_best_pos(s: Seq<u32>, i: int, j: int)
    requires
        forall|k: int| 0 <= k < s.len() ==> (#[trigger] s[k]) > 0,
        best_from(s, i, j) is Some,
    ensures
        (best_from(s, i, j)->0).0 > 0 && (best_from(s, i, j)->0).1 > 0,
    decreases s.len() - i, s.len() - j,
{
    if !(i < 0 || j <= i || s.len() < 1 || i >= s.len()) {
        if j >= s.len() {
            lemma_best_pos(s, i + 1, i + 2);
        } else {
            let d = ordered_pair(s[i], s[j]);
            if !(d.0 as int % d.1 as int == 0) {
                lemma_best_pos(s, i, j + 1);
            }
        }
    }
}

/// The sum over all rows of the quotient of the row's first dividing pair.
#[verifier::loop_isolation(false)]
pub fn compute(lines: &[Vec<u32>]) -> (sum: u32)
    requires
        forall|i: int, k: int|
            0 <= i < lines@.len() && 0 <= k < lines@[i]@.len() ==> #[trigger] lines@[i]@[k] > 0,
        forall|i: int| 0 <= i < lines@.len() ==> best_from((#[trigger] lines@[i])@, 0, 1) is Some,
        quotient_sum(lines@, lines@.len() as int) <= u32::MAX,
    ensures
        sum == quotient_sum(lines@, lines@.len() as int),
{
    let mut sum: u32 = 0;
    let mut i: usize = 0;
    proof {
        assert forall|k: int| 0 <= k < lines@.len() implies best_pos((#[trigger] lines@[k])@) by {
            if best_from(lines@[k]@, 0, 1) is Some {
                lemma_best_pos(lines@[k]@, 0, 1);
            }
        }
    }
    while i < lines.len()
        invariant
            0 <= i <= lines@.len(),
            sum == quotient_sum(lines@, i as int),
        decreases lines@.len() - i,
    {
        let best = match find_best(&lines[i]) {
            Some(b) => b,
            None => {
                proof {
                    assert(false);
                }
                return 0;
            },
        };
        proof {
            lemma_best_pos(lines@[i as int]@, 0, 1);
            lemma_quotient_sum_mono(lines@, i + 1, lines@.len() as int);
            assert(best.0 / best.1 <= u32::MAX);
        }
        sum = sum + best.0 / best.1;
        i = i + 1;
    }
    sum
}

} // verus!
