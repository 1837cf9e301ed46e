//! Sums of digits that match another digit at a fixed offset around a
//! circular list.

use vstd::prelude::*;

verus! {

/// The index `half` positions after `i`, wrapping around a list of length
/// `len` (with `half == len / 2`, `i < len`, so at most one wrap is needed).
pub open spec fn wrap_ahead(i: int, step: int, len: int) -> int {
    if i + step >= len {
        i + step - len
    } else {
        i + step
    }
}

/// Sum of the elements among the first `k` whose successor (one position
/// ahead, circularly) holds the same value.
pub open spec fn next_sum(s: Seq<u32>, k: int) -> int
    decreases k,
{
    if k <= 0 {
        0
    } else {
        next_sum(s, k - 1) + if s[k - 1] == s[wrap_ahead(k - 1, 1, s.len() as int)] {
            s[k - 1] as int
        } else {
            0
        }
    }
}

/// Sum of the elements among the first `k` that equal the element halfway
/// around the circular list.
pub open spec fn halfway_sum(s: Seq<u32>, k: int) -> int
    decreases k,
{
    if k <= 0 {
        0
    } else {
        halfway_sum(s, k - 1) + if s[k - 1] == s[wrap_ahead(k - 1, s.len() as int / 2, s.len() as int)] {
            s[k - 1] as int
        } else {
            0
        }
    }
}

/// Partial sums never exceed the full sum, since every term is non-negative.
proof fn lemma_next_sum_mono(s: Seq<u32>, j: int, k: int)
    requires
        0 <= j <= k,
    ensures
        next_sum(s, j) <= next_sum(s, k),
    decreases k,
{
    if j < k {
        lemma_next_sum_mono(s, j, k - 1);
    }
}

proof fn lemma_halfway_sum_mono(s: Seq<u32>, j: int, k: int)
    requires
        0 <= j <= k,
    ensures
        halfway_sum(s, j) <= halfway_sum(s, k),
    decreases k,
{
    if j < k {
        lemma_halfway_sum_mono(s, j, k - 1);
    }
}

/// Sum of the list elements that equal their circular successor; the last
/// element is compared with the first.
pub fn sum_similar_to_next(list: &[u32]) -> (sum: u32)
    requires
        next_sum(list@, list@.len() as int) <= u32::MAX,
    ensures
        sum == next_sum(list@, list@.len() as int),
{
    let n = list.len();
    let mut sum: u32 = 0;
    let mut i: usize = 0;
    while i < n
        invariant
            n == list@.len(),
            0 <= i <= n,
            sum == next_sum(list@, i as int),
            next_sum(list@, n as int) <= u32::MAX,
        decreases n - i,
    {
        let next_idx = if i + 1 >= n {
            0
        } else {
            i + 1
        };
        proof {
            lemma_next_sum_mono(list@, i + 1, n as int);
        }
        if list[i] == list[next_idx] {
            sum = sum + list[i];
        }
        i = i + 1;
    }
    sum
}

/// Sum of the list elements that equal the element halfway around the
/// circular list.
pub fn sum_similar_to_halfway(list: &[u32]) -> (sum: u32)
    requires
        halfway_sum(list@, list@.len() as int) <= u32::MAX,
    ensures
        sum == halfway_sum(list@, list@.len() as int),
{
    let n = list.len();
    let halfway = n / 2;
    let mut sum: u32 = 0;
    let mut i: usize = 0;
    while i < n
        invariant
            n == list@.len(),
            halfway == n / 2,
            0 <= i <= n,
            sum == halfway_sum(list@, i as int),
            halfway_sum(list@, n as int) <= u32::MAX,
        decreases n - i,
    {
        let pos = if i >= n - halfway {
            i - (n - halfway)
        } else {
            i + halfway
        };
        proof {
            lemma_halfway_sum_mono(list@, i + 1, n as int);
        }
        if list[i] == list[pos] {
            sum = sum + list[i];
        }
        i = i + 1;
    }
    sum
}

} // verus!
