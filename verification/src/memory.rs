//! Memory-bank redistribution: the fullest bank is emptied and its blocks
//! dealt one by one to the following banks, around and around, until a
//! block layout repeats.

use vstd::prelude::*;

verus! {

/// The position of the first largest entry among the first `k` (`k >= 1`).
pub open spec fn max_index(s: Seq<u32>, k: int) -> int
    decreases k,
{
    if k <= 1 {
        0
    } else {
        let m = max_index(s, k - 1);
        if s[k - 1] > s[m] {
            k - 1
        } else {
            m
        }
    }
}

/// Deal `entries` blocks one at a time to the banks after `p`, wrapping.
pub open spec fn deal(s: Seq<u32>, p: int, entries: int) -> Seq<u32>
    decreases entries,
{
    if entries <= 0 {
        s
    } else {
        let p2 = if p + 1 >= s.len() {
            0
        } else {
            p + 1
        };
        deal(s.update(p2, (s[p2] + 1) as u32), p2, entries - 1)
    }
}

/// Every increment made while dealing stays within `u32`.
pub open spec fn deal_fits(s: Seq<u32>, p: int, entries: int) -> bool
    decreases entries,
{
    if entries <= 0 {
        true
    } else {
        let p2 = if p + 1 >= s.len() {
            0
        } else {
            p + 1
        };
        s[p2] < u32::MAX && deal_fits(s.update(p2, (s[p2] + 1) as u32), p2, entries - 1)
    }
}

/// One redistribution round: empty the first fullest bank and deal its
/// blocks out.
pub open spec fn redistribute(s: Seq<u32>) -> Seq<u32> {
    let m = max_index(s, s.len() as int);
    deal(s.update(m, 0), m, s[m] as int)
}

/// The machine limit under which one round runs.
pub open spec fn redistribute_fits(s: Seq<u32>) -> bool {
    let m = max_index(s, s.len() as int);
    deal_fits(s.update(m, 0), m, s[m] as int)
}

proof fn lemma_max_index_props(s: Seq<u32>, k: int)
    requires
        1 <= k <= s.len(),
    ensures
        0 <= max_index(s, k) < k,
        forall|i: int| 0 <= i < k ==> #[trigger] s[i] <= s[max_index(s, k)],
    decreases k,
{
    if k > 1 {
        lemma_max_index_props(s, k - 1);
    }
}

/// Empty the first fullest bank and deal its blocks to the ones after it.
#[verifier::loop_isolation(false)]
pub fn redistribution_cycle(bank: &mut Vec<u32>)
    requires
        old(bank)@.len() > 0,
        redistribute_fits(old(bank)@),
    ensures
        final(bank)@ == redistribute(old(bank)@),
{
    let ghost s0 = bank@;
    let n = bank.len();
    let mut p: usize = 0;
    let mut j: usize = 1;
    while j < n
        invariant
            1 <= j <= n,
            p < j,
            p == max_index(bank@, j as int),
            bank@ == s0,
        decreases n - j,
    {
        if bank[j] > bank[p] {
            p = j;
        }
        j = j + 1;
    }
    proof {
        lemma_max_index_props(s0, n as int);
    }
    let mut entries: u32 = bank[p];
    bank[p] = 0;
    let ghost target = deal(s0.update(p as int, 0), p as int, entries as int);
    while entries > 0
        invariant
            p < n,
            n == bank@.len(),
            deal(bank@, p as int, entries as int) == target,
            deal_fits(bank@, p as int, entries as int),
        decreases entries,
    {
        p = if p + 1 >= n {
            0
        } else {
            p + 1
        };
        let ghost pre = bank@;
        bank[p] = bank[p] + 1;
        proof {
            assert(bank@ == pre.update(p as int, (pre[p as int] + 1) as u32));
        }
        entries = entries - 1;
    }
    proof {
        assert(deal(bank@, p as int, 0) == bank@);
    }
}

/// Dealing blocks moves no banks: the layout keeps its length.
proof fn lemma_deal_len(s: Seq<u32>, p: int, entries: int)
    requires
        0 <= p < s.len(),
    ensures
        deal(s, p, entries).len() == s.len(),
    decreases entries,
{
    if entries > 0 {
        let p2 = if p + 1 >= s.len() {
            0int
        } else {
            p + 1
        };
        lemma_deal_len(s.update(p2, (s[p2] + 1) as u32), p2, entries - 1);
    }
}

/// The bank layout after `k` redistribution rounds.
pub open spec fn nth_state(s: Seq<u32>, k: nat) -> Seq<u32>
    decreases k,
{
    if k == 0 {
        s
    } else {
        redistribute(nth_state(s, (k - 1) as nat))
    }
}

/// Every round up to the `k`-th runs within the machine limit.
pub open spec fn rounds_fit(s: Seq<u32>, k: nat) -> bool {
    forall|i: nat| i < k ==> redistribute_fits(#[trigger] nth_state(s, i))
}

/// The layout after `i` rounds already appeared after fewer rounds.
pub open spec fn seen_before(s: Seq<u32>, i: nat) -> bool {
    exists|j: nat| j < i && nth_state(s, j) == nth_state(s, i)
}

/// Whether two banks hold the same blocks.
fn banks_equal(a: &Vec<u32>, b: &Vec<u32>) -> (r: bool)
    ensures
        r == (a@ == b@),
{
    if a.len() != b.len() {
        return false;
    }
    let mut i: usize = 0;
    while i < a.len()
        invariant
            i <= a@.len(),
            a@.len() == b@.len(),
            forall|k: int| 0 <= k < i ==> a@[k] == b@[k],
        decreases a@.len() - i,
    {
        if a[i] != b[i] {
            return false;
        }
        i = i + 1;
    }
    proof {
        assert(a@ =~= b@);
    }
    true
}

/// Redistribute until a layout repeats: how many rounds that took, and how
/// long the cycle is.  `None` when `max_rounds` rounds saw no repeat.
#[verifier::loop_isolation(false)]
pub fn search_loop(bank: &[u32], max_rounds: u32) -> (r: Option<(usize, usize)>)
    requires
        bank@.len() > 0,
        rounds_fit(bank@, max_rounds as nat),
    ensures
        match r {
            Some(p) => p.0 <= max_rounds && seen_before(bank@, p.0 as nat) && (forall|k: nat|
                k < p.0 ==> !seen_before(bank@, k)) && (forall|j: nat|
                j < p.0 && #[trigger] nth_state(bank@, j) == nth_state(bank@, p.0 as nat) ==> p.1
                    == p.0 - j),
            None => forall|i: nat| i <= max_rounds ==> !seen_before(bank@, i),
        },
{
    let ghost s0 = bank@;
    let mut data: Vec<u32> = vstd::slice::slice_to_vec(bank);
    let mut history: Vec<Vec<u32>> = Vec::new();
    let mut i: u32 = 0;
    loop
        invariant
            i <= max_rounds,
            history@.len() == i,
            data@ == nth_state(s0, i as nat),
            data@.len() == s0.len(),
            forall|k: int| 0 <= k < i ==> (#[trigger] history@[k])@ == nth_state(s0, k as nat),
            forall|k: nat| k <= i ==> !seen_before(s0, k) || k == i,
        decreases max_rounds - i,
    {
        // Look for the current layout among the earlier ones.
        let mut j: usize = 0;
        while j < history.len()
            invariant
                j <= history@.len(),
                forall|k: int| 0 <= k < j ==> (#[trigger] history@[k])@ != data@,
            decreases history@.len() - j,
        {
            if banks_equal(&history[j], &data) {
                proof {
                    assert(history@[j as int]@ == nth_state(s0, j as nat));
                    assert(nth_state(s0, j as nat) == nth_state(s0, i as nat));
                    assert(seen_before(s0, i as nat));
                    assert forall|jj: nat|
                        jj < i && nth_state(s0, jj) == nth_state(s0, i as nat) implies (
                        i as usize) - j == i - jj by {
                        if jj < j {
                            assert(nth_state(s0, jj) == nth_state(s0, j as nat));
                            assert(seen_before(s0, j as nat));
                        }
                        if jj > j {
                            assert(nth_state(s0, j as nat) == nth_state(s0, jj));
                            assert(seen_before(s0, jj));
                        }
                    }
                }
                return Some((i as usize, (i as usize) - j));
            }
            j = j + 1;
        }
        proof {
            assert(!seen_before(s0, i as nat)) by {
                if seen_before(s0, i as nat) {
                    let jj = choose|jj: nat| jj < i && nth_state(s0, jj) == nth_state(s0, i as nat);
                    assert(history@[jj as int]@ == nth_state(s0, jj));
                }
            }
        }
        if i == max_rounds {
            return None;
        }
        history.push(data.clone());
        proof {
            assert(rounds_fit(s0, max_rounds as nat));
            assert(redistribute_fits(nth_state(s0, i as nat)));
        }
        let ghost pre = data@;
        redistribution_cycle(&mut data);
        proof {
            lemma_max_index_props(pre, pre.len() as int);
            let m = max_index(pre, pre.len() as int);
            lemma_deal_len(pre.update(m, 0), m, pre[m] as int);
        }
        i = i + 1;
    }
}

} // verus!
