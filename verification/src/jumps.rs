//! A maze of jump offsets: each cell tells how far to jump, and every jump
//! rewrites the cell just left (up by one, or down by one once the offset
//! has grown large enough).  The run ends when a jump leads outside.

use vstd::prelude::*;

verus! {

/// How the visited cell changes: down by one when a threshold is given and
/// the offset has reached it, otherwise up by one.
pub open spec fn jump_delta(v: i32, ge: Option<i32>) -> int {
    match ge {
        Some(g) => if v >= g {
            -1
        } else {
            1
        },
        None => 1,
    }
}

/// How many jumps it takes to leave the maze from `cur`, if it happens
/// within `k` jumps.
pub open spec fn run_jumps(s: Seq<i32>, cur: int, ge: Option<i32>, k: nat) -> Option<nat>
    decreases k,
{
    if !(0 <= cur < s.len()) {
        Some(0)
    } else if k == 0 {
        None
    } else {
        let v = s[cur];
        let s2 = s.update(cur, (v + jump_delta(v, ge)) as i32);
        match run_jumps(s2, cur + v, ge, (k - 1) as nat) {
            Some(n) => Some((n + 1) as nat),
            None => None,
        }
    }
}

/// Every position and cell update met within `k` jumps stays inside `i32`:
/// the machine limit under which the maze is run.
pub open spec fn jumps_fit(s: Seq<i32>, cur: int, ge: Option<i32>, k: nat) -> bool
    decreases k,
{
    if !(0 <= cur < s.len()) {
        true
    } else if k == 0 {
        true
    } else {
        let v = s[cur];
        &&& i32::MIN <= cur + v <= i32::MAX
        &&& i32::MIN <= v + jump_delta(v, ge) <= i32::MAX
        &&& jumps_fit(s.update(cur, (v + jump_delta(v, ge)) as i32), cur + v, ge, (k - 1) as nat)
    }
}

/// One jump: report where the maze continues (or `None` when `current` is
/// already outside), and rewrite the visited cell.
pub fn iteration(contents: &mut Vec<i32>, current: i32, ge: Option<i32>) -> (r: Option<i32>)
    requires
        (0 <= current && (current as int) < old(contents)@.len()) ==> ({
            let v = old(contents)@[current as int];
            i32::MIN <= current + v <= i32::MAX && i32::MIN <= v + jump_delta(v, ge) <= i32::MAX
        }),
    ensures
        if 0 <= current && (current as int) < old(contents)@.len() {
            let v = old(contents)@[current as int];
            r == Some((current + v) as i32) && final(contents)@ == old(contents)@.update(
                current as int,
                (v + jump_delta(v, ge)) as i32,
            )
        } else {
            r is None && final(contents)@ == old(contents)@
        },
{
    if current < 0 {
        return None;
    }
    let idx = current as usize;
    if idx >= contents.len() {
        return None;
    }
    let value = contents[idx];
    let next = current + value;
    let dec = if let Some(ge_v) = ge {
        value >= ge_v
    } else {
        false
    };
    if dec {
        contents[idx] = value - 1;
    } else {
        contents[idx] = value + 1;
    }
    Some(next)
}

/// Run the maze from position zero and count the jumps until it is left;
/// `None` when `max_steps` jumps were not enough.
#[verifier::loop_isolation(false)]
pub fn execute(contents: &[i32], ge: Option<i32>, max_steps: u32) -> (r: Option<u32>)
    requires
        jumps_fit(contents@, 0, ge, max_steps as nat),
    ensures
        match r {
            Some(n) => run_jumps(contents@, 0, ge, max_steps as nat) == Some(n as nat),
            None => run_jumps(contents@, 0, ge, max_steps as nat) is None,
        },
{
    let mut data: Vec<i32> = vstd::slice::slice_to_vec(contents);
    let mut current: i32 = 0;
    let mut i: u32 = 0;
    loop
        invariant
            i <= max_steps,
            jumps_fit(data@, current as int, ge, (max_steps - i) as nat),
            ({
                let tail = run_jumps(data@, current as int, ge, (max_steps - i) as nat);
                run_jumps(contents@, 0, ge, max_steps as nat) == (match tail {
                    Some(n) => Some((n + i) as nat),
                    None => None::<nat>,
                })
            }),
        decreases max_steps - i,
    {
        if current < 0 {
            return Some(i);
        }
        if current as usize >= data.len() {
            return Some(i);
        }
        if i == max_steps {
            return None;
        }
        let ghost pre = data@;
        match iteration(&mut data, current, ge) {
            Some(res) => {
                proof {
                    let v = pre[current as int];
                    assert(data@ == pre.update(current as int, (v + jump_delta(v, ge)) as i32));
                }
                i = i + 1;
                current = res;
            },
            None => {
                proof {
                    assert(false);
                }
                return None;
            },
        }
    }
}

} // verus!
