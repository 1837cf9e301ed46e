//! A stream of groups and garbage: braces open and close nested groups,
//! angle brackets delimit garbage, and `!` cancels the next character.
//! The reader scores each group by its depth and keeps the characters seen
//! inside garbage.

use vstd::prelude::*;

verus! {

/// The mathematical image of the reader's state.
pub ghost struct StateV {
    pub in_garbage: bool,
    pub ignore_next: bool,
    pub depth: u32,
    pub groups: Seq<u32>,
    pub garbage: Seq<char>,
}

/// The reader: where it stands in the nesting, the scores of the groups
/// opened so far, and the characters found inside garbage.
pub struct State {
    pub in_garbage: bool,
    pub ignore_next: bool,
    pub depth: u32,
    pub groups: Vec<u32>,
    pub char_in_garbage: Vec<char>,
}

impl View for State {
    type V = StateV;

    open spec fn view(&self) -> StateV {
        StateV {
            in_garbage: self.in_garbage,
            ignore_next: self.ignore_next,
            depth: self.depth,
            groups: self.groups@,
            garbage: self.char_in_garbage@,
        }
    }
}

/// One character of input: `None` when it would close a group that is not
/// open, or nest deeper than the counter can hold.
pub open spec fn step_char(st: StateV, c: char) -> Option<StateV> {
    if st.ignore_next {
        Some(StateV { ignore_next: false, ..st })
    } else if c == '<' {
        Some(
            StateV {
                in_garbage: true,
                garbage: if st.in_garbage {
                    st.garbage.push(c)
                } else {
                    st.garbage
                },
                ..st
            },
        )
    } else if c == '>' {
        Some(StateV { in_garbage: false, ..st })
    } else if c == '!' {
        Some(StateV { ignore_next: true, ..st })
    } else if c == '{' {
        if st.in_garbage {
            Some(StateV { garbage: st.garbage.push(c), ..st })
        } else if st.depth == u32::MAX {
            None
        } else {
            Some(
                StateV {
                    depth: (st.depth + 1) as u32,
                    groups: st.groups.push((st.depth + 1) as u32),
                    ..st
                },
            )
        }
    } else if c == '}' {
        if st.in_garbage {
            Some(StateV { garbage: st.garbage.push(c), ..st })
        } else if st.depth == 0 {
            None
        } else {
            Some(StateV { depth: (st.depth - 1) as u32, ..st })
        }
    } else {
        if st.in_garbage {
            Some(StateV { garbage: st.garbage.push(c), ..st })
        } else {
            Some(st)
        }
    }
}

/// The state after reading the first `k` characters of `s`.
pub open spec fn run_stream(st: StateV, s: Seq<char>, k: int) -> Option<StateV>
    decreases k,
{
    if k <= 0 {
        Some(st)
    } else {
        match run_stream(st, s, k - 1) {
            None => None,
            Some(m) => step_char(m, s[k - 1]),
        }
    }
}

/// If the whole input reads cleanly, so does every prefix.
pub proof fn lemma_run_stream_prefix(st: StateV, s: Seq<char>, j: int, k: int)
    requires
        j <= k,
        run_stream(st, s, k) is Some,
    ensures
        run_stream(st, s, j) is Some,
    decreases k - j,
{
    if j < k {
        lemma_run_stream_prefix(st, s, j + 1, k);
    }
}

/// The total score of the first `k` groups.
pub open spec fn groups_sum(s: Seq<u32>, k: int) -> int
    decreases k,
{
    if k <= 0 {
        0
    } else {
        groups_sum(s, k - 1) + s[k - 1]
    }
}

proof fn lemma_groups_sum_mono(s: Seq<u32>, j: int, k: int)
    requires
        0 <= j <= k,
    ensures
        groups_sum(s, j) <= groups_sum(s, k),
    decreases k,
{
    if j < k {
        lemma_groups_sum_mono(s, j, k - 1);
    }
}

impl State {
    /// A reader that has seen nothing yet.
    pub fn new() -> (st: State)
        ensures
            st@ == (StateV {
                in_garbage: false,
                ignore_next: false,
                depth: 0,
                groups: Seq::<u32>::empty(),
                garbage: Seq::<char>::empty(),
            }),
    {
        let st = State {
            in_garbage: false,
            ignore_next: false,
            depth: 0,
            groups: Vec::new(),
            char_in_garbage: Vec::new(),
        };
        proof {
            assert(st@.groups =~= Seq::<u32>::empty());
            assert(st@.garbage =~= Seq::<char>::empty());
        }
        st
    }

    /// The sum of the scores of all groups seen so far.
    pub fn total_score(&self) -> (score: u32)
        requires
            groups_sum(self.groups@, self.groups@.len() as int) <= u32::MAX,
        ensures
            score == groups_sum(self.groups@, self.groups@.len() as int),
    {
        let mut score: u32 = 0;
        let mut i: usize = 0;
        while i < self.groups.len()
            invariant
                i <= self.groups@.len(),
                score == groups_sum(self.groups@, i as int),
                groups_sum(self.groups@, self.groups@.len() as int) <= u32::MAX,
            decreases self.groups@.len() - i,
        {
            proof {
                lemma_groups_sum_mono(self.groups@, i + 1, self.groups@.len() as int);
            }
            score = score + self.groups[i];
            i = i + 1;
        }
        score
    }

    /// Feed a piece of the stream to the reader.
    #[verifier::loop_isolation(false)]
    pub fn read_stuff(&mut self, stuff: &str)
        requires
            run_stream(old(self)@, stuff@, stuff@.len() as int) is Some,
        ensures
            Some(final(self)@) == run_stream(old(self)@, stuff@, stuff@.len() as int),
    {
        let n = stuff.unicode_len();
        let mut i: usize = 0;
        while i < n
            invariant
                i <= n,
                n == stuff@.len(),
                run_stream(old(self)@, stuff@, i as int) == Some(self@),
            decreases n - i,
        {
            let c = stuff.get_char(i);
            proof {
                lemma_run_stream_prefix(old(self)@, stuff@, i + 1, n as int);
            }
            if self.ignore_next {
                self.ignore_next = false;
            } else if c == '<' {
                if self.in_garbage {
                    self.char_in_garbage.push(c);
                }
                self.in_garbage = true;
            } else if c == '>' {
                self.in_garbage = false;
            } else if c == '!' {
                self.ignore_next = true;
            } else if c == '{' {
                if self.in_garbage {
                    self.char_in_garbage.push(c);
                } else {
                    self.depth = self.depth + 1;
                    self.groups.push(self.depth);
                }
            } else if c == '}' {
                if self.in_garbage {
                    self.char_in_garbage.push(c);
                } else {
                    self.depth = self.depth - 1;
                }
            } else {
                if self.in_garbage {
                    self.char_in_garbage.push(c);
                }
            }
            i = i + 1;
        }
    }
}

} // verus!
