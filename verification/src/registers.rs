//! Conditional register instructions: each one increments or decrements a
//! named register when a comparison on another register holds.  Registers
//! spring into existence at zero.

use vstd::prelude::*;

verus! {

/// An instruction word: an arithmetic move, a comparison, or nothing.
#[derive(Clone, Copy, PartialEq, Eq, Structural, Debug)]
pub enum Op {
    Nop,
    Inc,
    Dec,
    Gt,
    Ge,
    Lt,
    Le,
    Eq,
    Ne,
}

/// The instruction word a piece of text names; anything unknown reads as
/// `Nop`.
pub open spec fn op_of(s: Seq<char>) -> Op {
    if s == "nop"@ {
        Op::Nop
    } else if s == "inc"@ {
        Op::Inc
    } else if s == "dec"@ {
        Op::Dec
    } else if s == ">"@ {
        Op::Gt
    } else if s == ">="@ {
        Op::Ge
    } else if s == "<"@ {
        Op::Lt
    } else if s == "<="@ {
        Op::Le
    } else if s == "=="@ {
        Op::Eq
    } else if s == "!="@ {
        Op::Ne
    } else {
        Op::Nop
    }
}

impl Op {
    /// Read an instruction word.
    pub fn from_string(value: &str) -> (r: Op)
        ensures
            r == op_of(value@),
    {
        let v: String = value.to_owned();
        if v == "nop".to_owned() {
            Op::Nop
        } else if v == "inc".to_owned() {
            Op::Inc
        } else if v == "dec".to_owned() {
            Op::Dec
        } else if v == ">".to_owned() {
            Op::Gt
        } else if v == ">=".to_owned() {
            Op::Ge
        } else if v == "<".to_owned() {
            Op::Lt
        } else if v == "<=".to_owned() {
            Op::Le
        } else if v == "==".to_owned() {
            Op::Eq
        } else if v == "!=".to_owned() {
            Op::Ne
        } else {
            Op::Nop
        }
    }
}

/// The register bank as a list of bindings; later bindings override
/// earlier ones, and an unbound register reads as zero.
pub struct Registers {
    pub entries: Vec<(String, i32)>,
}

/// The map described by a binding list.
pub open spec fn regs_map_of(s: Seq<(Seq<char>, i32)>) -> Map<Seq<char>, int>
    decreases s.len(),
{
    if s.len() == 0 {
        Map::empty()
    } else {
        regs_map_of(s.drop_last()).insert(s.last().0, s.last().1 as int)
    }
}

/// The binding list with each register name as a character sequence.
pub open spec fn regs_view(s: Seq<(String, i32)>) -> Seq<(Seq<char>, i32)> {
    s.map_values(|e: (String, i32)| (e.0@, e.1))
}

impl View for Registers {
    type V = Map<Seq<char>, int>;

    open spec fn view(&self) -> Map<Seq<char>, int> {
        regs_map_of(regs_view(self.entries@))
    }
}

/// What a register holds: its binding, or zero if it was never written.
pub open spec fn reg_val(m: Map<Seq<char>, int>, n: Seq<char>) -> int {
    if m.contains_key(n) {
        m[n]
    } else {
        0
    }
}

impl Registers {
    /// A bank with every register at zero.
    pub fn new() -> (r: Registers)
        ensures
            r@ =~= Map::<Seq<char>, int>::empty(),
    {
        let r = Registers { entries: Vec::new() };
        proof {
            assert(regs_view(r.entries@) =~= Seq::<(Seq<char>, i32)>::empty());
        }
        r
    }

    /// Read a register.
    pub fn get(&self, name: &String) -> (r: i32)
        ensures
            r as int == reg_val(self@, name@),
    {
        let ghost s = regs_view(self.entries@);
        let mut j: usize = self.entries.len();
        proof {
            assert(s.take(s.len() as int) =~= s);
        }
        while j > 0
            invariant
                j <= self.entries@.len(),
                s == regs_view(self.entries@),
                regs_map_of(s.take(j as int)).contains_key(name@) == self@.contains_key(name@),
                regs_map_of(s.take(j as int)).contains_key(name@) ==> regs_map_of(
                    s.take(j as int),
                )[name@] == self@[name@],
            decreases j,
        {
            j = j - 1;
            proof {
                assert(s.take(j + 1).drop_last() =~= s.take(j as int));
                assert(s.take(j + 1).last() == s[j as int]);
                assert(s[j as int] == (self.entries@[j as int].0@, self.entries@[j as int].1));
            }
            if self.entries[j].0 == *name {
                return self.entries[j].1;
            }
        }
        proof {
            assert(s.take(0) =~= Seq::<(Seq<char>, i32)>::empty());
        }
        0
    }

    /// Write a register.
    pub fn set(&mut self, name: String, value: i32)
        ensures
            final(self)@ =~= old(self)@.insert(name@, value as int),
    {
        let ghost nv = name@;
        self.entries.push((name, value));
        proof {
            assert(regs_view(self.entries@) =~= regs_view(old(self).entries@).push((nv, value)));
            assert(regs_view(self.entries@).drop_last() =~= regs_view(old(self).entries@));
        }
    }
}

/// The mathematical image of one instruction.
pub ghost struct OperationV {
    pub register: Seq<char>,
    pub operation: Op,
    pub value: i32,
}

/// One instruction: a register, an instruction word, and an operand.
pub struct Operation {
    pub register: String,
    pub operation: Op,
    pub value: i32,
}

impl View for Operation {
    type V = OperationV;

    open spec fn view(&self) -> OperationV {
        OperationV { register: self.register@, operation: self.operation, value: self.value }
    }
}

/// What a comparison word says of two numbers; the arithmetic words decide
/// nothing.
pub open spec fn test_result(op: Op, a: int, b: int) -> Option<bool> {
    match op {
        Op::Gt => Some(a > b),
        Op::Ge => Some(a >= b),
        Op::Lt => Some(a < b),
        Op::Le => Some(a <= b),
        Op::Eq => Some(a == b),
        Op::Ne => Some(a != b),
        _ => None,
    }
}

/// What an arithmetic word does to the named register; the comparison
/// words and `Nop` leave the bank alone.
pub open spec fn exec_result(ov: OperationV, m: Map<Seq<char>, int>) -> Map<Seq<char>, int> {
    match ov.operation {
        Op::Inc => m.insert(ov.register, reg_val(m, ov.register) + ov.value),
        Op::Dec => m.insert(ov.register, reg_val(m, ov.register) - ov.value),
        _ => m,
    }
}

impl Operation {
    /// The instruction that does nothing.
    pub fn new_nop() -> (r: Operation)
        ensures
            r@ == (OperationV { register: "ignored"@, operation: Op::Nop, value: 0 }),
    {
        Operation { register: "ignored".to_owned(), operation: Op::Nop, value: 0 }
    }

    /// Evaluate the instruction as a comparison against the bank.
    pub fn test(&self, registers: &Registers) -> (r: Option<bool>)
        ensures
            r == test_result(self.operation, reg_val(registers@, self.register@), self.value as int),
    {
        let op_a = registers.get(&self.register);
        let op_b = self.value;
        match self.operation {
            Op::Gt => Some(op_a > op_b),
            Op::Ge => Some(op_a >= op_b),
            Op::Lt => Some(op_a < op_b),
            Op::Le => Some(op_a <= op_b),
            Op::Eq => Some(op_a == op_b),
            Op::Ne => Some(op_a != op_b),
            _ => None,
        }
    }

    /// Run the instruction against the bank and step past it.
    pub fn execute(&self, registers: &mut Registers, code_ptr: usize) -> (r: usize)
        requires
            code_ptr < usize::MAX,
            self.operation == Op::Inc ==> i32::MIN <= reg_val(old(registers)@, self.register@)
                + self.value <= i32::MAX,
            self.operation == Op::Dec ==> i32::MIN <= reg_val(old(registers)@, self.register@)
                - self.value <= i32::MAX,
        ensures
            r == code_ptr + 1,
            final(registers)@ == exec_result(self@, old(registers)@),
    {
        let regv = registers.get(&self.register);
        match self.operation {
            Op::Inc => {
                registers.set(self.register.clone(), regv + self.value);
                proof {
                    assert(final(registers)@ =~= exec_result(self@, old(registers)@));
                }
            },
            Op::Dec => {
                registers.set(self.register.clone(), regv - self.value);
                proof {
                    assert(final(registers)@ =~= exec_result(self@, old(registers)@));
                }
            },
            _ => {},
        }
        code_ptr + 1
    }
}

/// A guarded instruction: the move to make, and the comparison that must
/// hold first.
pub struct CompOperation {
    pub operation: Operation,
    pub comparison: Operation,
}

/// Whether the guard lets the move run: an undecidable guard (an
/// arithmetic word in comparison position) blocks it.
pub open spec fn guard_passes(comparison: OperationV, m: Map<Seq<char>, int>) -> bool {
    test_result(comparison.operation, reg_val(m, comparison.register), comparison.value as int)
        == Some(true)
}

impl CompOperation {
    /// A guarded instruction whose guard is not yet filled in: the
    /// do-nothing comparison blocks the move.
    pub fn new(register: &str, op: Op, value: i32) -> (r: CompOperation)
        ensures
            r.operation@ == (OperationV { register: register@, operation: op, value }),
            r.comparison@ == (OperationV { register: "ignored"@, operation: Op::Nop, value: 0 }),
    {
        CompOperation {
            operation: Operation { register: register.to_owned(), operation: op, value },
            comparison: Operation::new_nop(),
        }
    }

    /// Run the guard, then the move if the guard held, and step past the
    /// instruction.
    pub fn execute(&self, registers: &mut Registers, code_ptr: usize) -> (r: usize)
        requires
            code_ptr < usize::MAX,
            guard_passes(self.comparison@, old(registers)@) ==> match self.operation.operation {
                Op::Inc => i32::MIN <= reg_val(old(registers)@, self.operation.register@)
                    + self.operation.value <= i32::MAX,
                Op::Dec => i32::MIN <= reg_val(old(registers)@, self.operation.register@)
                    - self.operation.value <= i32::MAX,
                _ => true,
            },
        ensures
            r == code_ptr + 1,
            final(registers)@ == if guard_passes(self.comparison@, old(registers)@) {
                exec_result(self.operation@, old(registers)@)
            } else {
                old(registers)@
            },
    {
        let go = match self.comparison.test(registers) {
            Some(b) => b,
            None => false,
        };
        if go {
            let _ = self.operation.execute(registers, code_ptr);
        }
        code_ptr + 1
    }
}

/// A loaded program: its register bank, its instructions, and where it
/// stands.
pub struct Program {
    pub registers: Registers,
    pub code: Vec<CompOperation>,
    pub code_ptr: usize,
}

impl Program {
    /// An empty program.
    pub fn new() -> (p: Program)
        ensures
            p.registers@ =~= Map::<Seq<char>, int>::empty(),
            p.code@.len() == 0,
            p.code_ptr == 0,
    {
        Program { registers: Registers::new(), code: Vec::new(), code_ptr: 0 }
    }
}

} // verus!
