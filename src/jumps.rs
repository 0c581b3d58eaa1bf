use vstd::prelude::*;
use std::collections::HashMap;
use crate::parse::InvalidProgramError;
use crate::state::{BFState, wrap};

verus! {

broadcast use vstd::std_specs::hash::group_hash_axioms, vstd::seq::group_seq_axioms;

pub const OPEN: u8 = 0x5b;
pub const CLOSE: u8 = 0x5d;

/// How a byte changes the bracket nesting depth.
pub open spec fn byte_delta(b: u8) -> int {
    if b == OPEN {
        1
    } else if b == CLOSE {
        -1
    } else {
        0
    }
}

/// Nesting depth after the first `x` bytes of a program.
pub open spec fn bdepth(p: Seq<u8>, x: int) -> int
    decreases x,
{
    if x <= 0 || x > p.len() {
        0
    } else {
        bdepth(p, x - 1) + byte_delta(p[x - 1])
    }
}

/// The bracket at `i` opens the loop that the bracket at `j` closes.
pub open spec fn pairs(p: Seq<u8>, i: int, j: int) -> bool {
    &&& 0 <= i < j < p.len()
    &&& p[i] == OPEN
    &&& bdepth(p, j + 1) == bdepth(p, i)
    &&& forall|x: int| i < x <= j ==> #[trigger] bdepth(p, x) > bdepth(p, i)
}

/// The bracket at `j` closes a loop that was never opened: the depth first
/// goes below zero there.
pub open spec fn unmatched_close(p: Seq<u8>, j: int) -> bool {
    &&& 0 <= j < p.len()
    &&& bdepth(p, j + 1) < 0
    &&& forall|x: int| 0 <= x <= j ==> #[trigger] bdepth(p, x) >= 0
}

/// The depth never goes below zero.
pub open spec fn never_below_zero(p: Seq<u8>) -> bool {
    forall|x: int| 0 <= x <= p.len() ==> #[trigger] bdepth(p, x) >= 0
}

/// The bracket at `m` opens the innermost loop that is still open at the end.
pub open spec fn innermost_unclosed(p: Seq<u8>, m: int) -> bool {
    &&& 0 <= m < p.len()
    &&& p[m] == OPEN
    &&& bdepth(p, m) == bdepth(p, p.len() as int) - 1
    &&& forall|x: int| m < x <= p.len() ==> #[trigger] bdepth(p, x) >= bdepth(p, p.len() as int)
}

/// The map from each bracket to the one it matches, in both directions.
pub open spec fn is_jump_map(p: Seq<u8>, m: Map<usize, usize>) -> bool {
    jump_map_upto(p, m, p.len() as int)
}

/// `m` holds exactly the matched pairs whose close lies before `n`.
pub open spec fn jump_map_upto(p: Seq<u8>, m: Map<usize, usize>, n: int) -> bool {
    &&& forall|i: usize| #[trigger] m.contains_key(i)
        ==> i < n && m[i] < n && (pairs(p, i as int, m[i] as int) || pairs(p, m[i] as int, i as int))
    &&& forall|i: usize, j: usize| #[trigger] pairs(p, i as int, j as int) && j < n
        ==> m.contains_key(i) && m[i] == j && m.contains_key(j) && m[j] == i
}

proof fn lemma_bdepth_step(p: Seq<u8>, x: int)
    requires
        0 <= x < p.len(),
    ensures
        bdepth(p, x + 1) == bdepth(p, x) + byte_delta(p[x]),
{
}

/// `r` is what matching the brackets of `p` gives: the jump map when they
/// balance, else the first close without an open, or else the innermost
/// open that is never closed.
pub open spec fn jumps_outcome(p: Seq<u8>, r: Result<Map<usize, usize>, InvalidProgramError>) -> bool {
    match r {
        Ok(m) => never_below_zero(p) && bdepth(p, p.len() as int) == 0 && is_jump_map(p, m),
        Err(InvalidProgramError::UnexpectedClosingBracket(j)) => unmatched_close(p, j as int),
        Err(InvalidProgramError::ExcessiveOpeningBrackets(k)) => never_below_zero(p) && innermost_unclosed(p, k as int),
    }
}

/// Matches the brackets of `program`: each loop open maps to its close and
/// back. Fails at the first close that has no open, or else at the innermost
/// open that is never closed.
pub fn bf_jumps(program: &[u8]) -> (r: Result<HashMap<usize, usize>, InvalidProgramError>)
    ensures
        jumps_outcome(program@, match r {
            Ok(m) => Ok(m@),
            Err(e) => Err(e),
        }),
{
    let ghost p = program@;
    let mut stack: Vec<usize> = Vec::new();
    let mut jumps: HashMap<usize, usize> = HashMap::new();
    let plen = program.len();
    let mut pc: usize = 0;
    while pc < plen
        invariant
            p == program@,
            plen == p.len(),
            pc <= plen,
            forall|x: int| 0 <= x <= pc ==> #[trigger] bdepth(p, x) >= 0,
            stack@.len() == bdepth(p, pc as int),
            forall|d: int| 0 <= d < stack@.len() ==> {
                &&& #[trigger] stack@[d] < pc
                &&& p[stack@[d] as int] == OPEN
                &&& bdepth(p, stack@[d] as int) == d
                &&& forall|x: int| stack@[d] < x <= pc ==> #[trigger] bdepth(p, x) > d
            },
            forall|i: int| 0 <= i < pc && p[i] == OPEN
                && (forall|x: int| i < x <= pc ==> #[trigger] bdepth(p, x) > bdepth(p, i))
                ==> stack@[#[trigger] bdepth(p, i)] == i,
            jump_map_upto(p, jumps@, pc as int),
        decreases plen - pc,
    {
        proof {
            lemma_bdepth_step(p, pc as int);
        }
        let opcode = program[pc];
        if opcode == OPEN {
            stack.push(pc);
            proof {
                assert forall|i: usize, j: usize| #[trigger] pairs(p, i as int, j as int) && j < pc + 1
                    implies jumps@.contains_key(i) && jumps@[i] == j && jumps@.contains_key(j) && jumps@[j] == i by {
                    if j == pc {
                        assert(bdepth(p, pc as int) > bdepth(p, i as int));
                    }
                }
            }
        } else if opcode == CLOSE {
            if stack.len() == 0 {
                proof {
                    assert(unmatched_close(p, pc as int));
                }
                return Err(InvalidProgramError::UnexpectedClosingBracket(pc));
            }
            let ghost old_stack = stack@;
            let target = stack.pop().unwrap();
            let ghost t = target as int;
            let ghost d = stack@.len() as int;
            proof {
                assert(old_stack[d] == target);
                assert(bdepth(p, t) == d);
                assert(pairs(p, t, pc as int));
                assert(!jumps@.contains_key(target)) by {
                    if jumps@.contains_key(target) {
                        let j = jumps@[target];
                        if pairs(p, t, j as int) {
                            assert(bdepth(p, j + 1) > bdepth(p, t));
                        }
                    }
                }
                assert(!jumps@.contains_key(pc));
            }
            jumps.insert(pc, target);
            jumps.insert(target, pc);
            proof {
                assert forall|i: usize, j: usize| #[trigger] pairs(p, i as int, j as int) && j < pc + 1
                    implies jumps@.contains_key(i) && jumps@[i] == j && jumps@.contains_key(j) && jumps@[j] == i by {
                    if j == pc {
                        assert(old_stack[bdepth(p, i as int)] == i);
                    } else {
                        assert(i != target && j != target && i != pc && j != pc) by {
                            if i == target {
                                assert(bdepth(p, j + 1) > bdepth(p, t));
                            }
                            if j == target {
                                assert(p[j as int] == OPEN);
                            }
                        }
                    }
                }
            }
        }
        pc = pc + 1;
    }
    if stack.len() > 0 {
        let last = stack.len() - 1;
        let top = stack[last];
        proof {
            assert(innermost_unclosed(p, top as int));
        }
        Err(InvalidProgramError::ExcessiveOpeningBrackets(top))
    } else {
        Ok(jumps)
    }
}

/// What the interpreter does after one instruction.
#[derive(Debug, Clone, Copy, PartialEq, Eq, Structural)]
pub enum Action {
    /// Go on at this instruction.
    Continue(usize),
    /// Write the current cell to the output, then go on at this instruction.
    Output(usize),
    /// Read one byte of input into the current cell, then go on at this instruction.
    Input(usize),
    /// The program has ended.
    Halt,
    /// The data pointer left the cell array, or a bracket has no entry in
    /// the jump map.
    Fault,
}

pub const FWD: u8 = 0x3e;
pub const BWD: u8 = 0x3c;
pub const INC: u8 = 0x2b;
pub const DEC: u8 = 0x2d;
pub const OUT: u8 = 0x2e;
pub const IN: u8 = 0x2c;

/// Where a bracket at `pc` jumps to: just past its partner.
pub open spec fn jump_target(m: Map<usize, usize>, pc: nat) -> Option<nat> {
    if m.contains_key(pc as usize) && m[pc as usize] < usize::MAX {
        Some((m[pc as usize] + 1) as nat)
    } else {
        None
    }
}

/// One instruction of the program at `pc`, on cells `s.0` with pointer
/// `s.1`: the new cells and pointer, and what comes next.
pub open spec fn step(p: Seq<u8>, m: Map<usize, usize>, s: (Seq<u32>, nat), pc: nat) -> ((Seq<u32>, nat), Action) {
    let (cells, ptr) = s;
    let inb = ptr < cells.len();
    let next = Action::Continue((pc + 1) as usize);
    if pc >= p.len() {
        (s, Action::Halt)
    } else {
        let op = p[pc as int];
        if op == FWD {
            if ptr < usize::MAX { ((cells, ptr + 1), next) } else { (s, Action::Fault) }
        } else if op == BWD {
            if ptr > 0 { ((cells, (ptr - 1) as nat), next) } else { (s, Action::Fault) }
        } else if op == INC || op == DEC || op == OUT || op == IN || op == OPEN || op == CLOSE {
            if !inb {
                (s, Action::Fault)
            } else if op == INC {
                ((cells.update(ptr as int, wrap(cells[ptr as int] + 1)), ptr), next)
            } else if op == DEC {
                ((cells.update(ptr as int, wrap(cells[ptr as int] - 1)), ptr), next)
            } else if op == OUT {
                (s, Action::Output((pc + 1) as usize))
            } else if op == IN {
                (s, Action::Input((pc + 1) as usize))
            } else if (op == OPEN && cells[ptr as int] == 0) || (op == CLOSE && cells[ptr as int] != 0) {
                match jump_target(m, pc) {
                    Some(t) => (s, Action::Continue(t as usize)),
                    None => (s, Action::Fault),
                }
            } else {
                (s, next)
            }
        } else {
            (s, next)
        }
    }
}

/// Runs the instruction at `pc` on `state`, using `jumps` for the brackets.
/// Input and output are left to the caller, as the returned action says.
pub fn bf_step(program: &[u8], jumps: &HashMap<usize, usize>, state: &mut BFState, pc: usize) -> (r: Action)
    ensures
        (final(state)@, r) == step(program@, jumps@, old(state)@, pc as nat),
{
    if pc >= program.len() {
        return Action::Halt;
    }
    let op = program[pc];
    let next = Action::Continue(pc + 1);
    if op == FWD {
        if state.pointer_is_last() {
            return Action::Fault;
        }
        state.fwd();
        next
    } else if op == BWD {
        if state.pointer_at_start() {
            return Action::Fault;
        }
        state.bwd();
        next
    } else if op == INC || op == DEC || op == OUT || op == IN || op == OPEN || op == CLOSE {
        if !state.pointer_in_bounds() {
            return Action::Fault;
        }
        if op == INC {
            state.inc();
            next
        } else if op == DEC {
            state.dec();
            next
        } else if op == OUT {
            Action::Output(pc + 1)
        } else if op == IN {
            Action::Input(pc + 1)
        } else {
            let v = state.read();
            if (op == OPEN && v == 0) || (op == CLOSE && v != 0) {
                match jumps.get(&pc) {
                    Some(t) => {
                        if *t < usize::MAX {
                            Action::Continue(*t + 1)
                        } else {
                            Action::Fault
                        }
                    },
                    None => Action::Fault,
                }
            } else {
                next
            }
        }
    } else {
        next
    }
}

/// Where the program goes on after an action, if it goes on.
pub open spec fn next_pc(a: Action, pc: nat) -> nat {
    match a {
        Action::Continue(n) => n as nat,
        Action::Output(n) => n as nat,
        Action::Input(n) => n as nat,
        _ => pc,
    }
}

/// A program ready to run one instruction at a time: its bytes, its jump
/// map, the cells and the instruction counter.
pub struct Interpreter {
    program: Vec<u8>,
    state: BFState,
    jumps: HashMap<usize, usize>,
    pc: usize,
}

impl Interpreter {
    pub closed spec fn program(&self) -> Seq<u8> {
        self.program@
    }

    pub closed spec fn jump_map(&self) -> Map<usize, usize> {
        self.jumps@
    }

    pub closed spec fn memory(&self) -> (Seq<u32>, nat) {
        self.state@
    }

    pub closed spec fn counter(&self) -> nat {
        self.pc as nat
    }

    /// Prepares `program` to run on `mem_size` zeroed cells; fails as
    /// `bf_jumps` does when the brackets do not balance.
    pub fn new(program: &[u8], mem_size: usize) -> (r: Result<Self, InvalidProgramError>)
        ensures
            match r {
                Ok(i) => {
                    &&& jumps_outcome(program@, Ok(i.jump_map()))
                    &&& i.program() == program@
                    &&& i.memory() == (Seq::new(mem_size as nat, |k: int| 0u32), 0nat)
                    &&& i.counter() == 0
                },
                Err(e) => jumps_outcome(program@, Err(e)),
            },
    {
        let jumps = match bf_jumps(program) {
            Ok(m) => m,
            Err(e) => return Err(e),
        };
        let mut bytes: Vec<u8> = Vec::new();
        let mut k: usize = 0;
        while k < program.len()
            invariant
                k <= program@.len(),
                bytes@ == program@.take(k as int),
            decreases program@.len() - k,
        {
            bytes.push(program[k]);
            k = k + 1;
            assert(bytes@ =~= program@.take(k as int));
        }
        assert(program@.take(k as int) =~= program@);
        Ok(Interpreter { program: bytes, state: BFState::new(mem_size), jumps, pc: 0 })
    }

    /// Runs the next instruction; input and output are left to the caller,
    /// as the returned action says.
    pub fn step(&mut self) -> (r: Action)
        ensures
            (final(self).memory(), r) == step(old(self).program(), old(self).jump_map(), old(self).memory(), old(self).counter()),
            final(self).counter() == next_pc(r, old(self).counter()),
            final(self).program() == old(self).program(),
            final(self).jump_map() == old(self).jump_map(),
    {
        let r = bf_step(self.program.as_slice(), &self.jumps, &mut self.state, self.pc);
        match r {
            Action::Continue(n) => self.pc = n,
            Action::Output(n) => self.pc = n,
            Action::Input(n) => self.pc = n,
            _ => {},
        }
        r
    }

    /// The memory of the running program.
    pub fn state(&self) -> (r: &BFState)
        ensures
            r@ == self.memory(),
    {
        &self.state
    }

    /// The current cell, for output.
    pub fn read(&self) -> (r: u32)
        requires
            self.memory().1 < self.memory().0.len(),
        ensures
            r == self.memory().0[self.memory().1 as int],
    {
        self.state.read()
    }

    /// Stores a byte of input in the current cell.
    pub fn write(&mut self, val: u32)
        requires
            old(self).memory().1 < old(self).memory().0.len(),
        ensures
            final(self).memory() == (old(self).memory().0.update(old(self).memory().1 as int, val), old(self).memory().1),
            final(self).counter() == old(self).counter(),
            final(self).program() == old(self).program(),
            final(self).jump_map() == old(self).jump_map(),
    {
        self.state.write(val);
    }
}

} // verus!
