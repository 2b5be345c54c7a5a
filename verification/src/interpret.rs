use vstd::prelude::*;

use vstd::arithmetic::div_mod::{
    lemma_add_mod_noop, lemma_mod_multiples_vanish, lemma_mul_mod_noop_right, lemma_small_mod,
};

use crate::error::Error;
use crate::instruction::{copy_instructions, Instruction, LinkedInstructions};

verus! {

/// Number of cells on the tape ring.
pub const MEM_SIZE: usize = 65536;

/// The abstract state of the machine: instruction pointer, data pointer,
/// tape, remaining input, and output written so far.
pub struct MachState {
    pub ip: nat,
    pub dp: nat,
    pub tape: Seq<u8>,
    pub inp: Seq<u8>,
    pub out: Seq<u8>,
}

/// What one step of the machine does: continue in a new state, halt, or fail
/// reading input.
pub enum StepResult {
    Next(MachState),
    Halt(MachState),
    ReadFail(MachState),
}

/// The tape index `delta` cells away from `base`, on the ring: arithmetic is
/// over the signed value of `delta`, reduced into `[0, MEM_SIZE)`.
pub open spec fn ring(base: int, delta: int) -> int {
    (base + delta) % (MEM_SIZE as int)
}

/// A cell after adding `a`, wrapping at 8 bits.
pub open spec fn cell_add(v: u8, a: i8) -> u8 {
    ((v + a) % 256) as u8
}

/// The byte value a signed cell amount stands for.
pub open spec fn cell_byte(a: i8) -> u8 {
    if a >= 0 {
        a as u8
    } else {
        (a + 256) as u8
    }
}

/// One step of the machine on the given program.  `ip` past the end halts;
/// a branch taken does not post-increment `ip`; `Read` at end of input
/// fails.
pub open spec fn step(insts: Seq<Instruction>, s: MachState) -> StepResult {
    if s.ip >= insts.len() {
        StepResult::Halt(s)
    } else {
        match insts[s.ip as int] {
            Instruction::IncrDp { amount } => StepResult::Next(
                MachState { ip: s.ip + 1, dp: ring(s.dp as int, amount as int) as nat, ..s },
            ),
            Instruction::Incr { amount, offset } => {
                let idx = ring(s.dp as int, offset as int);
                StepResult::Next(
                    MachState {
                        ip: s.ip + 1,
                        tape: s.tape.update(idx, cell_add(s.tape[idx], amount)),
                        ..s
                    },
                )
            },
            Instruction::SetCell { amount, offset } => {
                let idx = ring(s.dp as int, offset as int);
                StepResult::Next(
                    MachState { ip: s.ip + 1, tape: s.tape.update(idx, cell_byte(amount)), ..s },
                )
            },
            Instruction::Mul { amount, offset } => {
                let idx = ring(s.dp as int, offset as int);
                let v = ((s.tape[idx] + s.tape[s.dp as int] * cell_byte(amount)) % 256) as u8;
                StepResult::Next(MachState { ip: s.ip + 1, tape: s.tape.update(idx, v), ..s })
            },
            Instruction::BranchIfZero { destination } => {
                if s.tape[s.dp as int] == 0 {
                    StepResult::Next(MachState { ip: destination as nat, ..s })
                } else {
                    StepResult::Next(MachState { ip: s.ip + 1, ..s })
                }
            },
            Instruction::BranchIfNotZero { destination } => {
                if s.tape[s.dp as int] != 0 {
                    StepResult::Next(MachState { ip: destination as nat, ..s })
                } else {
                    StepResult::Next(MachState { ip: s.ip + 1, ..s })
                }
            },
            Instruction::Read => {
                if s.inp.len() == 0 {
                    StepResult::ReadFail(s)
                } else {
                    StepResult::Next(
                        MachState {
                            ip: s.ip + 1,
                            tape: s.tape.update(s.dp as int, s.inp[0]),
                            inp: s.inp.skip(1),
                            ..s
                        },
                    )
                }
            },
            Instruction::Write => StepResult::Next(
                MachState { ip: s.ip + 1, out: s.out.push(s.tape[s.dp as int]), ..s },
            ),
        }
    }
}

/// The machine after at most `n` steps: `Next` if still running, else the
/// halt or failure it reached first.
pub open spec fn run_n(insts: Seq<Instruction>, s: MachState, n: nat) -> StepResult
    decreases n,
{
    if n == 0 {
        StepResult::Next(s)
    } else {
        match step(insts, s) {
            StepResult::Next(s2) => run_n(insts, s2, (n - 1) as nat),
            r => r,
        }
    }
}

/// Running one step longer steps the state the run reached.
proof fn lemma_run_n_snoc(insts: Seq<Instruction>, s: MachState, n: nat)
    requires
        run_n(insts, s, n) matches StepResult::Next(m),
    ensures
        run_n(insts, s, n + 1) == step(
            insts,
            run_n(insts, s, n)->Next_0,
        ),
    decreases n,
{
    if n > 0 {
        match step(insts, s) {
            StepResult::Next(s2) => {
                lemma_run_n_snoc(insts, s2, (n - 1) as nat);
                assert(run_n(insts, s, n + 1) == run_n(insts, s2, n));
                assert(run_n(insts, s, n) == run_n(insts, s2, (n - 1) as nat));
            },
            _ => {
                assert(false);
            },
        }
    } else {
        assert(run_n(insts, s, n)->Next_0 == s);
        match step(insts, s) {
            StepResult::Next(s2) => {
                assert(run_n(insts, s, 1) == run_n(insts, s2, 0));
                assert(run_n(insts, s2, 0) == StepResult::Next(s2));
            },
            _ => {
                assert(run_n(insts, s, 1) == step(insts, s));
            },
        }
    }
}

/// A finished run stays finished under more fuel.
pub proof fn lemma_run_n_absorbs(insts: Seq<Instruction>, s: MachState, n: nat, more: nat)
    requires
        !(run_n(insts, s, n) matches StepResult::Next(_)),
        n <= more,
    ensures
        run_n(insts, s, more) == run_n(insts, s, n),
    decreases n,
{
    if n == 0 {
    } else {
        match step(insts, s) {
            StepResult::Next(s2) => {
                lemma_run_n_absorbs(insts, s2, (n - 1) as nat, (more - 1) as nat);
            },
            _ => {},
        }
    }
}

/// A run's outcome is canonical: any two step counts at which the machine
/// has finished report the same halt or failure.
pub proof fn lemma_run_outcome_unique(insts: Seq<Instruction>, s: MachState, n1: nat, n2: nat)
    requires
        !(run_n(insts, s, n1) matches StepResult::Next(_)),
        !(run_n(insts, s, n2) matches StepResult::Next(_)),
    ensures
        run_n(insts, s, n1) == run_n(insts, s, n2),
{
    if n1 <= n2 {
        lemma_run_n_absorbs(insts, s, n1, n2);
    } else {
        lemma_run_n_absorbs(insts, s, n2, n1);
    }
}

/// The interpreter: a program, the machine registers, the tape, and the
/// output gathered so far.
pub struct Interpreter {
    ip: u64,
    dp: usize,
    memory: Vec<u8>,
    insts: Vec<Instruction>,
    output: Vec<u8>,
}

impl Interpreter {
    /// The program being run.
    pub closed spec fn insts_view(&self) -> Seq<Instruction> {
        self.insts@
    }

    /// The interpreter's state as a machine state, for a given remaining
    /// input.
    pub closed spec fn state(&self, inp: Seq<u8>) -> MachState {
        MachState {
            ip: self.ip as nat,
            dp: self.dp as nat,
            tape: self.memory@,
            inp,
            out: self.output@,
        }
    }

    /// The tape is full-sized and the data pointer on it.
    pub closed spec fn wf(&self) -> bool {
        self.memory@.len() == MEM_SIZE && self.dp < MEM_SIZE
    }

    /// A fresh interpreter for the given program: everything zeroed, the
    /// tape blank, no output.
    pub fn new(insts: &LinkedInstructions) -> (r: Interpreter)
        ensures
            r.wf(),
            r.insts_view() == insts@,
            r.state(Seq::empty()) == (MachState {
                ip: 0 as nat,
                dp: 0 as nat,
                tape: Seq::new(MEM_SIZE as nat, |i: int| 0u8),
                inp: Seq::<u8>::empty(),
                out: Seq::<u8>::empty(),
            }),
    {
        let mut memory: Vec<u8> = Vec::new();
        let mut i: usize = 0;
        while i < MEM_SIZE
            invariant
                0 <= i <= MEM_SIZE,
                memory@.len() == i,
                forall|k: int| 0 <= k < i ==> memory@[k] == 0u8,
            decreases MEM_SIZE - i,
        {
            memory.push(0);
            i += 1;
        }
        let r = Interpreter {
            ip: 0,
            dp: 0,
            memory,
            insts: copy_instructions(&insts.0),
            output: Vec::new(),
        };
        proof {
            assert(r.state(Seq::empty()).tape =~= Seq::new(MEM_SIZE as nat, |i: int| 0u8));
        }
        r
    }

    /// The output written so far.
    pub fn output(&self) -> (r: &Vec<u8>)
        ensures
            r@ == self.state(Seq::empty()).out,
    {
        &self.output
    }

    /// The value of tape cell `i`.
    pub fn cell(&self, i: usize) -> (r: u8)
        requires
            i < MEM_SIZE,
            self.wf(),
        ensures
            r == self.state(Seq::empty()).tape[i as int],
    {
        self.memory[i]
    }
}

/// The ring index `delta` cells away from `dp`, computed without overflow
/// for any signed displacement.
fn ring_index(dp: usize, delta: i64) -> (r: usize)
    requires
        dp < MEM_SIZE,
    ensures
        r == ring(dp as int, delta as int),
        r < MEM_SIZE,
{
    let m = MEM_SIZE as u64;
    let rem: u64 = if delta >= 0 {
        (delta as u64) % m
    } else {
        let mag = -(delta as i128);
        let p = (mag % (m as i128)) as u64;
        (m - p) % m
    };
    proof {
        let mi = MEM_SIZE as int;
        if delta >= 0 {
            assert(rem == (delta as int) % mi);
        } else {
            let mag = -(delta as int);
            let p = mag % mi;
            let q = mag / mi;
            assert(rem == (mi - p) % mi);
            assert(mag == mi * q + p) by {
                vstd::arithmetic::div_mod::lemma_fundamental_div_mod(mag, mi);
            }
            if p == 0 {
                assert(delta as int == mi * (-q) + 0);
                lemma_mod_multiples_vanish(-q, 0, mi);
                lemma_small_mod(0, MEM_SIZE as nat);
                assert((delta as int) % mi == 0);
                assert(rem == 0) by {
                    lemma_mod_multiples_vanish(1, 0, mi);
                }
            } else {
                assert(delta as int == mi * (-q - 1) + (mi - p));
                lemma_mod_multiples_vanish(-q - 1, mi - p, mi);
                assert((delta as int) % mi == (mi - p) % mi);
                lemma_small_mod((mi - p) as nat, MEM_SIZE as nat);
            }
            assert(rem == (delta as int) % mi);
        }
        lemma_small_mod(rem as nat, MEM_SIZE as nat);
        lemma_small_mod(dp as nat, MEM_SIZE as nat);
        lemma_add_mod_noop(dp as int, delta as int, mi);
        lemma_add_mod_noop(dp as int, rem as int, mi);
        assert((dp as int + rem as int) % mi == (dp as int + delta as int) % mi);
    }
    (dp + (rem as usize)) % MEM_SIZE
}

/// A cell after adding a signed amount, wrapping at 8 bits.
fn cell_add_exec(v: u8, a: i8) -> (r: u8)
    ensures
        r == cell_add(v, a),
{
    let b: u8 = if a >= 0 {
        a as u8
    } else {
        ((a as i16) + 256) as u8
    };
    proof {
        lemma_add_mod_noop(v as int, a as int, 256);
        lemma_mod_multiples_vanish(1, a as int, 256);
        lemma_small_mod(v as nat, 256);
        if a >= 0 {
            lemma_small_mod(a as nat, 256);
        }
        assert((v as int % 256 + b as int % 256) % 256 == (v + a) % 256) by {
            assert(b as int % 256 == (a as int) % 256) by {
                if a < 0 {
                    assert(b == a + 256);
                    assert((256 * 1 + a) % 256 == (a as int) % 256);
                }
                lemma_small_mod(b as nat, 256);
            }
        }
        lemma_add_mod_noop(v as int, b as int, 256);
    }
    v.wrapping_add(b)
}

impl Interpreter {
    /// Run the program on the given input for at most `max_steps` machine
    /// steps.  `Ok(true)` means the program halted; `Ok(false)` means the
    /// step budget ran out first; the only error is `Read` at end of input.
    pub fn run(&mut self, input: &[u8], max_steps: u64) -> (r: Result<bool, Error>)
        requires
            old(self).wf(),
        ensures
            final(self).wf(),
            final(self).insts_view() == old(self).insts_view(),
            match r {
                Ok(true) => exists|n: nat, rest: Seq<u8>|
                    n <= max_steps && run_n(
                        old(self).insts_view(),
                        old(self).state(input@),
                        n,
                    ) == StepResult::Halt(final(self).state(rest)),
                Ok(false) => exists|rest: Seq<u8>|
                    run_n(old(self).insts_view(), old(self).state(input@), max_steps as nat)
                        == StepResult::Next(final(self).state(rest)),
                Err(e) => e == Error::CouldNotReadInput && exists|n: nat, rest: Seq<u8>|
                    n <= max_steps && run_n(
                        old(self).insts_view(),
                        old(self).state(input@),
                        n,
                    ) == StepResult::ReadFail(final(self).state(rest)),
            },
    {
        let ghost iv = self.insts@;
        let ghost s0 = self.state(input@);
        let n_insts = self.insts.len();
        let mut pos: usize = 0;
        let mut steps: u64 = 0;
        proof {
            assert(input@.skip(0) =~= input@);
        }
        while steps < max_steps
            invariant
                self.wf(),
                self.insts@ == iv,
                iv == old(self).insts_view(),
                s0 == old(self).state(input@),
                n_insts == iv.len(),
                0 <= pos <= input@.len(),
                steps <= max_steps,
                run_n(iv, s0, steps as nat) == StepResult::Next(
                    self.state(input@.skip(pos as int)),
                ),
            decreases max_steps - steps,
        {
            let ghost cur = self.state(input@.skip(pos as int));
            proof {
                lemma_run_n_snoc(iv, s0, steps as nat);
            }
            if self.ip >= n_insts as u64 {
                proof {
                    assert(step(iv, cur) == StepResult::Halt(cur));
                }
                return Ok(true);
            }
            let ip = self.ip as usize;
            match self.insts[ip] {
                Instruction::IncrDp { amount } => {
                    self.dp = ring_index(self.dp, amount);
                    self.ip = self.ip + 1;
                },
                Instruction::Incr { amount, offset } => {
                    let idx = ring_index(self.dp, offset);
                    let v = self.memory[idx];
                    self.memory[idx] = cell_add_exec(v, amount);
                    self.ip = self.ip + 1;
                },
                Instruction::SetCell { amount, offset } => {
                    let idx = ring_index(self.dp, offset);
                    let b: u8 = if amount >= 0 {
                        amount as u8
                    } else {
                        ((amount as i16) + 256) as u8
                    };
                    self.memory[idx] = b;
                    self.ip = self.ip + 1;
                },
                Instruction::Mul { amount, offset } => {
                    let idx = ring_index(self.dp, offset);
                    let b: u8 = if amount >= 0 {
                        amount as u8
                    } else {
                        ((amount as i16) + 256) as u8
                    };
                    let factor = self.memory[self.dp];
                    let v = self.memory[idx];
                    let prod = factor.wrapping_mul(b);
                    let sum = v.wrapping_add(prod);
                    proof {
                        lemma_mul_mod_noop_right(factor as int, b as int, 256);
                        lemma_add_mod_noop(v as int, (factor as int) * (b as int), 256);
                        lemma_add_mod_noop(v as int, ((factor as int) * (b as int)) % 256, 256);
                        lemma_small_mod(v as nat, 256);
                        assert(sum == ((v + factor * b) % 256) as u8);
                    }
                    self.memory[idx] = sum;
                    self.ip = self.ip + 1;
                },
                Instruction::BranchIfZero { destination } => {
                    if self.memory[self.dp] == 0 {
                        self.ip = destination;
                    } else {
                        self.ip = self.ip + 1;
                    }
                },
                Instruction::BranchIfNotZero { destination } => {
                    if self.memory[self.dp] != 0 {
                        self.ip = destination;
                    } else {
                        self.ip = self.ip + 1;
                    }
                },
                Instruction::Read => {
                    if pos < input.len() {
                        let b = input[pos];
                        self.memory[self.dp] = b;
                        pos += 1;
                        self.ip = self.ip + 1;
                        proof {
                            assert(input@.skip(pos as int) =~= input@.skip(pos - 1).skip(1));
                        }
                    } else {
                        proof {
                            assert(input@.skip(pos as int).len() == 0);
                            assert(step(iv, cur) == StepResult::ReadFail(cur));
                        }
                        return Err(Error::CouldNotReadInput);
                    }
                },
                Instruction::Write => {
                    let b = self.memory[self.dp];
                    self.output.push(b);
                    self.ip = self.ip + 1;
                },
            }
            steps += 1;
        }
        Ok(false)
    }
}

} // verus!
