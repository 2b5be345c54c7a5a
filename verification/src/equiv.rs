use vstd::prelude::*;

use vstd::arithmetic::div_mod::{
    lemma_add_mod_noop, lemma_add_mod_noop_right, lemma_mod_multiples_vanish, lemma_small_mod,
};

use crate::instruction::Instruction;
use crate::interpret::{
    cell_add, cell_byte, ring, run_n, step, MachState, StepResult, MEM_SIZE,
};
use crate::optimise::{
    coalesce_acc, coalesce_spec, drop_nops_spec, fuse_spec, group_spec, is_nop,
};

verus! {

/// Straight-line code: no branch instruction anywhere.
pub open spec fn branch_free(s: Seq<Instruction>) -> bool {
    forall|k: int|
        0 <= k < s.len() ==> !((#[trigger] s[k]) is BranchIfZero) && !(s[k] is BranchIfNotZero)
}

/// The machine state is usable: a full tape and the pointer on it.
pub open spec fn st_wf(s: MachState) -> bool {
    s.tape.len() == MEM_SIZE && s.dp < MEM_SIZE
}

/// What one straight-line instruction does to a machine state, the
/// instruction pointer aside: the same per-op semantics as `step`.  `None`
/// for a failed `Read` — and for a branch, which straight-line code never
/// holds.
pub open spec fn sl_step(i: Instruction, s: MachState) -> Option<MachState> {
    match i {
        Instruction::IncrDp { amount } => Some(
            MachState { dp: ring(s.dp as int, amount as int) as nat, ..s },
        ),
        Instruction::Incr { amount, offset } => {
            let idx = ring(s.dp as int, offset as int);
            Some(MachState { tape: s.tape.update(idx, cell_add(s.tape[idx], amount)), ..s })
        },
        Instruction::SetCell { amount, offset } => {
            let idx = ring(s.dp as int, offset as int);
            Some(MachState { tape: s.tape.update(idx, cell_byte(amount)), ..s })
        },
        Instruction::Mul { amount, offset } => {
            let idx = ring(s.dp as int, offset as int);
            let v = ((s.tape[idx] + s.tape[s.dp as int] * cell_byte(amount)) % 256) as u8;
            Some(MachState { tape: s.tape.update(idx, v), ..s })
        },
        Instruction::Read => {
            if s.inp.len() == 0 {
                None
            } else {
                Some(
                    MachState {
                        tape: s.tape.update(s.dp as int, s.inp[0]),
                        inp: s.inp.skip(1),
                        ..s
                    },
                )
            }
        },
        Instruction::Write => Some(MachState { out: s.out.push(s.tape[s.dp as int]), ..s }),
        _ => None,
    }
}

/// Run straight-line code to completion: the final state, or the state at
/// which `Read` met the end of the input.
pub open spec fn sl_run(code: Seq<Instruction>, s: MachState) -> Result<MachState, MachState>
    decreases code.len(),
{
    if code.len() == 0 {
        Ok(s)
    } else {
        match sl_step(code[0], s) {
            Some(s2) => sl_run(code.skip(1), s2),
            None => Err(s),
        }
    }
}

/// A straight-line step keeps the state usable and does not touch the
/// instruction pointer.
proof fn lemma_sl_step_wf(i: Instruction, s: MachState)
    requires
        st_wf(s),
        sl_step(i, s) is Some,
    ensures
        st_wf(sl_step(i, s)->Some_0),
        sl_step(i, s)->Some_0.ip == s.ip,
{
}

/// Running a concatenation runs the first part, then the second.
proof fn lemma_sl_run_concat(a: Seq<Instruction>, b: Seq<Instruction>, s: MachState)
    ensures
        sl_run(a + b, s) == match sl_run(a, s) {
            Ok(m) => sl_run(b, m),
            Err(e) => Err::<MachState, MachState>(e),
        },
    decreases a.len(),
{
    if a.len() == 0 {
        assert(a + b =~= b);
    } else {
        assert((a + b)[0] == a[0]);
        match sl_step(a[0], s) {
            Some(s2) => {
                assert((a + b).skip(1) =~= a.skip(1) + b);
                lemma_sl_run_concat(a.skip(1), b, s2);
            },
            None => {},
        }
    }
}

/// Wrapping 8-bit addition agrees with the exact sum modulo 256.
proof fn lemma_wrap_i8_mod(x: i8, y: i8)
    ensures
        (x.wrapping_add(y) as int) % 256 == (x + y) % 256,
{
    let w = x.wrapping_add(y) as int;
    if x + y > i8::MAX {
        assert(w == x + y - 256);
        lemma_mod_multiples_vanish(-1, x + y, 256);
    } else if x + y < i8::MIN {
        assert(w == x + y + 256);
        lemma_mod_multiples_vanish(1, x + y, 256);
    }
}

/// The byte a cell amount stands for agrees with the amount modulo 256,
/// and is already reduced.
proof fn lemma_cell_byte_mod(a: i8)
    ensures
        (cell_byte(a) as int) % 256 == (a as int) % 256,
        cell_byte(a) as int == (cell_byte(a) as int) % 256,
{
    let b = cell_byte(a) as int;
    lemma_small_mod(b as nat, 256);
    if a < 0 {
        lemma_mod_multiples_vanish(1, a as int, 256);
    }
}

/// Fusing two adjacent instructions preserves what they do to any usable
/// state.
proof fn lemma_fuse_correct(a: Instruction, b: Instruction, s: MachState)
    requires
        st_wf(s),
        fuse_spec(a, b) is Some,
    ensures
        (match sl_step(a, s) {
            Some(s1) => sl_step(b, s1),
            None => None::<MachState>,
        }) == sl_step(fuse_spec(a, b)->Some_0, s),
{
    match (a, b) {
        (
            Instruction::Incr { amount: x, offset: o1 },
            Instruction::Incr { amount: y, offset: o2 },
        ) => {
            let idx = ring(s.dp as int, o1 as int);
            let s1 = sl_step(a, s)->Some_0;
            assert(0 <= idx < MEM_SIZE);
            let v = s.tape[idx];
            assert(s1.tape[idx] == cell_add(v, x));
            assert(cell_add(cell_add(v, x), y) == cell_add(v, x.wrapping_add(y))) by {
                let w = x.wrapping_add(y) as int;
                lemma_wrap_i8_mod(x, y);
                // ((v + x) % 256 + y) % 256 == (v + x + y) % 256
                lemma_add_mod_noop(v + x, y as int, 256);
                lemma_small_mod(((v + x) % 256) as nat, 256);
                lemma_add_mod_noop((v + x) % 256, y as int, 256);
                // (v + w) % 256 == (v + (x + y)) % 256
                lemma_add_mod_noop_right(v as int, w, 256);
                lemma_add_mod_noop_right(v as int, x + y, 256);
            }
            assert(s1.tape.update(idx, cell_add(s1.tape[idx], y)) =~= s.tape.update(
                idx,
                cell_add(v, x.wrapping_add(y)),
            ));
        },
        (Instruction::IncrDp { amount: x }, Instruction::IncrDp { amount: y }) => {
            let mi = MEM_SIZE as int;
            let d1 = ring(s.dp as int, x as int);
            assert(0 <= d1 < mi);
            assert(ring(d1, y as int) == ring(s.dp as int, (x + y) as int)) by {
                lemma_small_mod(d1 as nat, MEM_SIZE as nat);
                lemma_add_mod_noop(s.dp as int + x, y as int, mi);
                lemma_add_mod_noop(d1, y as int, mi);
            }
        },
        (
            Instruction::Incr { amount: x, offset: o1 },
            Instruction::SetCell { amount: y, offset: o2 },
        ) => {
            let idx = ring(s.dp as int, o1 as int);
            assert(0 <= idx < MEM_SIZE);
            let s1 = sl_step(a, s)->Some_0;
            assert(s1.tape.update(idx, cell_byte(y)) =~= s.tape.update(idx, cell_byte(y)));
        },
        (
            Instruction::SetCell { amount: x, offset: o1 },
            Instruction::Incr { amount: y, offset: o2 },
        ) => {
            let idx = ring(s.dp as int, o1 as int);
            assert(0 <= idx < MEM_SIZE);
            let s1 = sl_step(a, s)->Some_0;
            assert(s1.tape[idx] == cell_byte(x));
            assert(cell_add(cell_byte(x), y) == cell_byte(x.wrapping_add(y))) by {
                let bx = cell_byte(x) as int;
                let w = x.wrapping_add(y) as int;
                let bw = cell_byte(x.wrapping_add(y)) as int;
                lemma_cell_byte_mod(x);
                lemma_cell_byte_mod(x.wrapping_add(y));
                lemma_wrap_i8_mod(x, y);
                // (bx + y) % 256 == (x + y) % 256
                lemma_add_mod_noop(bx, y as int, 256);
                lemma_add_mod_noop(x as int, y as int, 256);
                // bw == (x + y) % 256, both already in [0, 256)
                lemma_small_mod(((bx + y) % 256) as nat, 256);
            }
            assert(s1.tape.update(idx, cell_add(s1.tape[idx], y)) =~= s.tape.update(
                idx,
                cell_byte(x.wrapping_add(y)),
            ));
        },
        (
            Instruction::SetCell { amount: x, offset: o1 },
            Instruction::SetCell { amount: y, offset: o2 },
        ) => {
            let idx = ring(s.dp as int, o1 as int);
            assert(0 <= idx < MEM_SIZE);
            let s1 = sl_step(a, s)->Some_0;
            assert(s1.tape.update(idx, cell_byte(y)) =~= s.tape.update(idx, cell_byte(y)));
        },
        _ => {
            assert(false);
        },
    }
}

/// Straight-line runs keep the state usable.
proof fn lemma_sl_run_wf(code: Seq<Instruction>, s: MachState)
    requires
        st_wf(s),
    ensures
        match sl_run(code, s) {
            Ok(f) => st_wf(f),
            Err(e) => st_wf(e),
        },
    decreases code.len(),
{
    if code.len() > 0 {
        match sl_step(code[0], s) {
            Some(s2) => {
                lemma_sl_step_wf(code[0], s);
                lemma_sl_run_wf(code.skip(1), s2);
            },
            None => {},
        }
    }
}

/// Replacing a fusable pair at the front by its fusion preserves the run.
proof fn lemma_fuse_pair_run(
    a: Instruction,
    b: Instruction,
    tail: Seq<Instruction>,
    s: MachState,
)
    requires
        st_wf(s),
        fuse_spec(a, b) is Some,
    ensures
        sl_run(seq![a, b] + tail, s) == sl_run(seq![fuse_spec(a, b)->Some_0] + tail, s),
{
    lemma_fuse_correct(a, b, s);
    let m = fuse_spec(a, b)->Some_0;
    let two = seq![a, b] + tail;
    let one = seq![m] + tail;
    assert(two[0] == a && one[0] == m);
    match sl_step(a, s) {
        Some(s1) => {
            assert(two.skip(1) =~= seq![b] + tail);
            assert((seq![b] + tail)[0] == b);
            match sl_step(b, s1) {
                Some(s2) => {
                    assert((seq![b] + tail).skip(1) =~= tail);
                    assert(one.skip(1) =~= tail);
                    assert(sl_step(m, s) == Some(s2));
                    assert(sl_run(two, s) == sl_run(seq![b] + tail, s1));
                    assert(sl_run(seq![b] + tail, s1) == sl_run(tail, s2));
                    assert(sl_run(one, s) == sl_run(tail, s2));
                },
                None => {
                    assert(sl_step(m, s) is None);
                    assert(sl_run(two, s) == sl_run(seq![b] + tail, s1));
                    assert(sl_run(seq![b] + tail, s1) == Err::<MachState, MachState>(s1));
                    assert(sl_run(one, s) == Err::<MachState, MachState>(s1)) by {
                        assert(sl_step(m, s) is None);
                    }
                },
            }
        },
        None => {
            assert(sl_step(m, s) is None);
        },
    }
}

/// Adjacent fusion preserves what a sequence does to any usable state.
proof fn lemma_coalesce_acc_sl(acc: Instruction, rest: Seq<Instruction>, s: MachState)
    requires
        st_wf(s),
    ensures
        sl_run(coalesce_acc(acc, rest), s) == sl_run(seq![acc] + rest, s),
    decreases rest.len(),
{
    if rest.len() == 0 {
        assert(seq![acc] + rest =~= seq![acc]);
    } else {
        let b = rest[0];
        let tail = rest.skip(1);
        match fuse_spec(acc, b) {
            Some(m) => {
                lemma_coalesce_acc_sl(m, tail, s);
                lemma_fuse_pair_run(acc, b, tail, s);
                assert(seq![acc, b] + tail =~= seq![acc] + rest);
            },
            None => {
                lemma_sl_run_concat(seq![acc], coalesce_acc(b, tail), s);
                lemma_sl_run_concat(seq![acc], rest, s);
                assert(seq![acc][0] == acc);
                assert(seq![acc].skip(1) =~= Seq::<Instruction>::empty());
                match sl_step(acc, s) {
                    Some(s1) => {
                        assert(sl_run(Seq::<Instruction>::empty(), s1)
                            == Ok::<MachState, MachState>(s1));
                        assert(sl_run(seq![acc], s) == Ok::<MachState, MachState>(s1));
                        lemma_sl_step_wf(acc, s);
                        lemma_coalesce_acc_sl(b, tail, s1);
                        assert(seq![b] + tail =~= rest);
                    },
                    None => {
                        assert(sl_run(seq![acc], s) == Err::<MachState, MachState>(s));
                    },
                }
            },
        }
    }
}

/// Adjacent fusion preserves what code does to any usable state.
proof fn lemma_coalesce_sl(code: Seq<Instruction>, s: MachState)
    requires
        st_wf(s),
    ensures
        sl_run(coalesce_spec(code), s) == sl_run(code, s),
{
    if code.len() == 0 {
    } else {
        lemma_coalesce_acc_sl(code[0], code.skip(1), s);
        assert(seq![code[0]] + code.skip(1) =~= code);
    }
}

/// A no-op instruction leaves any usable state unchanged.
proof fn lemma_nop_sl(i: Instruction, s: MachState)
    requires
        st_wf(s),
        is_nop(i),
    ensures
        sl_step(i, s) == Some(s),
{
    match i {
        Instruction::Incr { amount, offset } => {
            let idx = ring(s.dp as int, offset as int);
            assert(0 <= idx < MEM_SIZE);
            let v = s.tape[idx];
            assert(cell_add(v, 0) == v) by {
                lemma_small_mod(v as nat, 256);
            }
            assert(s.tape.update(idx, v) =~= s.tape);
            assert(sl_step(i, s)->Some_0 == s);
        },
        Instruction::IncrDp { amount } => {
            assert(ring(s.dp as int, 0) == s.dp) by {
                lemma_small_mod(s.dp, MEM_SIZE as nat);
            }
            assert(sl_step(i, s)->Some_0 == s);
        },
        _ => {
            assert(false);
        },
    }
}

/// Dropping no-ops preserves what code does to any usable state.
proof fn lemma_drop_nops_sl(code: Seq<Instruction>, s: MachState)
    requires
        st_wf(s),
    ensures
        sl_run(drop_nops_spec(code), s) == sl_run(code, s),
    decreases code.len(),
{
    if code.len() > 0 {
        let pre = code.drop_last();
        let x = code.last();
        lemma_drop_nops_sl(pre, s);
        lemma_sl_run_wf(pre, s);
        assert(code =~= pre + seq![x]);
        lemma_sl_run_concat(pre, seq![x], s);
        if is_nop(x) {
            assert(drop_nops_spec(code) == drop_nops_spec(pre) + Seq::<Instruction>::empty());
            assert(drop_nops_spec(pre) + Seq::<Instruction>::empty() =~= drop_nops_spec(pre));
            match sl_run(pre, s) {
                Ok(m) => {
                    lemma_nop_sl(x, m);
                    assert(seq![x][0] == x);
                    assert(sl_step(x, m) == Some(m));
                    assert(seq![x].skip(1) =~= Seq::<Instruction>::empty());
                    assert(sl_run(Seq::<Instruction>::empty(), m) == Ok::<MachState, MachState>(
                        m,
                    ));
                    assert(sl_run(seq![x], m) == sl_run(seq![x].skip(1), m));
                },
                Err(_) => {},
            }
        } else {
            assert(drop_nops_spec(code) == drop_nops_spec(pre) + seq![x]);
            lemma_sl_run_concat(drop_nops_spec(pre), seq![x], s);
        }
    }
}

/// Run-length grouping preserves what code does to any usable state: the
/// grouped program reads, writes, moves and fails exactly as the original.
pub proof fn lemma_group_equivalent(code: Seq<Instruction>, s: MachState)
    requires
        st_wf(s),
    ensures
        sl_run(group_spec(code), s) == sl_run(code, s),
{
    lemma_coalesce_sl(code, s);
    lemma_drop_nops_sl(coalesce_spec(code), s);
}

/// `sl_run` never reads nor writes the instruction pointer.
proof fn lemma_sl_ip_irrelevant(code: Seq<Instruction>, s: MachState, p: nat)
    ensures
        sl_run(code, MachState { ip: p, ..s }) == match sl_run(code, s) {
            Ok(f) => Ok::<MachState, MachState>(MachState { ip: p, ..f }),
            Err(e) => Err::<MachState, MachState>(MachState { ip: p, ..e }),
        },
    decreases code.len(),
{
    if code.len() > 0 {
        let sp = MachState { ip: p, ..s };
        match sl_step(code[0], s) {
            Some(s2) => {
                assert(sl_step(code[0], sp) == Some(MachState { ip: p, ..s2 }));
                lemma_sl_ip_irrelevant(code.skip(1), s2, p);
            },
            None => {
                assert(sl_step(code[0], sp) is None);
            },
        }
    }
}

/// A machine step on a non-branch instruction is the straight-line step
/// with the instruction pointer advanced.
#[verifier::rlimit(100)]
#[verifier::spinoff_prover]
proof fn lemma_step_is_sl_step(code: Seq<Instruction>, s: MachState)
    requires
        s.ip < code.len(),
        !(code[s.ip as int] is BranchIfZero),
        !(code[s.ip as int] is BranchIfNotZero),
    ensures
        match sl_step(code[s.ip as int], s) {
            Some(s1) => step(code, s) == StepResult::Next(
                MachState { ip: (s.ip + 1) as nat, ..s1 },
            ),
            None => code[s.ip as int] is Read && step(code, s) == StepResult::ReadFail(s),
        },
{
    match code[s.ip as int] {
        Instruction::IncrDp { amount } => {},
        Instruction::Incr { amount, offset } => {},
        Instruction::SetCell { amount, offset } => {},
        Instruction::Mul { amount, offset } => {},
        Instruction::Read => {},
        Instruction::Write => {},
        _ => {
            assert(false);
        },
    }
}

/// The machine's small-step run from `s` computes what `sl_run` yields on
/// the rest of the program: a halt at the program's end with the
/// straight-line result, or a read failure at the state where `sl_run`
/// fails.
pub open spec fn runs_like_straight_line(code: Seq<Instruction>, s: MachState) -> bool {
    match sl_run(code.skip(s.ip as int), s) {
        Ok(f) => exists|n: nat|
            n <= code.len() - s.ip + 1 && run_n(code, s, n) == StepResult::Halt(
                MachState { ip: code.len() as nat, ..f },
            ),
        Err(e) => exists|n: nat, j: nat|
            run_n(code, s, n) == StepResult::ReadFail(MachState { ip: j, ..e }),
    }
}

/// On straight-line code the machine's small-step run computes `sl_run`: it
/// halts at the end of the program with the straight-line result, or fails
/// reading at the state where `sl_run` fails.
#[verifier::rlimit(100)]
#[verifier::spinoff_prover]
pub proof fn lemma_run_n_straight_line(code: Seq<Instruction>, s: MachState)
    requires
        branch_free(code),
        s.ip <= code.len(),
    ensures
        runs_like_straight_line(code, s),
    decreases code.len() - s.ip,
{
    let i = s.ip as int;
    if i == code.len() {
        assert(code.skip(i) =~= Seq::<Instruction>::empty());
        assert(sl_run(code.skip(i), s) == Ok::<MachState, MachState>(s));
        assert(step(code, s) == StepResult::Halt(s));
        assert(run_n(code, s, 1) == StepResult::Halt(s));
        assert(s == MachState { ip: code.len() as nat, ..s });
        assert(1 <= code.len() - s.ip + 1 && run_n(code, s, 1) == StepResult::Halt(
            MachState { ip: code.len() as nat, ..s },
        ));
        assert(runs_like_straight_line(code, s));
    } else {
        let c = code[i];
        assert(!(c is BranchIfZero) && !(c is BranchIfNotZero));
        assert(code.skip(i)[0] == c);
        assert(code.skip(i).skip(1) =~= code.skip(i + 1));
        match sl_step(c, s) {
            Some(s1) => {
                assert(s1.ip == s.ip);
                let s2 = MachState { ip: (s.ip + 1) as nat, ..s1 };
                lemma_step_is_sl_step(code, s);
                assert(step(code, s) == StepResult::Next(s2));
                assert(sl_run(code.skip(i), s) == sl_run(code.skip(i + 1), s1));
                lemma_sl_ip_irrelevant(code.skip(i + 1), s1, (s.ip + 1) as nat);
                lemma_run_n_straight_line(code, s2);
                match sl_run(code.skip(i + 1), s1) {
                    Ok(f) => {
                        assert(sl_run(code.skip(i + 1), s2) == Ok::<MachState, MachState>(
                            MachState { ip: (s.ip + 1) as nat, ..f },
                        ));
                        let f2 = MachState { ip: (s.ip + 1) as nat, ..f };
                        let n = choose|n: nat|
                            n <= code.len() - s2.ip + 1 && run_n(code, s2, n)
                                == StepResult::Halt(MachState { ip: code.len() as nat, ..f2 });
                        assert(MachState { ip: code.len() as nat, ..f2 } == MachState {
                            ip: code.len() as nat,
                            ..f
                        });
                        assert(run_n(code, s, n + 1) == run_n(code, s2, n));
                        assert(n + 1 <= code.len() - s.ip + 1 && run_n(code, s, n + 1)
                            == StepResult::Halt(MachState { ip: code.len() as nat, ..f }));
                        assert(exists|n0: nat|
                            n0 <= code.len() - s.ip + 1 && run_n(code, s, n0)
                                == StepResult::Halt(MachState { ip: code.len() as nat, ..f }));
                        assert(runs_like_straight_line(code, s));
                    },
                    Err(e) => {
                        assert(sl_run(code.skip(i + 1), s2) == Err::<MachState, MachState>(
                            MachState { ip: (s.ip + 1) as nat, ..e },
                        ));
                        let e2 = MachState { ip: (s.ip + 1) as nat, ..e };
                        let (n, j): (nat, nat) = choose|n: nat, j: nat|
                            run_n(code, s2, n) == StepResult::ReadFail(
                                MachState { ip: j, ..e2 },
                            );
                        assert(MachState { ip: j, ..e2 } == MachState { ip: j, ..e });
                        assert(run_n(code, s, n + 1) == run_n(code, s2, n));
                        assert(run_n(code, s, n + 1) == StepResult::ReadFail(
                            MachState { ip: j, ..e },
                        ));
                        assert(exists|n0: nat, j0: nat|
                            run_n(code, s, n0) == StepResult::ReadFail(
                                MachState { ip: j0, ..e },
                            ));
                        assert(runs_like_straight_line(code, s));
                    },
                }
            },
            None => {
                lemma_step_is_sl_step(code, s);
                assert(sl_run(code.skip(i), s) == Err::<MachState, MachState>(s));
                assert(c is Read);
                assert(step(code, s) == StepResult::ReadFail(s));
                assert(run_n(code, s, 1) == StepResult::ReadFail(s));
                assert(s == MachState { ip: s.ip, ..s });
                assert(run_n(code, s, 1) == StepResult::ReadFail(MachState { ip: s.ip, ..s }));
                match sl_run(code.skip(s.ip as int), s) {
                    Err(e) => {
                        assert(e == s);
                        assert(run_n(code, s, 1) == StepResult::ReadFail(
                            MachState { ip: s.ip, ..e },
                        ));
                        assert(exists|n0: nat, j0: nat|
                            run_n(code, s, n0) == StepResult::ReadFail(
                                MachState { ip: j0, ..e },
                            ));
                    },
                    Ok(_) => {
                        assert(false);
                    },
                }
                assert(runs_like_straight_line(code, s));
            },
        }
    }
}

/// Fusion introduces no branches.
proof fn lemma_coalesce_acc_branch_free(acc: Instruction, rest: Seq<Instruction>)
    requires
        !(acc is BranchIfZero),
        !(acc is BranchIfNotZero),
        branch_free(rest),
    ensures
        branch_free(coalesce_acc(acc, rest)),
    decreases rest.len(),
{
    if rest.len() > 0 {
        assert(branch_free(rest.skip(1))) by {
            assert(forall|k: int|
                0 <= k < rest.skip(1).len() ==> rest.skip(1)[k] == #[trigger] rest[k + 1]);
        }
        match fuse_spec(acc, rest[0]) {
            Some(m) => {
                lemma_coalesce_acc_branch_free(m, rest.skip(1));
            },
            None => {
                assert(!(rest[0] is BranchIfZero) && !(rest[0] is BranchIfNotZero));
                lemma_coalesce_acc_branch_free(rest[0], rest.skip(1));
                let t = coalesce_acc(rest[0], rest.skip(1));
                let r = seq![acc] + t;
                assert forall|k: int| 0 <= k < r.len() implies !((#[trigger] r[k])
                    is BranchIfZero) && !(r[k] is BranchIfNotZero) by {
                    if k == 0 {
                        assert(r[0] == acc);
                    } else {
                        assert(r[k] == t[k - 1]);
                    }
                }
            },
        }
    }
}

/// Dropping no-ops introduces no branches.
proof fn lemma_drop_nops_branch_free(code: Seq<Instruction>)
    requires
        branch_free(code),
    ensures
        branch_free(drop_nops_spec(code)),
    decreases code.len(),
{
    if code.len() > 0 {
        assert(branch_free(code.drop_last())) by {
            assert(forall|k: int|
                0 <= k < code.drop_last().len() ==> code.drop_last()[k] == #[trigger] code[k]);
        }
        lemma_drop_nops_branch_free(code.drop_last());
        let pre = drop_nops_spec(code.drop_last());
        let r = drop_nops_spec(code);
        assert forall|k: int| 0 <= k < r.len() implies !((#[trigger] r[k]) is BranchIfZero) && !(
        r[k] is BranchIfNotZero) by {
            if k < pre.len() {
                assert(r[k] == pre[k]);
            } else {
                assert(r[k] == code.last());
            }
        }
    }
}

/// Grouping straight-line code yields straight-line code.
proof fn lemma_group_branch_free(code: Seq<Instruction>)
    requires
        branch_free(code),
    ensures
        branch_free(group_spec(code)),
{
    if code.len() == 0 {
    } else {
        assert(branch_free(code.skip(1))) by {
            assert(forall|k: int|
                0 <= k < code.skip(1).len() ==> code.skip(1)[k] == #[trigger] code[k + 1]);
        }
        lemma_coalesce_acc_branch_free(code[0], code.skip(1));
    }
    lemma_drop_nops_branch_free(coalesce_spec(code));
}

/// Optimisation equivalence, grouping instance, on straight-line code: from
/// the same start, the machine running the grouped program halts, or fails
/// reading, with exactly the tape, pointer, remaining input and output it
/// reaches on the original program.
pub proof fn lemma_group_preserves_outcome(code: Seq<Instruction>, s: MachState)
    requires
        branch_free(code),
        st_wf(s),
        s.ip == 0,
    ensures
        match sl_run(code, s) {
            Ok(f) => (exists|n: nat|
                run_n(code, s, n) == StepResult::Halt(
                    MachState { ip: code.len() as nat, ..f },
                )) && (exists|n: nat|
                run_n(group_spec(code), s, n) == StepResult::Halt(
                    MachState { ip: group_spec(code).len() as nat, ..f },
                )),
            Err(e) => (exists|n: nat, j: nat|
                run_n(code, s, n) == StepResult::ReadFail(MachState { ip: j, ..e })) && (exists|
                n: nat,
                j: nat,
            |
                run_n(group_spec(code), s, n) == StepResult::ReadFail(
                    MachState { ip: j, ..e },
                )),
        },
{
    lemma_group_equivalent(code, s);
    lemma_group_branch_free(code);
    assert(code.skip(0) =~= code);
    assert(group_spec(code).skip(0) =~= group_spec(code));
    lemma_run_n_straight_line(code, s);
    lemma_run_n_straight_line(group_spec(code), s);
    match sl_run(code, s) {
        Ok(f) => {
            let n1 = choose|n: nat|
                n <= code.len() - s.ip + 1 && run_n(code, s, n) == StepResult::Halt(
                    MachState { ip: code.len() as nat, ..f },
                );
            assert(run_n(code, s, n1) == StepResult::Halt(
                MachState { ip: code.len() as nat, ..f },
            ));
            let n2 = choose|n: nat|
                n <= group_spec(code).len() - s.ip + 1 && run_n(group_spec(code), s, n)
                    == StepResult::Halt(MachState { ip: group_spec(code).len() as nat, ..f });
            assert(run_n(group_spec(code), s, n2) == StepResult::Halt(
                MachState { ip: group_spec(code).len() as nat, ..f },
            ));
        },
        Err(e) => {},
    }
}

} // verus!


