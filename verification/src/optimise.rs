use vstd::prelude::*;

use itertools::Itertools;

use crate::error::Error;
use crate::instruction::{Instruction, LinkedInstructions, UnlinkedInstructions};
use crate::link::{is_close, is_open, lemma_link_idempotent, link_spec};

verus! {

/// Which optimisation passes are enabled.
#[derive(Clone, Copy, Debug, PartialEq, Eq, Structural)]
pub struct Optimisations {
    pub combine_clears: bool,
    pub group_instructions: bool,
    pub reorder_instructions: bool,
    pub combine_multiply_loops: bool,
    pub combine_scan_loops: bool,
}

impl Optimisations {
    /// No pass enabled.
    pub fn empty() -> (r: Optimisations)
        ensures
            r == (Optimisations {
                combine_clears: false,
                group_instructions: false,
                reorder_instructions: false,
                combine_multiply_loops: false,
                combine_scan_loops: false,
            }),
    {
        Optimisations {
            combine_clears: false,
            group_instructions: false,
            reorder_instructions: false,
            combine_multiply_loops: false,
            combine_scan_loops: false,
        }
    }

    /// Every pass enabled.
    pub fn all() -> (r: Optimisations)
        ensures
            r == (Optimisations {
                combine_clears: true,
                group_instructions: true,
                reorder_instructions: true,
                combine_multiply_loops: true,
                combine_scan_loops: true,
            }),
    {
        Optimisations {
            combine_clears: true,
            group_instructions: true,
            reorder_instructions: true,
            combine_multiply_loops: true,
            combine_scan_loops: true,
        }
    }
}

/// Some element of `strs` reads exactly `w`.
pub open spec fn has_str(strs: Seq<String>, w: Seq<char>) -> bool {
    exists|i: int| 0 <= i < strs.len() && #[trigger] strs[i]@ == w
}

proof fn lemma_has_str_snoc(strs: Seq<String>, i: int, w: Seq<char>)
    requires
        0 <= i < strs.len(),
    ensures
        has_str(strs.take(i + 1), w) == (has_str(strs.take(i), w) || strs[i]@ == w),
{
    let pre = strs.take(i);
    let cur = strs.take(i + 1);
    if has_str(cur, w) {
        let j = choose|j: int| 0 <= j < cur.len() && #[trigger] cur[j]@ == w;
        if j < i {
            assert(pre[j]@ == w);
        } else {
            assert(cur[i] == strs[i]);
        }
    }
    if has_str(pre, w) {
        let j = choose|j: int| 0 <= j < pre.len() && #[trigger] pre[j]@ == w;
        assert(cur[j]@ == w);
    }
    if strs[i]@ == w {
        assert(cur[i]@ == w);
    }
}

impl Optimisations {
    /// Parse a set of optimisation names: each name enables its pass, `all`
    /// enables every pass, anything else is ignored.
    pub fn from_strings(strs: &[String]) -> (r: Optimisations)
        ensures
            r.combine_clears == (has_str(strs@, "all"@) || has_str(strs@, "combine-clears"@)),
            r.group_instructions == (has_str(strs@, "all"@) || has_str(
                strs@,
                "group-instructions"@,
            )),
            r.reorder_instructions == (has_str(strs@, "all"@) || has_str(
                strs@,
                "reorder-instructions"@,
            )),
            r.combine_multiply_loops == (has_str(strs@, "all"@) || has_str(
                strs@,
                "combine-multiply-loops"@,
            )),
            r.combine_scan_loops == (has_str(strs@, "all"@) || has_str(
                strs@,
                "combine-scan-loops"@,
            )),
    {
        let all_w: String = "all".to_owned();
        let clears_w: String = "combine-clears".to_owned();
        let group_w: String = "group-instructions".to_owned();
        let reorder_w: String = "reorder-instructions".to_owned();
        let mul_w: String = "combine-multiply-loops".to_owned();
        let scan_w: String = "combine-scan-loops".to_owned();
        let mut opts = Optimisations::empty();
        let n = strs.len();
        let mut i: usize = 0;
        while i < n
            invariant
                n == strs@.len(),
                0 <= i <= n,
                all_w@ == "all"@,
                clears_w@ == "combine-clears"@,
                group_w@ == "group-instructions"@,
                reorder_w@ == "reorder-instructions"@,
                mul_w@ == "combine-multiply-loops"@,
                scan_w@ == "combine-scan-loops"@,
                opts.combine_clears == (has_str(strs@.take(i as int), "all"@) || has_str(
                    strs@.take(i as int),
                    "combine-clears"@,
                )),
                opts.group_instructions == (has_str(strs@.take(i as int), "all"@) || has_str(
                    strs@.take(i as int),
                    "group-instructions"@,
                )),
                opts.reorder_instructions == (has_str(strs@.take(i as int), "all"@) || has_str(
                    strs@.take(i as int),
                    "reorder-instructions"@,
                )),
                opts.combine_multiply_loops == (has_str(strs@.take(i as int), "all"@) || has_str(
                    strs@.take(i as int),
                    "combine-multiply-loops"@,
                )),
                opts.combine_scan_loops == (has_str(strs@.take(i as int), "all"@) || has_str(
                    strs@.take(i as int),
                    "combine-scan-loops"@,
                )),
            decreases n - i,
        {
            let s = &strs[i];
            proof {
                reveal_strlit("all");
                reveal_strlit("combine-clears");
                reveal_strlit("group-instructions");
                reveal_strlit("reorder-instructions");
                reveal_strlit("combine-multiply-loops");
                reveal_strlit("combine-scan-loops");
                assert("all"@.len() == 3);
                assert("combine-clears"@.len() == 14);
                assert("group-instructions"@.len() == 18);
                assert("reorder-instructions"@.len() == 20);
                assert("combine-multiply-loops"@.len() == 22);
                assert("combine-scan-loops"@.len() == 18);
                assert("group-instructions"@[0] == 'g' && "combine-scan-loops"@[0] == 'c');
                assert("group-instructions"@ != "combine-scan-loops"@);
            }
            if *s == all_w {
                opts = Optimisations::all();
            } else if *s == clears_w {
                opts.combine_clears = true;
            } else if *s == group_w {
                opts.group_instructions = true;
            } else if *s == reorder_w {
                opts.reorder_instructions = true;
            } else if *s == mul_w {
                opts.combine_multiply_loops = true;
            } else if *s == scan_w {
                opts.combine_scan_loops = true;
            }
            proof {
                lemma_has_str_snoc(strs@, i as int, "all"@);
                lemma_has_str_snoc(strs@, i as int, "combine-clears"@);
                lemma_has_str_snoc(strs@, i as int, "group-instructions"@);
                lemma_has_str_snoc(strs@, i as int, "reorder-instructions"@);
                lemma_has_str_snoc(strs@, i as int, "combine-multiply-loops"@);
                lemma_has_str_snoc(strs@, i as int, "combine-scan-loops"@);
            }
            i += 1;
        }
        proof {
            assert(strs@.take(n as int) =~= strs@);
        }
        opts
    }
}

/// An `Incr` of exactly one, up or down, at offset zero: the body of a clear
/// loop.
pub open spec fn is_unit_incr(i: Instruction) -> bool {
    i matches Instruction::Incr { amount, offset } && offset == 0 && (amount == 1 || amount == -1)
}

/// The sequence after clear-loop fusion: `[` `±1` `]` becomes `Set 0`;
/// everything else is re-emitted, with `[` destinations cleared.
pub open spec fn clears_spec(s: Seq<Instruction>) -> Seq<Instruction>
    decreases s.len(),
{
    if s.len() == 0 {
        Seq::empty()
    } else if is_open(s[0]) && s.len() >= 2 && is_unit_incr(s[1]) {
        if s.len() >= 3 && is_close(s[2]) {
            seq![Instruction::SetCell { amount: 0, offset: 0 }] + clears_spec(s.skip(3))
        } else {
            seq![Instruction::BranchIfZero { destination: 0 }, s[1]] + clears_spec(s.skip(2))
        }
    } else if is_open(s[0]) {
        seq![Instruction::BranchIfZero { destination: 0 }] + clears_spec(s.skip(1))
    } else {
        seq![s[0]] + clears_spec(s.skip(1))
    }
}

impl LinkedInstructions {
    /// Combine `[-]` and `[+]` loops into a single `Set 0` instruction.
    pub fn combine_clears(&self) -> (r: UnlinkedInstructions)
        ensures
            r@ == clears_spec(self@),
    {
        let n = self.0.len();
        let mut out: Vec<Instruction> = Vec::new();
        let mut i: usize = 0;
        proof {
            assert(self@.skip(0) =~= self@);
            assert(out@ + clears_spec(self@) =~= clears_spec(self@));
        }
        while i < n
            invariant
                n == self.0.len(),
                0 <= i <= n,
                clears_spec(self@) == out@ + clears_spec(self@.skip(i as int)),
            decreases n - i,
        {
            let ghost suf = self@.skip(i as int);
            let ghost prev = out@;
            proof {
                assert(suf[0] == self@[i as int]);
                if i + 1 < n {
                    assert(suf[1] == self@[i + 1]);
                }
                if i + 2 < n {
                    assert(suf[2] == self@[i + 2]);
                }
            }
            match self.0[i] {
                Instruction::BranchIfZero { .. } => {
                    let unit_next = if i + 1 < n {
                        match self.0[i + 1] {
                            Instruction::Incr { amount, offset } => offset == 0 && (amount == 1
                                || amount == -1),
                            _ => false,
                        }
                    } else {
                        false
                    };
                    if unit_next {
                        let close_after = if i + 2 < n {
                            match self.0[i + 2] {
                                Instruction::BranchIfNotZero { .. } => true,
                                _ => false,
                            }
                        } else {
                            false
                        };
                        if close_after {
                            out.push(Instruction::SetCell { amount: 0, offset: 0 });
                            proof {
                                assert(suf.skip(3) =~= self@.skip(i + 3));
                                assert(clears_spec(suf) == seq![
                                    Instruction::SetCell { amount: 0, offset: 0 },
                                ] + clears_spec(self@.skip(i + 3)));
                                assert(prev + clears_spec(suf) =~= out@ + clears_spec(
                                    self@.skip(i + 3),
                                ));
                            }
                            i += 3;
                        } else {
                            out.push(Instruction::BranchIfZero { destination: 0 });
                            let second = self.0[i + 1];
                            out.push(second);
                            proof {
                                assert(suf.skip(2) =~= self@.skip(i + 2));
                                assert(clears_spec(suf) == seq![
                                    Instruction::BranchIfZero { destination: 0 },
                                    suf[1],
                                ] + clears_spec(self@.skip(i + 2)));
                                assert(prev + clears_spec(suf) =~= out@ + clears_spec(
                                    self@.skip(i + 2),
                                ));
                            }
                            i += 2;
                        }
                    } else {
                        out.push(Instruction::BranchIfZero { destination: 0 });
                        proof {
                            assert(suf.skip(1) =~= self@.skip(i + 1));
                            assert(clears_spec(suf) == seq![
                                Instruction::BranchIfZero { destination: 0 },
                            ] + clears_spec(self@.skip(i + 1)));
                            assert(prev + clears_spec(suf) =~= out@ + clears_spec(
                                self@.skip(i + 1),
                            ));
                        }
                        i += 1;
                    }
                },
                inst => {
                    out.push(inst);
                    proof {
                        assert(suf.skip(1) =~= self@.skip(i + 1));
                        assert(clears_spec(suf) == seq![suf[0]] + clears_spec(self@.skip(i + 1)));
                        assert(prev + clears_spec(suf) =~= out@ + clears_spec(self@.skip(i + 1)));
                    }
                    i += 1;
                },
            }
        }
        proof {
            assert(self@.skip(n as int) =~= Seq::<Instruction>::empty());
            assert(out@ + Seq::<Instruction>::empty() =~= out@);
        }
        UnlinkedInstructions(out)
    }
}

/// Whether two adjacent instructions fuse, and to what: equal-offset cell
/// writes merge (amounts wrapping at 8 bits), pointer moves add (only while
/// the sum fits), and a `Set` overwrites an `Incr` before it.
pub open spec fn fuse_spec(a: Instruction, b: Instruction) -> Option<Instruction> {
    match (a, b) {
        (
            Instruction::Incr { amount: x, offset: o1 },
            Instruction::Incr { amount: y, offset: o2 },
        ) => if o1 == o2 {
            Some(Instruction::Incr { amount: x.wrapping_add(y), offset: o2 })
        } else {
            None
        },
        (Instruction::IncrDp { amount: x }, Instruction::IncrDp { amount: y }) => if i64::MIN <= x
            + y <= i64::MAX {
            Some(Instruction::IncrDp { amount: (x + y) as i64 })
        } else {
            None
        },
        (
            Instruction::Incr { amount: _, offset: o1 },
            Instruction::SetCell { amount: y, offset: o2 },
        ) => if o1 == o2 {
            Some(Instruction::SetCell { amount: y, offset: o2 })
        } else {
            None
        },
        (
            Instruction::SetCell { amount: x, offset: o1 },
            Instruction::Incr { amount: y, offset: o2 },
        ) => if o1 == o2 {
            Some(Instruction::SetCell { amount: x.wrapping_add(y), offset: o2 })
        } else {
            None
        },
        (
            Instruction::SetCell { amount: _, offset: o1 },
            Instruction::SetCell { amount: y, offset: o2 },
        ) => if o1 == o2 {
            Some(Instruction::SetCell { amount: y, offset: o2 })
        } else {
            None
        },
        _ => None,
    }
}

/// Fuse two adjacent instructions, or hand both back unchanged.
fn fuse(a: Instruction, b: Instruction) -> (r: Result<Instruction, (Instruction, Instruction)>)
    ensures
        match fuse_spec(a, b) {
            Some(m) => r == Ok::<Instruction, (Instruction, Instruction)>(m),
            None => r == Err::<Instruction, (Instruction, Instruction)>((a, b)),
        },
{
    match (a, b) {
        (
            Instruction::Incr { amount: x, offset: o1 },
            Instruction::Incr { amount: y, offset: o2 },
        ) => if o1 == o2 {
            Ok(Instruction::Incr { amount: x.wrapping_add(y), offset: o2 })
        } else {
            Err((a, b))
        },
        (Instruction::IncrDp { amount: x }, Instruction::IncrDp { amount: y }) => {
            match x.checked_add(y) {
                Some(sum) => Ok(Instruction::IncrDp { amount: sum }),
                None => Err((a, b)),
            }
        },
        (
            Instruction::Incr { amount: _, offset: o1 },
            Instruction::SetCell { amount: y, offset: o2 },
        ) => if o1 == o2 {
            Ok(Instruction::SetCell { amount: y, offset: o2 })
        } else {
            Err((a, b))
        },
        (
            Instruction::SetCell { amount: x, offset: o1 },
            Instruction::Incr { amount: y, offset: o2 },
        ) => if o1 == o2 {
            Ok(Instruction::SetCell { amount: x.wrapping_add(y), offset: o2 })
        } else {
            Err((a, b))
        },
        (
            Instruction::SetCell { amount: _, offset: o1 },
            Instruction::SetCell { amount: y, offset: o2 },
        ) => if o1 == o2 {
            Ok(Instruction::SetCell { amount: y, offset: o2 })
        } else {
            Err((a, b))
        },
        _ => Err((a, b)),
    }
}

/// Left-to-right adjacent fusion, carrying an accumulator: each element
/// either merges into the accumulator or the accumulator is emitted and the
/// element takes its place.
pub open spec fn coalesce_acc(acc: Instruction, rest: Seq<Instruction>) -> Seq<Instruction>
    decreases rest.len(),
{
    if rest.len() == 0 {
        seq![acc]
    } else {
        match fuse_spec(acc, rest[0]) {
            Some(m) => coalesce_acc(m, rest.skip(1)),
            None => seq![acc] + coalesce_acc(rest[0], rest.skip(1)),
        }
    }
}

/// The sequence after adjacent fusion, before no-ops are dropped.
pub open spec fn coalesce_spec(s: Seq<Instruction>) -> Seq<Instruction> {
    if s.len() == 0 {
        Seq::empty()
    } else {
        coalesce_acc(s[0], s.skip(1))
    }
}

/// Relies on itertools' `Itertools::coalesce`: starting from the first
/// element, each later element is merged into the accumulator when the
/// closure returns `Ok`, or the accumulator is emitted and the element
/// becomes the new accumulator; the closure here is the verified `fuse`.
#[verifier::external_body]
fn coalesce_fuse(insts: Vec<Instruction>) -> (r: Vec<Instruction>)
    ensures
        r@ == coalesce_spec(insts@),
{
    insts.into_iter().coalesce(|a, b| fuse(a, b)).collect()
}

/// An instruction with no effect: an `Incr` of zero or a pointer move of
/// zero.  A `Set` of zero is not a no-op.
pub open spec fn is_nop(i: Instruction) -> bool {
    ||| (i matches Instruction::Incr { amount, .. } && amount == 0)
    ||| (i matches Instruction::IncrDp { amount } && amount == 0)
}

/// The sequence with every no-op removed.
pub open spec fn drop_nops_spec(s: Seq<Instruction>) -> Seq<Instruction>
    decreases s.len(),
{
    if s.len() == 0 {
        Seq::empty()
    } else {
        drop_nops_spec(s.drop_last()) + (if is_nop(s.last()) {
            Seq::empty()
        } else {
            seq![s.last()]
        })
    }
}

/// The sequence after run-length grouping: adjacent fusion, then no-ops
/// dropped.
pub open spec fn group_spec(s: Seq<Instruction>) -> Seq<Instruction> {
    drop_nops_spec(coalesce_spec(s))
}

fn drop_nops(insts: &Vec<Instruction>) -> (r: Vec<Instruction>)
    ensures
        r@ == drop_nops_spec(insts@),
{
    let mut out: Vec<Instruction> = Vec::new();
    let n = insts.len();
    let mut i: usize = 0;
    while i < n
        invariant
            n == insts.len(),
            0 <= i <= n,
            out@ == drop_nops_spec(insts@.take(i as int)),
        decreases n - i,
    {
        let inst = insts[i];
        let keep = match inst {
            Instruction::Incr { amount, .. } => amount != 0,
            Instruction::IncrDp { amount } => amount != 0,
            _ => true,
        };
        if keep {
            out.push(inst);
        }
        proof {
            assert(insts@.take(i + 1).drop_last() =~= insts@.take(i as int));
            assert(insts@.take(i + 1).last() == insts@[i as int]);
            if keep {
                assert(drop_nops_spec(insts@.take(i as int)) + seq![insts@[i as int]] =~= out@);
            } else {
                assert(drop_nops_spec(insts@.take(i as int)) + Seq::<Instruction>::empty()
                    =~= out@);
            }
        }
        i += 1;
    }
    proof {
        assert(insts@.take(n as int) =~= insts@);
    }
    out
}

impl LinkedInstructions {
    /// Group repeated `Incr`, `Set` and `IncrDp` instructions into one, and
    /// drop the no-ops fusion leaves behind.
    pub fn group_instructions(&self) -> (r: UnlinkedInstructions)
        ensures
            r@ == group_spec(self@),
    {
        let fused = coalesce_fuse(crate::instruction::copy_instructions(&self.0));
        UnlinkedInstructions(drop_nops(&fused))
    }
}

/// The magnitude of a pointer move; zero for anything else.
pub open spec fn dp_weight(i: Instruction) -> int {
    match i {
        Instruction::IncrDp { amount } => if amount >= 0 {
            amount as int
        } else {
            -(amount as int)
        },
        _ => 0,
    }
}

/// Total magnitude of all pointer moves in the sequence.
pub open spec fn dp_total(s: Seq<Instruction>) -> int
    decreases s.len(),
{
    if s.len() == 0 {
        0
    } else {
        dp_weight(s[0]) + dp_total(s.skip(1))
    }
}

proof fn lemma_dp_total_nonneg(s: Seq<Instruction>)
    ensures
        dp_total(s) >= 0,
        forall|k: int| 0 <= k < s.len() ==> dp_weight(#[trigger] s[k]) <= dp_total(s),
    decreases s.len(),
{
    if s.len() > 0 {
        lemma_dp_total_nonneg(s.skip(1));
        assert forall|k: int| 0 <= k < s.len() implies dp_weight(#[trigger] s[k]) <= dp_total(
            s,
        ) by {
            if k > 0 {
                assert(s.skip(1)[k - 1] == s[k]);
            }
        }
    }
}

/// No two adjacent elements fall under any fusion rule.
pub open spec fn no_adjacent_fusable(s: Seq<Instruction>) -> bool {
    forall|k: int|
        0 <= k && k + 1 < s.len() ==> #[trigger] fuse_spec(s[k], s[k + 1]) is None
}

/// How the head of a fusion chain can evolve from its starting accumulator:
/// an `Incr` can stay an `Incr` or become a `Set` at the same offset, a
/// `Set` stays a `Set`, a pointer move stays a pointer move, and everything
/// else is left untouched.
pub open spec fn head_evolves(acc: Instruction, h: Instruction) -> bool {
    match acc {
        Instruction::Incr { offset: o, .. } => (h matches Instruction::Incr { offset: o2, .. }
            && o2 == o) || (h matches Instruction::SetCell { offset: o2, .. } && o2 == o),
        Instruction::SetCell { offset: o, .. } => h matches Instruction::SetCell {
            offset: o2,
            ..
        } && o2 == o,
        Instruction::IncrDp { .. } => h is IncrDp,
        _ => h == acc,
    }
}

/// After fusion, no two adjacent elements can fuse further, as long as the
/// total pointer motion cannot overflow a signed 64-bit sum.
proof fn lemma_coalesce_acc_neutral(acc: Instruction, rest: Seq<Instruction>)
    requires
        dp_total(rest) <= i64::MAX,
        acc matches Instruction::IncrDp { amount } ==> dp_weight(acc) + dp_total(rest)
            <= i64::MAX,
    ensures
        coalesce_acc(acc, rest).len() >= 1,
        no_adjacent_fusable(coalesce_acc(acc, rest)),
        head_evolves(acc, coalesce_acc(acc, rest)[0]),
    decreases rest.len(),
{
    lemma_dp_total_nonneg(rest);
    if rest.len() == 0 {
    } else {
        let b = rest[0];
        let tail = rest.skip(1);
        lemma_dp_total_nonneg(tail);
        assert(dp_total(rest) == dp_weight(b) + dp_total(tail));
        match fuse_spec(acc, b) {
            Some(m) => {
                lemma_coalesce_acc_neutral(m, tail);
                assert(head_evolves(m, coalesce_acc(m, tail)[0]));
                assert(head_evolves(acc, coalesce_acc(m, tail)[0]));
            },
            None => {
                lemma_coalesce_acc_neutral(b, tail);
                let t = coalesce_acc(b, tail);
                let r = seq![acc] + t;
                assert(r[0] == acc);
                assert(head_evolves(acc, r[0]));
                // the pair at the seam cannot fuse either
                assert(fuse_spec(acc, t[0]) is None) by {
                    match (acc, b) {
                        (
                            Instruction::IncrDp { amount: x },
                            Instruction::IncrDp { amount: y },
                        ) => {
                            assert(dp_weight(acc) + dp_weight(b) <= i64::MAX);
                            assert(i64::MIN <= x + y <= i64::MAX);
                            assert(false);
                        },
                        _ => {},
                    }
                    assert(head_evolves(b, t[0]));
                }
                assert forall|k: int| 0 <= k && k + 1 < r.len() implies #[trigger] fuse_spec(
                    r[k],
                    r[k + 1],
                ) is None by {
                    if k == 0 {
                        assert(r[1] == t[0]);
                    } else {
                        let j = k - 1;
                        assert(r[k] == t[j] && r[k + 1] == t[j + 1]);
                        assert(0 <= j && j + 1 < t.len());
                        assert(fuse_spec(t[j], t[j + 1]) is None);
                    }
                }
            },
        }
    }
}

proof fn lemma_drop_nops_no_nops(s: Seq<Instruction>)
    ensures
        forall|k: int| 0 <= k < drop_nops_spec(s).len() ==> !is_nop(#[trigger] drop_nops_spec(s)[k]),
    decreases s.len(),
{
    if s.len() > 0 {
        lemma_drop_nops_no_nops(s.drop_last());
        let pre = drop_nops_spec(s.drop_last());
        assert forall|k: int| 0 <= k < drop_nops_spec(s).len() implies !is_nop(
            #[trigger] drop_nops_spec(s)[k],
        ) by {
            if k < pre.len() {
                assert(drop_nops_spec(s)[k] == pre[k]);
            } else {
                assert(drop_nops_spec(s)[k] == s.last());
            }
        }
    }
}

proof fn lemma_drop_nops_identity(s: Seq<Instruction>)
    requires
        forall|k: int| 0 <= k < s.len() ==> !is_nop(#[trigger] s[k]),
    ensures
        drop_nops_spec(s) == s,
    decreases s.len(),
{
    if s.len() == 0 {
        assert(drop_nops_spec(s) =~= s);
    } else {
        assert(forall|k: int| 0 <= k < s.drop_last().len() ==> s.drop_last()[k] == #[trigger] s[k]);
        lemma_drop_nops_identity(s.drop_last());
        assert(!is_nop(s.last()));
        assert(drop_nops_spec(s) == s.drop_last() + seq![s.last()]);
        assert(s.drop_last() + seq![s.last()] =~= s);
    }
}

/// After grouping, no instruction with a net-zero effect remains.
pub proof fn lemma_grouping_no_nops(s: Seq<Instruction>)
    ensures
        forall|k: int| 0 <= k < group_spec(s).len() ==> !is_nop(#[trigger] group_spec(s)[k]),
{
    lemma_drop_nops_no_nops(coalesce_spec(s));
}

/// After grouping, no two adjacent instructions fall under any fusion rule
/// and no net-zero instruction remains — provided the total pointer motion
/// cannot overflow a signed 64-bit sum, and fusion alone left no net-zero
/// instruction for the filter to remove (removing one can expose a new
/// fusable pair).
pub proof fn lemma_grouping_neutral(s: Seq<Instruction>)
    requires
        dp_total(s) <= i64::MAX,
        forall|k: int|
            0 <= k < coalesce_spec(s).len() ==> !is_nop(#[trigger] coalesce_spec(s)[k]),
    ensures
        no_adjacent_fusable(group_spec(s)),
        forall|k: int| 0 <= k < group_spec(s).len() ==> !is_nop(#[trigger] group_spec(s)[k]),
{
    lemma_grouping_no_nops(s);
    if s.len() == 0 {
    } else {
        lemma_dp_total_nonneg(s.skip(1));
        assert(dp_total(s) == dp_weight(s[0]) + dp_total(s.skip(1)));
        lemma_coalesce_acc_neutral(s[0], s.skip(1));
        lemma_drop_nops_identity(coalesce_spec(s));
    }
}

/// An instruction the reorder pass may move: a cell write or a pointer
/// move.  Branches and I/O are barriers.
pub open spec fn movable(i: Instruction) -> bool {
    i is Incr || i is SetCell || i is IncrDp
}

/// Length of the maximal movable run at the front of `s`.
pub open spec fn run_len(s: Seq<Instruction>) -> nat
    decreases s.len(),
{
    if s.len() == 0 {
        0
    } else if movable(s[0]) {
        1 + run_len(s.skip(1))
    } else {
        0
    }
}

proof fn lemma_run_len_le(s: Seq<Instruction>)
    ensures
        run_len(s) <= s.len(),
    decreases s.len(),
{
    if s.len() > 0 && movable(s[0]) {
        lemma_run_len_le(s.skip(1));
    }
}

/// The front run is exactly the movable prefix up to the first barrier.
proof fn lemma_run_len_is(t: Seq<Instruction>, p: int)
    requires
        0 <= p <= t.len(),
        forall|k: int| 0 <= k < p ==> movable(#[trigger] t[k]),
        p < t.len() ==> !movable(t[p]),
    ensures
        run_len(t) == p,
    decreases p,
{
    if p == 0 {
    } else {
        assert(movable(t[0]));
        assert forall|k: int| 0 <= k < p - 1 implies movable(#[trigger] t.skip(1)[k]) by {
            assert(t.skip(1)[k] == t[k + 1]);
        }
        if p - 1 < t.skip(1).len() {
            assert(t.skip(1)[p - 1] == t[p]);
        }
        lemma_run_len_is(t.skip(1), p - 1);
    }
}

/// The offset a cell instruction works at; zero for anything else.
pub open spec fn inst_offset(i: Instruction) -> int {
    match i {
        Instruction::Incr { offset, .. } => offset as int,
        Instruction::SetCell { offset, .. } => offset as int,
        Instruction::Mul { offset, .. } => offset as int,
        _ => 0,
    }
}

/// The cell writes of a movable run, rewritten to offsets absolute from the
/// run's start; pointer moves shift the cursor and are dropped.
pub open spec fn abs_insts(s: Seq<Instruction>, cur: int) -> Seq<Instruction>
    decreases s.len(),
{
    if s.len() == 0 {
        Seq::empty()
    } else {
        match s[0] {
            Instruction::Incr { amount, offset } => seq![
                Instruction::Incr { amount, offset: (cur + offset) as i64 },
            ] + abs_insts(s.skip(1), cur),
            Instruction::SetCell { amount, offset } => seq![
                Instruction::SetCell { amount, offset: (cur + offset) as i64 },
            ] + abs_insts(s.skip(1), cur),
            Instruction::IncrDp { amount } => abs_insts(s.skip(1), cur + amount),
            _ => abs_insts(s.skip(1), cur),
        }
    }
}

/// The run's net pointer displacement.
pub open spec fn net_move(s: Seq<Instruction>, cur: int) -> int
    decreases s.len(),
{
    if s.len() == 0 {
        cur
    } else {
        match s[0] {
            Instruction::IncrDp { amount } => net_move(s.skip(1), cur + amount),
            _ => net_move(s.skip(1), cur),
        }
    }
}

/// Every rewritten offset, and the net displacement, fits a signed 64-bit
/// value.
pub open spec fn offsets_fit(s: Seq<Instruction>, cur: int) -> bool
    decreases s.len(),
{
    if s.len() == 0 {
        i64::MIN <= cur <= i64::MAX
    } else {
        match s[0] {
            Instruction::Incr { offset, .. } => i64::MIN <= cur + offset <= i64::MAX
                && offsets_fit(s.skip(1), cur),
            Instruction::SetCell { offset, .. } => i64::MIN <= cur + offset <= i64::MAX
                && offsets_fit(s.skip(1), cur),
            Instruction::IncrDp { amount } => offsets_fit(s.skip(1), cur + amount),
            _ => offsets_fit(s.skip(1), cur),
        }
    }
}

/// Stable insertion: `x` goes after every element with an offset at most its
/// own.
pub open spec fn insert_by_offset(t: Seq<Instruction>, x: Instruction) -> Seq<Instruction>
    decreases t.len(),
{
    if t.len() == 0 {
        seq![x]
    } else if inst_offset(t.last()) <= inst_offset(x) {
        t.push(x)
    } else {
        insert_by_offset(t.drop_last(), x).push(t.last())
    }
}

/// Stable insertion sort by offset.
pub open spec fn sort_by_offset(s: Seq<Instruction>) -> Seq<Instruction>
    decreases s.len(),
{
    if s.len() == 0 {
        Seq::empty()
    } else {
        insert_by_offset(sort_by_offset(s.drop_last()), s.last())
    }
}

/// What reordering one movable run produces: its cell writes at absolute
/// offsets, stably sorted by offset, then one pointer move for the net
/// displacement if it is not zero.  A run whose rewritten offsets cannot be
/// represented is left unchanged.
pub open spec fn reorder_run_spec(run: Seq<Instruction>) -> Seq<Instruction> {
    if offsets_fit(run, 0) {
        sort_by_offset(abs_insts(run, 0)) + (if net_move(run, 0) == 0 {
            Seq::<Instruction>::empty()
        } else {
            seq![Instruction::IncrDp { amount: net_move(run, 0) as i64 }]
        })
    } else {
        run
    }
}

/// The sequence after pointer-motion hoisting: each maximal movable run is
/// reordered; barriers stay in place.
pub open spec fn reorder_spec(s: Seq<Instruction>) -> Seq<Instruction>
    decreases s.len(),
    via reorder_spec_decreases
{
    if s.len() == 0 {
        Seq::empty()
    } else if movable(s[0]) {
        let e = run_len(s) as int;
        reorder_run_spec(s.take(e)) + reorder_spec(s.skip(e))
    } else {
        seq![s[0]] + reorder_spec(s.skip(1))
    }
}

#[via_fn]
proof fn reorder_spec_decreases(s: Seq<Instruction>) {
    if s.len() > 0 && movable(s[0]) {
        lemma_run_len_le(s);
    }
}

/// Where the insertion point lies, insertion is a splice at that point.
proof fn lemma_insert_by_offset_at(t: Seq<Instruction>, x: Instruction, j: int)
    requires
        0 <= j <= t.len(),
        forall|k: int| j <= k < t.len() ==> inst_offset(#[trigger] t[k]) > inst_offset(x),
        j > 0 ==> inst_offset(t[j - 1]) <= inst_offset(x),
    ensures
        insert_by_offset(t, x) == t.take(j) + seq![x] + t.skip(j),
    decreases t.len(),
{
    if t.len() == 0 {
        assert(t.take(0) + seq![x] + t.skip(0) =~= seq![x]);
    } else if inst_offset(t.last()) <= inst_offset(x) {
        assert(j == t.len());
        assert(t.take(j) + seq![x] + t.skip(j) =~= t.push(x));
    } else {
        assert(j < t.len());
        let d = t.drop_last();
        assert forall|k: int| j <= k < d.len() implies inst_offset(#[trigger] d[k]) > inst_offset(
            x,
        ) by {
            assert(d[k] == t[k]);
        }
        if j > 0 {
            assert(d[j - 1] == t[j - 1]);
        }
        lemma_insert_by_offset_at(d, x, j);
        assert(insert_by_offset(t, x) == (d.take(j) + seq![x] + d.skip(j)).push(t.last()));
        assert((d.take(j) + seq![x] + d.skip(j)).push(t.last()) =~= t.take(j) + seq![x] + t.skip(
            j,
        ));
    }
}

/// The offset a cell instruction works at.
fn inst_offset_exec(i: &Instruction) -> (r: i64)
    ensures
        r == inst_offset(*i),
{
    match *i {
        Instruction::Incr { offset, .. } => offset,
        Instruction::SetCell { offset, .. } => offset,
        Instruction::Mul { offset, .. } => offset,
        _ => 0,
    }
}

/// Insert `x` into a vector after every element with an offset at most its
/// own.
fn insert_one(v: &mut Vec<Instruction>, x: Instruction)
    ensures
        final(v)@ == insert_by_offset(old(v)@, x),
{
    let mut j = v.len();
    while j > 0 && inst_offset_exec(&v[j - 1]) > inst_offset_exec(&x)
        invariant
            0 <= j <= v.len(),
            v == old(v),
            forall|k: int| j <= k < v@.len() ==> inst_offset(#[trigger] v@[k]) > inst_offset(x),
        decreases j,
    {
        j -= 1;
    }
    proof {
        lemma_insert_by_offset_at(v@, x, j as int);
    }
    v.insert(j, x);
    proof {
        assert(old(v)@.insert(j as int, x) =~= old(v)@.take(j as int) + seq![x] + old(v)@.skip(
            j as int,
        ));
    }
}

/// Reorder one movable run: absolute offsets, stable sort, one trailing
/// pointer move.
fn reorder_sequence(run: &Vec<Instruction>) -> (r: Vec<Instruction>)
    ensures
        r@ == reorder_run_spec(run@),
{
    let n = run.len();
    let mut cur: i128 = 0;
    let mut acc: Vec<Instruction> = Vec::new();
    let mut i: usize = 0;
    proof {
        assert(run@.skip(0) =~= run@);
        assert(acc@ + abs_insts(run@, 0) =~= abs_insts(run@, 0));
    }
    while i < n
        invariant
            n == run.len(),
            0 <= i <= n,
            -0x8000_0000_0000_0000i128 * (i as i128) <= cur
                <= 0x8000_0000_0000_0000i128 * (i as i128),
            offsets_fit(run@, 0) == offsets_fit(run@.skip(i as int), cur as int),
            offsets_fit(run@, 0) ==> abs_insts(run@, 0) == acc@ + abs_insts(
                run@.skip(i as int),
                cur as int,
            ),
            net_move(run@, 0) == net_move(run@.skip(i as int), cur as int),
        decreases n - i,
    {
        let ghost suf = run@.skip(i as int);
        proof {
            assert(suf[0] == run@[i as int]);
            assert(run@.skip(i + 1) =~= suf.skip(1));
        }
        match run[i] {
            Instruction::Incr { amount, offset } => {
                let t = cur + offset as i128;
                if t < i64::MIN as i128 || t > i64::MAX as i128 {
                    proof {
                        assert(!offsets_fit(suf, cur as int));
                    }
                    return crate::instruction::copy_instructions(run);
                }
                acc.push(Instruction::Incr { amount, offset: t as i64 });
            },
            Instruction::SetCell { amount, offset } => {
                let t = cur + offset as i128;
                if t < i64::MIN as i128 || t > i64::MAX as i128 {
                    proof {
                        assert(!offsets_fit(suf, cur as int));
                    }
                    return crate::instruction::copy_instructions(run);
                }
                acc.push(Instruction::SetCell { amount, offset: t as i64 });
            },
            Instruction::IncrDp { amount } => {
                cur = cur + amount as i128;
            },
            _ => {},
        }
        i += 1;
    }
    if cur < i64::MIN as i128 || cur > i64::MAX as i128 {
        proof {
            assert(run@.skip(n as int) =~= Seq::<Instruction>::empty());
            assert(!offsets_fit(run@, 0));
        }
        return crate::instruction::copy_instructions(run);
    }
    proof {
        assert(run@.skip(n as int) =~= Seq::<Instruction>::empty());
        assert(offsets_fit(run@, 0));
        assert(abs_insts(run@, 0) == acc@ + Seq::<Instruction>::empty());
        assert(acc@ + Seq::<Instruction>::empty() =~= acc@);
        assert(net_move(run@, 0) == cur as int);
    }
    let mut sorted: Vec<Instruction> = Vec::new();
    let m = acc.len();
    let mut k: usize = 0;
    while k < m
        invariant
            m == acc.len(),
            0 <= k <= m,
            sorted@ == sort_by_offset(acc@.take(k as int)),
        decreases m - k,
    {
        insert_one(&mut sorted, acc[k]);
        proof {
            assert(acc@.take(k + 1).drop_last() =~= acc@.take(k as int));
            assert(acc@.take(k + 1).last() == acc@[k as int]);
        }
        k += 1;
    }
    proof {
        assert(acc@.take(m as int) =~= acc@);
    }
    if cur != 0 {
        sorted.push(Instruction::IncrDp { amount: cur as i64 });
        proof {
            assert(sort_by_offset(abs_insts(run@, 0)) + seq![
                Instruction::IncrDp { amount: net_move(run@, 0) as i64 },
            ] =~= sorted@);
        }
    } else {
        proof {
            assert(sort_by_offset(abs_insts(run@, 0)) + Seq::<Instruction>::empty() =~= sorted@);
        }
    }
    sorted
}

impl LinkedInstructions {
    /// Reorder `Incr` and `Set` instructions within each straight-line run
    /// so they use absolute offsets in ascending order, with a single
    /// pointer move at the run's end.
    pub fn reorder(&self) -> (r: UnlinkedInstructions)
        ensures
            r@ == reorder_spec(self@),
    {
        let n = self.0.len();
        let mut sequence: Vec<Instruction> = Vec::new();
        let mut result: Vec<Instruction> = Vec::new();
        let mut i: usize = 0;
        proof {
            assert(self@.skip(0) =~= self@);
            assert(result@ + reorder_spec(self@) =~= reorder_spec(self@));
        }
        while i < n
            invariant
                n == self.0.len(),
                0 <= i <= n,
                sequence@.len() <= i,
                sequence@ == self@.subrange(i - sequence@.len(), i as int),
                forall|k: int| 0 <= k < sequence@.len() ==> movable(#[trigger] sequence@[k]),
                reorder_spec(self@) == result@ + reorder_spec(
                    self@.skip(i - sequence@.len()),
                ),
            decreases n - i,
        {
            let inst = self.0[i];
            let is_movable = match inst {
                Instruction::Incr { .. } => true,
                Instruction::SetCell { .. } => true,
                Instruction::IncrDp { .. } => true,
                _ => false,
            };
            if is_movable {
                sequence.push(inst);
                proof {
                    assert(sequence@ =~= self@.subrange(i + 1 - sequence@.len(), i + 1));
                }
            } else {
                let ghost j = i - sequence@.len();
                let ghost suf = self@.skip(j);
                if sequence.len() > 0 {
                    let mut reordered = reorder_sequence(&sequence);
                    proof {
                        let p = sequence@.len() as int;
                        assert forall|k: int| 0 <= k < p implies movable(#[trigger] suf[k]) by {
                            assert(suf[k] == self@[j + k]);
                            assert(sequence@[k] == self@[j + k]);
                        }
                        assert(suf[p] == self@[i as int]);
                        assert(!movable(suf[p]));
                        lemma_run_len_is(suf, p);
                        assert(suf.take(p) =~= sequence@);
                        assert(suf.skip(p) =~= self@.skip(i as int));
                        assert(reorder_spec(suf) == reorder_run_spec(sequence@) + reorder_spec(
                            self@.skip(i as int),
                        ));
                    }
                    result.append(&mut reordered);
                    sequence = Vec::new();
                }
                result.push(inst);
                proof {
                    assert(self@.skip(i as int)[0] == self@[i as int]);
                    assert(self@.skip(i as int).skip(1) =~= self@.skip(i + 1));
                    assert(reorder_spec(self@.skip(i as int)) == seq![self@[i as int]]
                        + reorder_spec(self@.skip(i + 1)));
                    assert(sequence@ =~= self@.subrange(i + 1 - sequence@.len(), i + 1));
                }
            }
            i += 1;
        }
        if sequence.len() > 0 {
            let ghost j = n - sequence@.len();
            let ghost suf = self@.skip(j);
            let mut reordered = reorder_sequence(&sequence);
            proof {
                let p = sequence@.len() as int;
                assert forall|k: int| 0 <= k < p implies movable(#[trigger] suf[k]) by {
                    assert(suf[k] == self@[j + k]);
                    assert(sequence@[k] == self@[j + k]);
                }
                lemma_run_len_is(suf, p);
                assert(suf.take(p) =~= sequence@);
                assert(suf.skip(p) =~= self@.skip(n as int));
                assert(self@.skip(n as int) =~= Seq::<Instruction>::empty());
                assert(reorder_spec(suf) == reorder_run_spec(sequence@) + reorder_spec(
                    Seq::<Instruction>::empty(),
                ));
            }
            result.append(&mut reordered);
            proof {
                assert(reorder_spec(Seq::<Instruction>::empty()) =~= Seq::<Instruction>::empty());
                assert(result@ + Seq::<Instruction>::empty() =~= result@);
            }
        } else {
            proof {
                assert(self@.skip(n as int) =~= Seq::<Instruction>::empty());
                assert(result@ + Seq::<Instruction>::empty() =~= result@);
            }
        }
        UnlinkedInstructions(result)
    }
}

/// A sorted association list from cell offset to accumulated delta, with
/// `a` added (wrapping) at offset `o`; a new offset is inserted in order.
pub open spec fn upsert(t: Seq<(i64, i8)>, o: i64, a: i8) -> Seq<(i64, i8)>
    decreases t.len(),
{
    if t.len() == 0 {
        seq![(o, a)]
    } else if t.last().0 < o {
        t.push((o, a))
    } else if t.last().0 == o {
        t.drop_last().push((o, t.last().1.wrapping_add(a)))
    } else {
        upsert(t.drop_last(), o, a).push(t.last())
    }
}

/// The delta recorded at offset `o`, if any.
pub open spec fn lookup(t: Seq<(i64, i8)>, o: i64) -> Option<i8>
    decreases t.len(),
{
    if t.len() == 0 {
        None
    } else if t.last().0 == o {
        Some(t.last().1)
    } else {
        lookup(t.drop_last(), o)
    }
}

/// Walk a loop body, tracking the pointer cursor and the per-cell deltas.
/// `None` when the body holds anything besides `Incr` and `IncrDp`, or an
/// absolute offset cannot be represented.
pub open spec fn changes_walk(body: Seq<Instruction>, cur: int, t: Seq<(i64, i8)>) -> Option<
    (int, Seq<(i64, i8)>),
>
    decreases body.len(),
{
    if body.len() == 0 {
        Some((cur, t))
    } else {
        match body[0] {
            Instruction::Incr { amount, offset } => if i64::MIN <= cur + offset <= i64::MAX {
                changes_walk(body.skip(1), cur, upsert(t, (cur + offset) as i64, amount))
            } else {
                None
            },
            Instruction::IncrDp { amount } => changes_walk(body.skip(1), cur + amount, t),
            _ => None,
        }
    }
}

/// The cell deltas of a qualifying multiply loop body: only `Incr` and
/// `IncrDp`, net pointer motion zero, delta at offset zero exactly minus
/// one, and at least one other offset touched.
pub open spec fn multiply_changes(body: Seq<Instruction>) -> Option<Seq<(i64, i8)>> {
    match changes_walk(body, 0, Seq::empty()) {
        None => None,
        Some((net, t)) => if net == 0 && lookup(t, 0) == Some(-1i8) && t.len() >= 2 {
            Some(t)
        } else {
            None
        },
    }
}

/// One `Mul` per touched offset other than zero, in ascending order.
pub open spec fn muls_of(t: Seq<(i64, i8)>) -> Seq<Instruction>
    decreases t.len(),
{
    if t.len() == 0 {
        Seq::empty()
    } else {
        muls_of(t.drop_last()) + (if t.last().0 == 0 {
            Seq::<Instruction>::empty()
        } else {
            seq![Instruction::Mul { amount: t.last().1, offset: t.last().0 }]
        })
    }
}

/// The sequence after multiply-loop recognition, from position `i` on: a
/// qualifying `[body]` becomes its `Mul` instructions followed by `Set 0`;
/// everything else is re-emitted.
pub open spec fn mul_spec_from(s: Seq<Instruction>, i: int) -> Seq<Instruction>
    decreases s.len() - i,
{
    if i < 0 || i >= s.len() {
        Seq::empty()
    } else {
        match s[i] {
            Instruction::BranchIfZero { destination } => {
                let d = destination as int;
                if i + 1 <= d && d < s.len() {
                    match multiply_changes(s.subrange(i + 1, d)) {
                        Some(t) => muls_of(t) + seq![
                            Instruction::SetCell { amount: 0, offset: 0 },
                        ] + mul_spec_from(s, d + 1),
                        None => seq![s[i]] + mul_spec_from(s, i + 1),
                    }
                } else {
                    seq![s[i]] + mul_spec_from(s, i + 1)
                }
            },
            _ => seq![s[i]] + mul_spec_from(s, i + 1),
        }
    }
}

/// The sequence after multiply-loop recognition.
pub open spec fn mul_loops_spec(s: Seq<Instruction>) -> Seq<Instruction> {
    mul_spec_from(s, 0)
}

/// The list's offsets are strictly ascending.
pub open spec fn sorted_keys(t: Seq<(i64, i8)>) -> bool {
    forall|k1: int, k2: int|
        #![trigger t[k1], t[k2]]
        0 <= k1 < k2 < t.len() ==> t[k1].0 < t[k2].0
}

/// Updating the list keeps its offsets strictly ascending, and introduces
/// no offset besides `o`.
proof fn lemma_upsert_sorted(t: Seq<(i64, i8)>, o: i64, a: i8)
    requires
        sorted_keys(t),
    ensures
        sorted_keys(upsert(t, o, a)),
        forall|k: int|
            0 <= k < upsert(t, o, a).len() ==> ((#[trigger] upsert(t, o, a)[k]).0 == o || exists|
                j: int,
            | 0 <= j < t.len() && (#[trigger] t[j]).0 == upsert(t, o, a)[k].0),
    decreases t.len(),
{
    let u = upsert(t, o, a);
    if t.len() == 0 {
        assert(u == seq![(o, a)]);
        assert(u[0].0 == o);
    } else if t.last().0 < o {
        assert(u == t.push((o, a)));
        assert forall|k1: int, k2: int|
            #![trigger u[k1], u[k2]]
            0 <= k1 < k2 < u.len() implies u[k1].0 < u[k2].0 by {
            if k2 < t.len() {
                assert(u[k1] == t[k1] && u[k2] == t[k2]);
            } else {
                assert(u[k2].0 == o);
                assert(u[k1] == t[k1]);
                if k1 < t.len() - 1 {
                    assert(t[k1].0 < t[t.len() - 1].0);
                }
            }
        }
        assert forall|k: int| 0 <= k < u.len() implies ((#[trigger] u[k]).0 == o || exists|j: int|
            0 <= j < t.len() && (#[trigger] t[j]).0 == u[k].0) by {
            if k < t.len() {
                assert(t[k].0 == u[k].0);
            }
        }
    } else if t.last().0 == o {
        assert(u == t.drop_last().push((o, t.last().1.wrapping_add(a))));
        assert forall|k1: int, k2: int|
            #![trigger u[k1], u[k2]]
            0 <= k1 < k2 < u.len() implies u[k1].0 < u[k2].0 by {
            assert(u[k1].0 == t[k1].0 && u[k2].0 == t[k2].0);
        }
        assert forall|k: int| 0 <= k < u.len() implies ((#[trigger] u[k]).0 == o || exists|j: int|
            0 <= j < t.len() && (#[trigger] t[j]).0 == u[k].0) by {
            assert(t[k].0 == u[k].0);
        }
    } else {
        let d = t.drop_last();
        assert forall|k1: int, k2: int|
            #![trigger d[k1], d[k2]]
            0 <= k1 < k2 < d.len() implies d[k1].0 < d[k2].0 by {
            assert(d[k1] == t[k1] && d[k2] == t[k2]);
        }
        lemma_upsert_sorted(d, o, a);
        let w = upsert(d, o, a);
        assert(u == w.push(t.last()));
        assert forall|k1: int, k2: int|
            #![trigger u[k1], u[k2]]
            0 <= k1 < k2 < u.len() implies u[k1].0 < u[k2].0 by {
            if k2 < w.len() {
                assert(u[k1] == w[k1] && u[k2] == w[k2]);
            } else {
                assert(u[k2] == t.last());
                assert(u[k1] == w[k1]);
                if w[k1].0 == o {
                } else {
                    let j = choose|j: int| 0 <= j < d.len() && (#[trigger] d[j]).0 == w[k1].0;
                    assert(d[j] == t[j]);
                    assert(t[j].0 < t[t.len() - 1].0);
                }
            }
        }
        assert forall|k: int| 0 <= k < u.len() implies ((#[trigger] u[k]).0 == o || exists|j: int|
            0 <= j < t.len() && (#[trigger] t[j]).0 == u[k].0) by {
            if k < w.len() {
                assert(u[k] == w[k]);
                if w[k].0 != o {
                    let j = choose|j: int| 0 <= j < d.len() && (#[trigger] d[j]).0 == w[k].0;
                    assert(d[j] == t[j]);
                }
            } else {
                assert(u[k] == t[t.len() - 1]);
            }
        }
    }
}

/// Where the scan stops, updating the list is an in-place add or a splice.
proof fn lemma_upsert_at(t: Seq<(i64, i8)>, o: i64, a: i8, j: int)
    requires
        0 <= j <= t.len(),
        forall|k: int| j <= k < t.len() ==> (#[trigger] t[k]).0 > o,
        j > 0 ==> t[j - 1].0 <= o,
    ensures
        j > 0 && t[j - 1].0 == o ==> upsert(t, o, a) == t.update(
            j - 1,
            (o, t[j - 1].1.wrapping_add(a)),
        ),
        !(j > 0 && t[j - 1].0 == o) ==> upsert(t, o, a) == t.take(j) + seq![(o, a)] + t.skip(j),
    decreases t.len(),
{
    if t.len() == 0 {
        assert(t.take(0) + seq![(o, a)] + t.skip(0) =~= seq![(o, a)]);
    } else if t.last().0 < o {
        assert(j == t.len());
        assert(t.take(j) + seq![(o, a)] + t.skip(j) =~= t.push((o, a)));
    } else if t.last().0 == o {
        assert(j == t.len());
        assert(t.drop_last().push((o, t.last().1.wrapping_add(a))) =~= t.update(
            j - 1,
            (o, t[j - 1].1.wrapping_add(a)),
        ));
    } else {
        assert(j < t.len());
        let d = t.drop_last();
        assert forall|k: int| j <= k < d.len() implies (#[trigger] d[k]).0 > o by {
            assert(d[k] == t[k]);
        }
        if j > 0 {
            assert(d[j - 1] == t[j - 1]);
        }
        lemma_upsert_at(d, o, a, j);
        if j > 0 && t[j - 1].0 == o {
            assert(upsert(t, o, a) == d.update(j - 1, (o, d[j - 1].1.wrapping_add(a))).push(
                t.last(),
            ));
            assert(d.update(j - 1, (o, d[j - 1].1.wrapping_add(a))).push(t.last()) =~= t.update(
                j - 1,
                (o, t[j - 1].1.wrapping_add(a)),
            ));
        } else {
            assert(upsert(t, o, a) == (d.take(j) + seq![(o, a)] + d.skip(j)).push(t.last()));
            assert((d.take(j) + seq![(o, a)] + d.skip(j)).push(t.last()) =~= t.take(j) + seq![
                (o, a),
            ] + t.skip(j));
        }
    }
}

/// Add `a` to the delta at offset `o`, keeping the list sorted.
fn upsert_exec(t: &mut Vec<(i64, i8)>, o: i64, a: i8)
    ensures
        final(t)@ == upsert(old(t)@, o, a),
{
    let mut j = t.len();
    while j > 0 && t[j - 1].0 > o
        invariant
            0 <= j <= t.len(),
            t == old(t),
            forall|k: int| j <= k < t@.len() ==> (#[trigger] t@[k]).0 > o,
        decreases j,
    {
        j -= 1;
    }
    proof {
        lemma_upsert_at(t@, o, a, j as int);
    }
    if j > 0 && t[j - 1].0 == o {
        let pair = t[j - 1];
        t[j - 1] = (o, pair.1.wrapping_add(a));
    } else {
        t.insert(j, (o, a));
        proof {
            assert(old(t)@.insert(j as int, (o, a)) =~= old(t)@.take(j as int) + seq![(o, a)]
                + old(t)@.skip(j as int));
        }
    }
}

/// Check whether `v[from..to]` is a multiply loop body, and return its cell
/// deltas if it is.
fn try_multiply_changes(v: &Vec<Instruction>, from: usize, to: usize) -> (r: Option<
    Vec<(i64, i8)>,
>)
    requires
        from <= to <= v@.len(),
    ensures
        match r {
            Some(t) => multiply_changes(v@.subrange(from as int, to as int)) == Some(t@),
            None => multiply_changes(v@.subrange(from as int, to as int)) is None,
        },
{
    let ghost body = v@.subrange(from as int, to as int);
    let mut cur: i128 = 0;
    let mut t: Vec<(i64, i8)> = Vec::new();
    let mut j = from;
    proof {
        assert(body.skip(0) =~= body);
    }
    while j < to
        invariant
            from <= j <= to <= v@.len(),
            body == v@.subrange(from as int, to as int),
            -0x8000_0000_0000_0000i128 * ((j - from) as i128) <= cur
                <= 0x8000_0000_0000_0000i128 * ((j - from) as i128),
            changes_walk(body, 0, Seq::empty()) == changes_walk(
                body.skip(j - from),
                cur as int,
                t@,
            ),
            sorted_keys(t@),
        decreases to - j,
    {
        let ghost suf = body.skip(j - from);
        proof {
            assert(suf[0] == body[j - from]);
            assert(body[j - from] == v@[j as int]);
            assert(body.skip(j + 1 - from) =~= suf.skip(1));
        }
        match v[j] {
            Instruction::Incr { amount, offset } => {
                let abs_o = cur + offset as i128;
                if abs_o < i64::MIN as i128 || abs_o > i64::MAX as i128 {
                    proof {
                        assert(changes_walk(suf, cur as int, t@) is None);
                    }
                    return None;
                }
                proof {
                    lemma_upsert_sorted(t@, abs_o as i64, amount);
                }
                upsert_exec(&mut t, abs_o as i64, amount);
            },
            Instruction::IncrDp { amount } => {
                cur = cur + amount as i128;
            },
            _ => {
                proof {
                    assert(changes_walk(suf, cur as int, t@) is None);
                }
                return None;
            },
        }
        j += 1;
    }
    proof {
        assert(body.skip(to - from) =~= Seq::<Instruction>::empty());
        assert(changes_walk(body, 0, Seq::empty()) == Some((cur as int, t@)));
    }
    if cur != 0 {
        return None;
    }
    // the loop must clear its own cell one step at a time
    let mut zero_ok = false;
    let m = t.len();
    let mut k: usize = 0;
    while k < m
        invariant
            m == t.len(),
            0 <= k <= m,
            zero_ok == (exists|q: int| 0 <= q < k && (#[trigger] t@[q]).0 == 0 && t@[q].1 == -1),
            forall|q: int| 0 <= q < k && (#[trigger] t@[q]).0 == 0 ==> t@[q].1 == -1,
            sorted_keys(t@),
            body == v@.subrange(from as int, to as int),
            changes_walk(body, 0, Seq::empty()) == Some((0int, t@)),
        decreases m - k,
    {
        let pair = t[k];
        if pair.0 == 0 && pair.1 == -1 {
            zero_ok = true;
        } else if pair.0 == 0 {
            proof {
                lemma_lookup_unique(t@, k as int);
            }
            return None;
        }
        k += 1;
    }
    if !zero_ok {
        proof {
            assert forall|q: int| 0 <= q < t@.len() implies (#[trigger] t@[q]).0 != 0 by {
                if t@[q].0 == 0 {
                    assert(t@[q].1 == -1);
                }
            }
            lemma_lookup_none(t@);
        }
        return None;
    }
    proof {
        let q = choose|q: int| 0 <= q < t@.len() && (#[trigger] t@[q]).0 == 0 && t@[q].1 == -1;
        lemma_lookup_unique(t@, q);
    }
    if t.len() < 2 {
        return None;
    }
    Some(t)
}

/// If entry `q` has offset zero, `lookup` at zero finds its delta —
/// offsets in the list are unique, so the entry is the only candidate.
proof fn lemma_lookup_unique(t: Seq<(i64, i8)>, q: int)
    requires
        0 <= q < t.len(),
        t[q].0 == 0,
        forall|k1: int, k2: int|
            #![trigger t[k1], t[k2]]
            0 <= k1 < k2 < t.len() ==> t[k1].0 != t[k2].0,
    ensures
        lookup(t, 0) == Some(t[q].1),
    decreases t.len(),
{
    if t.len() > 0 {
        if q == t.len() - 1 {
        } else {
            assert(t[q].0 != t[t.len() - 1].0);
            let d = t.drop_last();
            assert(d[q] == t[q]);
            assert forall|k1: int, k2: int|
                #![trigger d[k1], d[k2]]
                0 <= k1 < k2 < d.len() implies d[k1].0 != d[k2].0 by {
                assert(d[k1] == t[k1] && d[k2] == t[k2]);
            }
            lemma_lookup_unique(d, q);
        }
    }
}

/// If no entry has offset zero, `lookup` at zero finds nothing.
proof fn lemma_lookup_none(t: Seq<(i64, i8)>)
    requires
        forall|k: int| 0 <= k < t.len() ==> (#[trigger] t[k]).0 != 0,
    ensures
        lookup(t, 0) is None,
    decreases t.len(),
{
    if t.len() > 0 {
        let d = t.drop_last();
        assert forall|k: int| 0 <= k < d.len() implies (#[trigger] d[k]).0 != 0 by {
            assert(d[k] == t[k]);
        }
        lemma_lookup_none(d);
    }
}

/// Emit one `Mul` per touched offset other than zero, ascending, into
/// `out`.
fn emit_muls(out: &mut Vec<Instruction>, changes: &Vec<(i64, i8)>)
    ensures
        final(out)@ == old(out)@ + muls_of(changes@),
{
    let m = changes.len();
    let mut k: usize = 0;
    proof {
        assert(old(out)@ + muls_of(changes@.take(0)) =~= old(out)@);
    }
    while k < m
        invariant
            m == changes.len(),
            0 <= k <= m,
            out@ == old(out)@ + muls_of(changes@.take(k as int)),
        decreases m - k,
    {
        let pair = changes[k];
        if pair.0 != 0 {
            out.push(Instruction::Mul { amount: pair.1, offset: pair.0 });
        }
        proof {
            assert(changes@.take(k + 1).drop_last() =~= changes@.take(k as int));
            assert(changes@.take(k + 1).last() == changes@[k as int]);
            if pair.0 != 0 {
                assert(old(out)@ + (muls_of(changes@.take(k as int)) + seq![
                    Instruction::Mul { amount: pair.1, offset: pair.0 },
                ]) =~= out@);
            } else {
                assert(old(out)@ + (muls_of(changes@.take(k as int))
                    + Seq::<Instruction>::empty()) =~= out@);
            }
        }
        k += 1;
    }
    proof {
        assert(changes@.take(m as int) =~= changes@);
    }
}

impl LinkedInstructions {
    /// Recognise multiply-loop patterns and replace each with `Mul`
    /// instructions and a `Set 0`.
    pub fn combine_multiply_loops(&self) -> (r: UnlinkedInstructions)
        ensures
            r@ == mul_loops_spec(self@),
    {
        let n = self.0.len();
        let mut out: Vec<Instruction> = Vec::new();
        let mut i: usize = 0;
        proof {
            assert(out@ + mul_spec_from(self@, 0) =~= mul_spec_from(self@, 0));
        }
        while i < n
            invariant
                n == self.0.len(),
                0 <= i <= n,
                mul_loops_spec(self@) == out@ + mul_spec_from(self@, i as int),
            decreases n - i,
        {
            let ghost prev = out@;
            let inst = self.0[i];
            match inst {
                Instruction::BranchIfZero { destination } => {
                    let mut replaced = false;
                    if destination >= (i as u64) + 1 && destination < (n as u64) {
                        let d = destination as usize;
                        match try_multiply_changes(&self.0, i + 1, d) {
                            Some(changes) => {
                                emit_muls(&mut out, &changes);
                                out.push(Instruction::SetCell { amount: 0, offset: 0 });
                                proof {
                                    assert(prev + (muls_of(changes@) + seq![
                                        Instruction::SetCell { amount: 0, offset: 0 },
                                    ]) =~= out@);
                                    assert(mul_spec_from(self@, i as int) == muls_of(changes@)
                                        + seq![Instruction::SetCell { amount: 0, offset: 0 }]
                                        + mul_spec_from(self@, d + 1));
                                    assert(prev + (muls_of(changes@) + seq![
                                        Instruction::SetCell { amount: 0, offset: 0 },
                                    ] + mul_spec_from(self@, d + 1)) =~= out@ + mul_spec_from(
                                        self@,
                                        d + 1,
                                    ));
                                }
                                i = d + 1;
                                replaced = true;
                            },
                            None => {
                                out.push(inst);
                                proof {
                                    assert(mul_spec_from(self@, i as int) == seq![self@[i as int]]
                                        + mul_spec_from(self@, i + 1));
                                    assert(prev + (seq![self@[i as int]] + mul_spec_from(
                                        self@,
                                        i + 1,
                                    )) =~= out@ + mul_spec_from(self@, i + 1));
                                }
                                i += 1;
                                replaced = true;
                            },
                        }
                    }
                    if !replaced {
                        out.push(inst);
                        proof {
                            assert(mul_spec_from(self@, i as int) == seq![self@[i as int]]
                                + mul_spec_from(self@, i + 1));
                            assert(prev + (seq![self@[i as int]] + mul_spec_from(self@, i + 1))
                                =~= out@ + mul_spec_from(self@, i + 1));
                        }
                        i += 1;
                    }
                },
                _ => {
                    out.push(inst);
                    proof {
                        assert(mul_spec_from(self@, i as int) == seq![self@[i as int]]
                            + mul_spec_from(self@, i + 1));
                        assert(prev + (seq![self@[i as int]] + mul_spec_from(self@, i + 1)) =~= out@
                            + mul_spec_from(self@, i + 1));
                    }
                    i += 1;
                },
            }
        }
        proof {
            assert(mul_spec_from(self@, n as int) =~= Seq::<Instruction>::empty());
            assert(out@ + Seq::<Instruction>::empty() =~= out@);
        }
        UnlinkedInstructions(out)
    }
}

/// The iteration cap of the convergence loop.
pub const MAX_OPT_ITER: u8 = 20;

/// One optimiser iteration at the spec level: link, then each enabled pass
/// followed by a relink.  Only linking can fail.
pub open spec fn single_pass_spec(s: Seq<Instruction>, o: Optimisations) -> Result<
    Seq<Instruction>,
    Error,
> {
    match link_spec(s) {
        Err(e) => Err(e),
        Ok(l0) => {
            match (if o.combine_clears {
                link_spec(clears_spec(l0))
            } else {
                Ok(l0)
            }) {
                Err(e) => Err(e),
                Ok(l1) => {
                    match (if o.group_instructions {
                        link_spec(group_spec(l1))
                    } else {
                        Ok(l1)
                    }) {
                        Err(e) => Err(e),
                        Ok(l2) => {
                            match (if o.reorder_instructions {
                                link_spec(reorder_spec(l2))
                            } else {
                                Ok(l2)
                            }) {
                                Err(e) => Err(e),
                                Ok(l3) => if o.combine_multiply_loops {
                                    link_spec(mul_loops_spec(l3))
                                } else {
                                    Ok(l3)
                                },
                            }
                        },
                    }
                },
            }
        },
    }
}

/// The convergence loop at the spec level: stop when relinking the previous
/// sequence reproduces the current result, or the countdown runs out.
pub open spec fn opt_loop(
    prev: Seq<Instruction>,
    result: Seq<Instruction>,
    o: Optimisations,
    remaining: nat,
) -> Result<Seq<Instruction>, Error>
    decreases remaining,
{
    match link_spec(prev) {
        Err(e) => Err(e),
        Ok(lp) => if lp == result || remaining == 0 {
            Ok(result)
        } else {
            match single_pass_spec(result, o) {
                Err(e) => Err(e),
                Ok(next) => opt_loop(result, next, o, (remaining - 1) as nat),
            }
        },
    }
}

/// What optimising yields: repeated single passes until a fixed point or
/// the iteration cap.
pub open spec fn optimise_spec(s: Seq<Instruction>, o: Optimisations) -> Result<
    Seq<Instruction>,
    Error,
> {
    match single_pass_spec(s, o) {
        Err(e) => Err(e),
        Ok(r0) => opt_loop(s, r0, o, (MAX_OPT_ITER + 1) as nat),
    }
}

/// Whether the convergence loop ends by exhausting its countdown rather
/// than by reaching a fixed point.
pub open spec fn opt_loop_capped(
    prev: Seq<Instruction>,
    result: Seq<Instruction>,
    o: Optimisations,
    remaining: nat,
) -> bool
    decreases remaining,
{
    match link_spec(prev) {
        Err(_) => false,
        Ok(lp) => if lp == result {
            false
        } else if remaining == 0 {
            true
        } else {
            match single_pass_spec(result, o) {
                Err(_) => false,
                Ok(next) => opt_loop_capped(result, next, o, (remaining - 1) as nat),
            }
        },
    }
}

/// Whether optimising stops at the iteration cap.
pub open spec fn optimise_capped(s: Seq<Instruction>, o: Optimisations) -> bool {
    match single_pass_spec(s, o) {
        Err(_) => false,
        Ok(r0) => opt_loop_capped(s, r0, o, (MAX_OPT_ITER + 1) as nat),
    }
}

impl UnlinkedInstructions {
    /// One optimiser iteration: link, then apply each enabled pass and
    /// relink after it.
    pub(crate) fn optimise_single_pass(self, opts: &Optimisations) -> (r: Result<LinkedInstructions, Error>)
        ensures
            match r {
                Ok(l) => single_pass_spec(self@, *opts) == Ok::<Seq<Instruction>, Error>(l@),
                Err(e) => single_pass_spec(self@, *opts) == Err::<Seq<Instruction>, Error>(e),
            },
    {
        let mut optimised = match self.link() {
            Ok(l) => l,
            Err(e) => {
                return Err(e);
            },
        };
        if opts.combine_clears {
            optimised = match optimised.combine_clears().link() {
                Ok(l) => l,
                Err(e) => {
                    return Err(e);
                },
            };
        }
        if opts.group_instructions {
            optimised = match optimised.group_instructions().link() {
                Ok(l) => l,
                Err(e) => {
                    return Err(e);
                },
            };
        }
        if opts.reorder_instructions {
            optimised = match optimised.reorder().link() {
                Ok(l) => l,
                Err(e) => {
                    return Err(e);
                },
            };
        }
        if opts.combine_multiply_loops {
            optimised = match optimised.combine_multiply_loops().link() {
                Ok(l) => l,
                Err(e) => {
                    return Err(e);
                },
            };
        }
        Ok(optimised)
    }

    /// Apply all requested optimisations, re-running the enabled passes
    /// until the linked result stops changing or the iteration cap is
    /// reached.  On success the result is a fixed point of the single pass,
    /// unless the cap cut the iteration short.
    pub fn optimise(self, opts: &Optimisations) -> (r: Result<LinkedInstructions, Error>)
        ensures
            match r {
                Ok(l) => optimise_spec(self@, *opts) == Ok::<Seq<Instruction>, Error>(l@),
                Err(e) => optimise_spec(self@, *opts) == Err::<Seq<Instruction>, Error>(e),
            },
            r matches Ok(l) ==> (single_pass_spec(l@, *opts) == Ok::<Seq<Instruction>, Error>(l@)
                || optimise_capped(self@, *opts)),
    {
        let ghost s0 = self@;
        let mut prev: UnlinkedInstructions = self.clone();
        let mut result: LinkedInstructions = match self.clone().optimise_single_pass(opts) {
            Ok(l) => l,
            Err(e) => {
                return Err(e);
            },
        };
        let mut counter: u8 = 0;
        loop
            invariant
                counter <= 21,
                s0 == self@,
                optimise_spec(s0, *opts) == opt_loop(
                    prev@,
                    result@,
                    *opts,
                    (21 - counter) as nat,
                ),
                optimise_capped(s0, *opts) == opt_loop_capped(
                    prev@,
                    result@,
                    *opts,
                    (21 - counter) as nat,
                ),
                single_pass_spec(prev@, *opts) == Ok::<Seq<Instruction>, Error>(result@),
            decreases 21 - counter,
        {
            let lp = match prev.clone().link() {
                Ok(l) => l,
                Err(e) => {
                    return Err(e);
                },
            };
            let same = lp == result;
            if same {
                proof {
                    lemma_link_idempotent(prev@);
                    assert(link_spec(result@) == Ok::<Seq<Instruction>, Error>(result@));
                    assert(single_pass_spec(result@, *opts) == single_pass_spec(prev@, *opts));
                }
                return Ok(result);
            }
            if counter > MAX_OPT_ITER {
                proof {
                    assert((21 - counter) as nat == 0);
                }
                return Ok(result);
            }
            prev = UnlinkedInstructions(crate::instruction::copy_instructions(&result.0));
            result = match prev.clone().optimise_single_pass(opts) {
                Ok(l) => l,
                Err(e) => {
                    return Err(e);
                },
            };
            counter += 1;
        }
    }
}

} // verus!






