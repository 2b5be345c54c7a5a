use vstd::prelude::*;

use crate::instruction::{Instruction, UnlinkedInstructions};
use crate::link::{balanced, bracket_delta, depth};

verus! {

/// The instruction a single source byte lowers to, or `None` for every byte
/// outside the eight recognised symbols.
pub open spec fn lower_byte(b: u8) -> Option<Instruction> {
    if b == 62 {  // '>'
        Some(Instruction::IncrDp { amount: 1 })
    } else if b == 60 {  // '<'
        Some(Instruction::IncrDp { amount: -1i64 })
    } else if b == 43 {  // '+'
        Some(Instruction::Incr { amount: 1, offset: 0 })
    } else if b == 45 {  // '-'
        Some(Instruction::Incr { amount: -1i8, offset: 0 })
    } else if b == 91 {  // '['
        Some(Instruction::BranchIfZero { destination: 0 })
    } else if b == 93 {  // ']'
        Some(Instruction::BranchIfNotZero { destination: 0 })
    } else if b == 44 {  // ','
        Some(Instruction::Read)
    } else if b == 46 {  // '.'
        Some(Instruction::Write)
    } else {
        None
    }
}

/// The unlinked IR that a byte sequence lowers to: recognised bytes map to
/// their instruction, all other bytes are discarded.
pub open spec fn lower_spec(bytes: Seq<u8>) -> Seq<Instruction>
    decreases bytes.len(),
{
    if bytes.len() == 0 {
        Seq::empty()
    } else {
        lower_spec(bytes.drop_last()) + match lower_byte(bytes.last()) {
            Some(i) => seq![i],
            None => Seq::empty(),
        }
    }
}

/// Every instruction the lowerer emits is the image of some recognised byte
/// of the input: nothing outside the eight symbols reaches the IR.
pub proof fn lemma_lower_filtered(bytes: Seq<u8>)
    ensures
        forall|k: int|
            0 <= k < lower_spec(bytes).len() ==> exists|j: int|
                0 <= j < bytes.len() && lower_byte(bytes[j]) == Some(
                    #[trigger] lower_spec(bytes)[k],
                ),
    decreases bytes.len(),
{
    if bytes.len() > 0 {
        lemma_lower_filtered(bytes.drop_last());
        assert forall|k: int| 0 <= k < lower_spec(bytes).len() implies exists|j: int|
            0 <= j < bytes.len() && lower_byte(bytes[j]) == Some(
                #[trigger] lower_spec(bytes)[k],
            ) by {
            if k < lower_spec(bytes.drop_last()).len() {
                assert(lower_spec(bytes)[k] == lower_spec(bytes.drop_last())[k]);
                let j = choose|j: int|
                    0 <= j < bytes.drop_last().len() && lower_byte(bytes.drop_last()[j]) == Some(
                        lower_spec(bytes.drop_last())[k],
                    );
                assert(bytes[j] == bytes.drop_last()[j]);
            } else {
                let j = bytes.len() - 1;
                assert(lower_byte(bytes[j]) == Some(lower_spec(bytes)[k]));
            }
        }
    }
}

fn lower(bytes: &[u8]) -> (r: Vec<Instruction>)
    ensures
        r@ == lower_spec(bytes@),
{
    let mut out: Vec<Instruction> = Vec::new();
    let n = bytes.len();
    let mut i: usize = 0;
    while i < n
        invariant
            n == bytes@.len(),
            0 <= i <= n,
            out@ == lower_spec(bytes@.take(i as int)),
        decreases n - i,
    {
        let b = bytes[i];
        match b {
            62 => out.push(Instruction::IncrDp { amount: 1 }),
            60 => out.push(Instruction::IncrDp { amount: -1i64 }),
            43 => out.push(Instruction::Incr { amount: 1, offset: 0 }),
            45 => out.push(Instruction::Incr { amount: -1i8, offset: 0 }),
            91 => out.push(Instruction::BranchIfZero { destination: 0 }),
            93 => out.push(Instruction::BranchIfNotZero { destination: 0 }),
            44 => out.push(Instruction::Read),
            46 => out.push(Instruction::Write),
            _ => (),
        }
        proof {
            assert(bytes@.take(i + 1).drop_last() =~= bytes@.take(i as int));
            assert(bytes@.take(i + 1).last() == bytes@[i as int]);
        }
        i += 1;
    }
    proof {
        assert(bytes@.take(n as int) =~= bytes@);
    }
    out
}

impl UnlinkedInstructions {
    /// Lower a slice of source bytes into abstract, unlinked instructions.
    pub fn from_text(bytes: &[u8]) -> (r: UnlinkedInstructions)
        ensures
            r@ == lower_spec(bytes@),
    {
        UnlinkedInstructions(lower(bytes))
    }

    /// Lower a slice of source bytes into abstract, unlinked instructions.
    pub fn transpile(bytes: &[u8]) -> (r: UnlinkedInstructions)
        ensures
            r@ == lower_spec(bytes@),
    {
        UnlinkedInstructions(lower(bytes))
    }
}

/// Lower a slice of source bytes into abstract, unlinked instructions.
pub fn transpile(bytes: &[u8]) -> (r: UnlinkedInstructions)
    ensures
        r@ == lower_spec(bytes@),
{
    UnlinkedInstructions(lower(bytes))
}

/// The bracket weight of a source byte: `[` opens, `]` closes.
pub open spec fn src_delta(b: u8) -> int {
    if b == 91 {
        1
    } else if b == 93 {
        -1
    } else {
        0
    }
}

/// Net bracket depth of the first `i` source bytes.
pub open spec fn src_depth(bytes: Seq<u8>, i: int) -> int
    decreases i,
{
    if i <= 0 {
        0
    } else {
        src_depth(bytes, i - 1) + src_delta(bytes[i - 1])
    }
}

/// The brackets of the source text are balanced: no prefix dips below depth
/// zero and the whole text returns to depth zero.
pub open spec fn src_balanced(bytes: Seq<u8>) -> bool {
    src_depth(bytes, bytes.len() as int) == 0 && (forall|m: int|
        0 <= m <= bytes.len() ==> src_depth(bytes, m) >= 0)
}

/// A sequence's depth at `m` reads only its first `m` elements.
proof fn lemma_depth_prefix(s1: Seq<Instruction>, s2: Seq<Instruction>, m: int)
    requires
        0 <= m <= s1.len(),
        m <= s2.len(),
        forall|k: int| 0 <= k < m ==> s1[k] == s2[k],
    ensures
        depth(s1, m) == depth(s2, m),
    decreases m,
{
    if m > 0 {
        lemma_depth_prefix(s1, s2, m - 1);
    }
}

/// Depth over a sequence with one element appended.
proof fn lemma_depth_snoc(s: Seq<Instruction>, x: Instruction)
    ensures
        depth(s.push(x), s.len() as int + 1) == depth(s, s.len() as int) + bracket_delta(x),
{
    assert(s.push(x)[s.len() as int] == x);
    lemma_depth_prefix(s, s.push(x), s.len() as int);
}

/// The full depth of the lowered prefix equals the source depth of the byte
/// prefix.
proof fn lemma_lower_depth(bytes: Seq<u8>, i: int)
    requires
        0 <= i <= bytes.len(),
    ensures
        depth(lower_spec(bytes.take(i)), lower_spec(bytes.take(i)).len() as int) == src_depth(
            bytes,
            i,
        ),
    decreases i,
{
    if i > 0 {
        lemma_lower_depth(bytes, i - 1);
        let pre = bytes.take(i - 1);
        let cur = bytes.take(i);
        assert(cur.drop_last() =~= pre);
        assert(cur.last() == bytes[i - 1]);
        match lower_byte(bytes[i - 1]) {
            Some(inst) => {
                assert(lower_spec(cur) == lower_spec(pre) + seq![inst]);
                assert(lower_spec(pre) + seq![inst] =~= lower_spec(pre).push(inst));
                lemma_depth_snoc(lower_spec(pre), inst);
                assert(bracket_delta(inst) == src_delta(bytes[i - 1]));
            },
            None => {
                assert(lower_spec(cur) == lower_spec(pre) + Seq::<Instruction>::empty());
                assert(lower_spec(pre) + Seq::<Instruction>::empty() =~= lower_spec(pre));
                assert(src_delta(bytes[i - 1]) == 0);
            },
        }
    }
}

/// Every prefix length of the lowered sequence is hit by some byte prefix.
proof fn lemma_lower_prefix_exists(bytes: Seq<u8>, m: int)
    requires
        0 <= m <= lower_spec(bytes).len(),
    ensures
        exists|i: int|
            0 <= i <= bytes.len() && #[trigger] lower_spec(bytes.take(i)).len() == m,
    decreases bytes.len(),
{
    if bytes.len() == 0 {
        assert(bytes.take(0) =~= bytes);
    } else {
        let pre = bytes.drop_last();
        if m <= lower_spec(pre).len() {
            lemma_lower_prefix_exists(pre, m);
            let i = choose|i: int|
                0 <= i <= pre.len() && #[trigger] lower_spec(pre.take(i)).len() == m;
            assert(pre.take(i) =~= bytes.take(i));
            assert(lower_spec(bytes.take(i)).len() == m);
        } else {
            assert(bytes.take(bytes.len() as int) =~= bytes);
            assert(lower_spec(bytes.take(bytes.len() as int)).len() == lower_spec(
                bytes,
            ).len());
            assert(m == lower_spec(bytes).len());
        }
    }
}

/// Lowering preserves bracket balance: the lowered IR links exactly when
/// the source text's brackets are balanced.
pub proof fn lemma_lower_balanced(bytes: Seq<u8>)
    ensures
        balanced(lower_spec(bytes)) <==> src_balanced(bytes),
{
    let low = lower_spec(bytes);
    assert(bytes.take(bytes.len() as int) =~= bytes);
    lemma_lower_depth(bytes, bytes.len() as int);
    if src_balanced(bytes) {
        assert forall|m: int| 0 <= m <= low.len() implies depth(low, m) >= 0 by {
            lemma_lower_prefix_exists(bytes, m);
            let i = choose|i: int|
                0 <= i <= bytes.len() && #[trigger] lower_spec(bytes.take(i)).len() == m;
            lemma_lower_depth(bytes, i);
            assert(forall|k: int|
                0 <= k < m ==> lower_spec(bytes.take(i))[k] == #[trigger] low[k]) by {
                lemma_lower_take_prefix(bytes, i);
            }
            lemma_depth_prefix(low, lower_spec(bytes.take(i)), m);
        }
    }
    if balanced(low) {
        assert forall|m: int| 0 <= m <= bytes.len() implies src_depth(bytes, m) >= 0 by {
            lemma_lower_depth(bytes, m);
            lemma_lower_take_prefix(bytes, m);
            let pm = lower_spec(bytes.take(m)).len();
            assert(pm <= low.len());
            lemma_depth_prefix(low, lower_spec(bytes.take(m)), pm as int);
            assert(depth(low, pm as int) >= 0);
        }
    }
}

/// The lowering of a byte prefix is a prefix of the whole lowering.
proof fn lemma_lower_take_prefix(bytes: Seq<u8>, i: int)
    requires
        0 <= i <= bytes.len(),
    ensures
        lower_spec(bytes.take(i)).len() <= lower_spec(bytes).len(),
        forall|k: int|
            0 <= k < lower_spec(bytes.take(i)).len() ==> #[trigger] lower_spec(bytes.take(i))[k]
                == lower_spec(bytes)[k],
    decreases bytes.len() - i,
{
    if i == bytes.len() {
        assert(bytes.take(i) =~= bytes);
    } else {
        lemma_lower_take_prefix(bytes, i + 1);
        let pre = bytes.take(i);
        let cur = bytes.take(i + 1);
        assert(cur.drop_last() =~= pre);
        assert(cur.last() == bytes[i]);
        match lower_byte(bytes[i]) {
            Some(inst) => {
                assert(lower_spec(cur) == lower_spec(pre) + seq![inst]);
                assert forall|k: int| 0 <= k < lower_spec(pre).len() implies #[trigger] lower_spec(
                    pre,
                )[k] == lower_spec(bytes)[k] by {
                    assert(lower_spec(pre)[k] == lower_spec(cur)[k]);
                }
            },
            None => {
                assert(lower_spec(cur) == lower_spec(pre) + Seq::<Instruction>::empty());
                assert(lower_spec(pre) + Seq::<Instruction>::empty() =~= lower_spec(pre));
            },
        }
    }
}

} // verus!

