use vstd::prelude::*;

verus! {

/// One cell of the tape, stored signed; all cell arithmetic wraps at 8 bits.
pub type Cell = i8;

/// The instruction IR.
///
/// Lowering from source text only ever produces `IncrDp`, `Incr`,
/// `BranchIfZero`, `BranchIfNotZero`, `Read` and `Write`; `SetCell` and
/// `Mul` arise solely from the optimiser.
#[derive(Clone, Copy, Debug, PartialEq, Eq, Structural)]
pub enum Instruction {
    /// Add `amount` to the data pointer, modulo the tape size.
    IncrDp { amount: i64 },
    /// `tape[dp + offset] += amount`, wrapping at 8 bits.
    Incr { amount: Cell, offset: i64 },
    /// If `tape[dp] == 0`, jump to `destination`.
    BranchIfZero { destination: u64 },
    /// If `tape[dp] != 0`, jump to `destination`.
    BranchIfNotZero { destination: u64 },
    /// Read one byte of input into `tape[dp]`; fails at end of input.
    Read,
    /// Write `tape[dp]` to the output.
    Write,
    /// `tape[dp + offset] = amount`. IR-only.
    SetCell { amount: Cell, offset: i64 },
    /// `tape[dp + offset] += tape[dp] * amount`, wrapping. IR-only.
    Mul { amount: Cell, offset: i64 },
}

/// Instructions which have not had their jump targets linked yet.
#[derive(Debug)]
pub struct UnlinkedInstructions(pub Vec<Instruction>);

/// Instructions in which every branch holds the index of its partner.
#[derive(Debug)]
pub struct LinkedInstructions(pub Vec<Instruction>);

/// An element-by-element copy of an instruction vector.
pub fn copy_instructions(v: &Vec<Instruction>) -> (r: Vec<Instruction>)
    ensures
        r@ == v@,
{
    let mut out: Vec<Instruction> = Vec::new();
    let n = v.len();
    let mut i: usize = 0;
    while i < n
        invariant
            n == v.len(),
            0 <= i <= n,
            out@ == v@.take(i as int),
        decreases n - i,
    {
        out.push(v[i]);
        proof {
            assert(v@.take(i + 1) =~= v@.take(i as int).push(v@[i as int]));
        }
        i += 1;
    }
    proof {
        assert(v@.take(n as int) =~= v@);
    }
    out
}

impl Clone for UnlinkedInstructions {
    fn clone(&self) -> (r: Self)
        ensures
            r@ == self@,
    {
        UnlinkedInstructions(copy_instructions(&self.0))
    }
}

impl Clone for LinkedInstructions {
    fn clone(&self) -> (r: Self)
        ensures
            r@ == self@,
    {
        LinkedInstructions(copy_instructions(&self.0))
    }
}

impl View for UnlinkedInstructions {
    type V = Seq<Instruction>;

    open spec fn view(&self) -> Seq<Instruction> {
        self.0@
    }
}

impl View for LinkedInstructions {
    type V = Seq<Instruction>;

    open spec fn view(&self) -> Seq<Instruction> {
        self.0@
    }
}

impl PartialEq for LinkedInstructions {
    fn eq(&self, other: &LinkedInstructions) -> (r: bool) {
        if self.0.len() != other.0.len() {
            return false;
        }
        let n = self.0.len();
        let mut i: usize = 0;
        while i < n
            invariant
                n == self.0.len(),
                n == other.0.len(),
                0 <= i <= n,
                forall|k: int| 0 <= k < i ==> self.0@[k] == other.0@[k],
            decreases n - i,
        {
            if self.0[i] != other.0[i] {
                return false;
            }
            i += 1;
        }
        proof {
            assert(self.0@ =~= other.0@);
        }
        true
    }
}

impl vstd::std_specs::cmp::PartialEqSpecImpl for LinkedInstructions {
    open spec fn obeys_eq_spec() -> bool {
        true
    }

    open spec fn eq_spec(&self, other: &LinkedInstructions) -> bool {
        self.0@ == other.0@
    }
}

/// A range of source positions, inclusive at both ends.
#[derive(Clone, Copy, Debug, PartialEq, Eq, Structural)]
pub struct Position {
    pub start: usize,
    pub end: usize,
}

impl Position {
    pub fn new(start: usize, end: usize) -> (r: Position)
        ensures
            r.start == start,
            r.end == end,
    {
        Position { start, end }
    }

    pub fn start(&self) -> (r: usize)
        ensures
            r == self.start,
    {
        self.start
    }

    pub fn end(&self) -> (r: usize)
        ensures
            r == self.end,
    {
        self.end
    }
}

/// Merging of adjacent values of a kind, such as source positions.
pub trait Combine<T> {
    /// What `combine` returns.
    spec fn combine_spec(&self, other: T) -> T;

    fn combine(&self, other: T) -> (r: T)
        ensures
            r == self.combine_spec(other),
    ;
}

impl Combine<Option<Position>> for Option<Position> {
    open spec fn combine_spec(&self, other: Option<Position>) -> Option<Position> {
        match (*self, other) {
            (Some(pos1), Some(pos2)) => {
                let (first_pos, second_pos) = if pos1.start <= pos2.start {
                    (pos1, pos2)
                } else {
                    (pos2, pos1)
                };
                if first_pos.end + 1 >= second_pos.start {
                    Some(Position { start: first_pos.start, end: second_pos.end })
                } else {
                    Some(pos2)
                }
            },
            _ => None,
        }
    }

    fn combine(&self, other: Option<Position>) -> (r: Option<Position>) {
        match (*self, other) {
            (Some(pos1), Some(pos2)) => {
                let (first_pos, second_pos) = if pos1.start <= pos2.start {
                    (pos1, pos2)
                } else {
                    (pos2, pos1)
                };
                // If they're adjacent positions, we can merge them; otherwise
                // just use the second position.  `end + 1 >= start` is tested
                // without the addition so that it cannot overflow.
                if second_pos.start == 0 || first_pos.end >= second_pos.start - 1 {
                    Some(Position { start: first_pos.start, end: second_pos.end })
                } else {
                    Some(pos2)
                }
            },
            _ => None,
        }
    }
}

} // verus!
