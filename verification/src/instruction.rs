use vstd::prelude::*;

verus! {

/// All the instructions that the virtual machine understands.
#[derive(Clone, Copy, Debug, PartialEq, Eq, Structural)]
pub enum Instruction {
    /// Match one character, and move on to the next instruction.
    Char(char),
    /// Unconditional jump.
    Jmp(usize),
    /// Successful match.
    Match,
    /// Split the current thread into two.
    Split(usize, usize),
}

impl Instruction {
    /// The instruction with every address that it names moved up by `by`.
    pub open spec fn relocated(self, by: int) -> Instruction {
        match self {
            Instruction::Jmp(a) => Instruction::Jmp((a + by) as usize),
            Instruction::Split(a, b) => Instruction::Split((a + by) as usize, (b + by) as usize),
            other => other,
        }
    }

    /// No address that the instruction names lies beyond `limit`.
    pub open spec fn targets_within(self, limit: int) -> bool {
        match self {
            Instruction::Jmp(a) => a <= limit,
            Instruction::Split(a, b) => a <= limit && b <= limit,
            _ => true,
        }
    }

    /// A thread rests on this instruction until input arrives or the run ends:
    /// it is a `Char` or a `Match`.
    pub open spec fn is_resting(self) -> bool {
        self is Char || self is Match
    }
}

/// A piece of bytecode that can be placed anywhere in a program: it is
/// addressed from zero, and its jumps and splits stay inside it or leave
/// through its end, the address just past its last instruction.
pub open spec fn is_fragment(code: Seq<Instruction>) -> bool {
    forall|i: int| 0 <= i < code.len() ==> (#[trigger] code[i]).targets_within(code.len() as int)
}

/// A program the machine can run without leaving it: it is not empty, every
/// address named by a jump or a split is an index of the program, and a
/// `Char` is never its last instruction.
pub open spec fn addresses_valid(program: Seq<Instruction>) -> bool {
    &&& program.len() > 0
    &&& forall|i: int|
        0 <= i < program.len() ==> match #[trigger] program[i] {
            Instruction::Char(_) => i + 1 < program.len(),
            Instruction::Jmp(a) => a < program.len(),
            Instruction::Split(a, b) => a < program.len() && b < program.len(),
            Instruction::Match => true,
        }
}

} // verus!
