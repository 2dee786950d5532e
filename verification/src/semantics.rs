use crate::instruction::{addresses_valid, Instruction};
use vstd::prelude::*;

verus! {

/// `rank` numbers the addresses of `program` so that every jump and every
/// split leads to addresses of a smaller number only.
pub open spec fn descends(program: Seq<Instruction>, rank: Seq<nat>) -> bool {
    &&& rank.len() == program.len()
    &&& forall|i: int|
        0 <= i < program.len() ==> match #[trigger] program[i] {
            Instruction::Jmp(a) => rank[a as int] < rank[i],
            Instruction::Split(a, b) => rank[a as int] < rank[i] && rank[b as int] < rank[i],
            _ => true,
        }
}

/// No thread can follow jumps and splits for ever without reaching a `Char`
/// or a `Match`: the jumps and splits of `program` form no cycle.
pub open spec fn halts(program: Seq<Instruction>) -> bool {
    exists|rank: Seq<nat>| descends(program, rank)
}

/// What the machine asks of a program: valid addresses, and no cycle of jumps
/// and splits.
pub open spec fn runnable(program: Seq<Instruction>) -> bool {
    addresses_valid(program) && halts(program)
}

/// A thread at `from` comes to rest at `to`, a `Char` or a `Match`, by
/// following at most `fuel` jumps and splits and consuming no input.
pub open spec fn settles_within(program: Seq<Instruction>, from: int, to: int, fuel: nat) -> bool
    decreases fuel,
{
    0 <= from < program.len() && match program[from] {
        Instruction::Jmp(a) => fuel > 0 && settles_within(
            program,
            a as int,
            to,
            (fuel - 1) as nat,
        ),
        Instruction::Split(a, b) => fuel > 0 && (settles_within(
            program,
            a as int,
            to,
            (fuel - 1) as nat,
        ) || settles_within(program, b as int, to, (fuel - 1) as nat)),
        _ => to == from,
    }
}

/// A thread at `from` comes to rest at `to` without consuming input: `to` is
/// in the epsilon closure of `from`.
pub open spec fn settles(program: Seq<Instruction>, from: int, to: int) -> bool {
    exists|fuel: nat| settles_within(program, from, to, fuel)
}

/// A thread resting at `from` consumes `c` and comes to rest at `to`.
pub open spec fn advances(program: Seq<Instruction>, from: int, c: char, to: int) -> bool {
    0 <= from < program.len() && program[from] == Instruction::Char(c) && settles(
        program,
        from + 1,
        to,
    )
}

/// A thread rests at `at` after the machine, started afresh before
/// `input[start]`, has consumed `input[start..pos]`.
pub open spec fn alive(
    program: Seq<Instruction>,
    input: Seq<char>,
    start: int,
    pos: int,
    at: int,
) -> bool
    decreases pos - start,
{
    if pos <= start {
        settles(program, 0, at)
    } else {
        exists|prev: int|
            alive(program, input, start, pos - 1, prev) && #[trigger] advances(
                program,
                prev,
                input[pos - 1],
                at,
            )
    }
}

/// The machine, started afresh before `input[start]`, has a thread on a
/// `Match` once it has consumed `input[start..end]`.
pub open spec fn accepts(program: Seq<Instruction>, input: Seq<char>, start: int, end: int) -> bool {
    exists|at: int| #[trigger]
        alive(program, input, start, end, at) && program[at] == Instruction::Match
}

/// Some stretch of `input` that starts at one of its characters is accepted.
/// The stretch may be empty, but it starts where a character stands, so
/// nothing is found in an empty input.
pub open spec fn matches_somewhere(program: Seq<Instruction>, input: Seq<char>) -> bool {
    exists|start: int, end: int|
        0 <= start < input.len() && start <= end <= input.len() && #[trigger] accepts(
            program,
            input,
            start,
            end,
        )
}

/// More fuel never hurts.
pub proof fn lemma_settles_within_more(
    program: Seq<Instruction>,
    from: int,
    to: int,
    fuel: nat,
    more: nat,
)
    requires
        settles_within(program, from, to, fuel),
        fuel <= more,
    ensures
        settles_within(program, from, to, more),
    decreases fuel,
{
    match program[from] {
        Instruction::Jmp(a) => {
            lemma_settles_within_more(program, a as int, to, (fuel - 1) as nat, (more - 1) as nat);
        },
        Instruction::Split(a, b) => {
            if settles_within(program, a as int, to, (fuel - 1) as nat) {
                lemma_settles_within_more(
                    program,
                    a as int,
                    to,
                    (fuel - 1) as nat,
                    (more - 1) as nat,
                );
            } else {
                lemma_settles_within_more(
                    program,
                    b as int,
                    to,
                    (fuel - 1) as nat,
                    (more - 1) as nat,
                );
            }
        },
        _ => {},
    }
}

/// Where a thread settles, seen one instruction at a time.
pub proof fn lemma_settles_step(program: Seq<Instruction>, from: int, to: int)
    ensures
        settles(program, from, to) <==> 0 <= from < program.len() && match program[from] {
            Instruction::Jmp(a) => settles(program, a as int, to),
            Instruction::Split(a, b) => settles(program, a as int, to) || settles(
                program,
                b as int,
                to,
            ),
            _ => to == from,
        },
{
    if settles(program, from, to) {
        let fuel = choose|fuel: nat| settles_within(program, from, to, fuel);
        match program[from] {
            Instruction::Jmp(a) => {
                assert(settles_within(program, a as int, to, (fuel - 1) as nat));
            },
            Instruction::Split(a, b) => {
                assert(settles_within(program, a as int, to, (fuel - 1) as nat) || settles_within(
                    program,
                    b as int,
                    to,
                    (fuel - 1) as nat,
                ));
            },
            _ => {},
        }
    }
    if 0 <= from < program.len() {
        match program[from] {
            Instruction::Jmp(a) => {
                if settles(program, a as int, to) {
                    let fuel = choose|fuel: nat| settles_within(program, a as int, to, fuel);
                    assert(settles_within(program, from, to, fuel + 1));
                }
            },
            Instruction::Split(a, b) => {
                if settles(program, a as int, to) {
                    let fuel = choose|fuel: nat| settles_within(program, a as int, to, fuel);
                    assert(settles_within(program, from, to, fuel + 1));
                }
                if settles(program, b as int, to) {
                    let fuel = choose|fuel: nat| settles_within(program, b as int, to, fuel);
                    assert(settles_within(program, from, to, fuel + 1));
                }
            },
            _ => {
                if to == from {
                    assert(settles_within(program, from, to, 0));
                }
            },
        }
    }
}

/// A thread settles on a `Char` or a `Match` of the program.
pub proof fn lemma_settles_within_rests(program: Seq<Instruction>, from: int, to: int, fuel: nat)
    requires
        settles_within(program, from, to, fuel),
    ensures
        0 <= to < program.len(),
        program[to].is_resting(),
    decreases fuel,
{
    match program[from] {
        Instruction::Jmp(a) => {
            lemma_settles_within_rests(program, a as int, to, (fuel - 1) as nat);
        },
        Instruction::Split(a, b) => {
            if settles_within(program, a as int, to, (fuel - 1) as nat) {
                lemma_settles_within_rests(program, a as int, to, (fuel - 1) as nat);
            } else {
                lemma_settles_within_rests(program, b as int, to, (fuel - 1) as nat);
            }
        },
        _ => {},
    }
}

/// A thread settles on a `Char` or a `Match` of the program.
pub proof fn lemma_settles_rests(program: Seq<Instruction>, from: int, to: int)
    requires
        settles(program, from, to),
    ensures
        0 <= to < program.len(),
        program[to].is_resting(),
{
    let fuel = choose|fuel: nat| settles_within(program, from, to, fuel);
    lemma_settles_within_rests(program, from, to, fuel);
}

/// A live thread rests on a `Char` or a `Match` of the program.
pub proof fn lemma_alive_rests(
    program: Seq<Instruction>,
    input: Seq<char>,
    start: int,
    pos: int,
    at: int,
)
    requires
        alive(program, input, start, pos, at),
    ensures
        0 <= at < program.len(),
        program[at].is_resting(),
{
    if pos <= start {
        lemma_settles_rests(program, 0, at);
    } else {
        let prev = choose|prev: int|
            alive(program, input, start, pos - 1, prev) && #[trigger] advances(
                program,
                prev,
                input[pos - 1],
                at,
            );
        lemma_settles_rests(program, prev + 1, at);
    }
}

/// Once no thread is left, none comes back.
pub proof fn lemma_dead_stays_dead(
    program: Seq<Instruction>,
    input: Seq<char>,
    start: int,
    pos: int,
    later: int,
    at: int,
)
    requires
        start <= pos <= later,
        forall|x: int| !alive(program, input, start, pos, x),
    ensures
        !alive(program, input, start, later, at),
    decreases later - pos,
{
    if later > pos {
        if alive(program, input, start, later, at) {
            let prev = choose|prev: int|
                alive(program, input, start, later - 1, prev) && #[trigger] advances(
                    program,
                    prev,
                    input[later - 1],
                    at,
                );
            lemma_dead_stays_dead(program, input, start, pos, later - 1, prev);
        }
    }
}

} // verus!
