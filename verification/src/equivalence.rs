use crate::instruction::{is_fragment, Instruction};
use crate::linker::{alternated, optional};
use crate::semantics::{
    accepts, advances, alive, descends, halts, lemma_alive_rests, lemma_settles_step,
    matches_somewhere, settles, settles_within,
};
use vstd::prelude::*;

verus! {

/// The program that runs `code` once or not at all, built with a split.
pub open spec fn optional_program(code: Seq<Instruction>) -> Seq<Instruction> {
    optional(code).push(Instruction::Match)
}

/// The program that runs `code` or nothing, built as an alternation.
pub open spec fn alternative_program(code: Seq<Instruction>) -> Seq<Instruction> {
    alternated(code, Seq::empty()).push(Instruction::Match)
}

/// The address in the alternation that stands for `at` in the split program:
/// the same, but for the final `Match`, which stands one further.
pub open spec fn in_alternative(code: Seq<Instruction>, at: int) -> int {
    if at == code.len() + 1 {
        at + 1
    } else {
        at
    }
}

/// The address in the split program that stands for `at` in the alternation.
pub open spec fn in_optional(code: Seq<Instruction>, at: int) -> int {
    if at == code.len() + 2 {
        at - 1
    } else {
        at
    }
}

/// `code` can be wrapped either way without an address leaving `usize`.
pub open spec fn wraps(code: Seq<Instruction>) -> bool {
    is_fragment(code) && code.len() >= 1 && code.len() + 3 <= usize::MAX
}

/// Both programs hold `code` at addresses one to its length, with jumps and
/// splits that stay there or go to the address just after; they differ in
/// what stands around it.
proof fn lemma_shapes(code: Seq<Instruction>)
    requires
        wraps(code),
    ensures
        optional_program(code).len() == code.len() + 2,
        alternative_program(code).len() == code.len() + 3,
        optional_program(code)[0] == Instruction::Split(1, (code.len() + 1) as usize),
        alternative_program(code)[0] == Instruction::Split(1, (code.len() + 2) as usize),
        optional_program(code)[code.len() as int + 1] == Instruction::Match,
        alternative_program(code)[code.len() as int + 1] == Instruction::Jmp((code.len() + 2) as usize),
        alternative_program(code)[code.len() as int + 2] == Instruction::Match,
        forall|i: int|
            1 <= i <= code.len() ==> (#[trigger] optional_program(code)[i])
                == alternative_program(code)[i] && match optional_program(code)[i] {
                Instruction::Jmp(a) => 1 <= a <= code.len() + 1,
                Instruction::Split(a, b) => 1 <= a <= code.len() + 1 && 1 <= b <= code.len() + 1,
                _ => true,
            },
{
    let first = optional_program(code);
    let second = alternative_program(code);
    assert forall|i: int| 1 <= i <= code.len() implies (#[trigger] first[i]) == second[i]
        && match first[i] {
        Instruction::Jmp(a) => 1 <= a <= code.len() + 1,
        Instruction::Split(a, b) => 1 <= a <= code.len() + 1 && 1 <= b <= code.len() + 1,
        _ => true,
    } by {
        assert(code[i - 1].targets_within(code.len() as int));
        assert(first[i] == code[i - 1].relocated(1));
        assert(second[i] == code[i - 1].relocated(1));
    }
}

/// Where a thread of the split program settles, the same thread of the
/// alternation settles on the address that stands for it.
proof fn lemma_settles_in_alternative(code: Seq<Instruction>, from: int, to: int, fuel: nat)
    requires
        wraps(code),
        0 <= from <= code.len() + 1,
        settles_within(optional_program(code), from, to, fuel),
    ensures
        settles(alternative_program(code), from, in_alternative(code, to)),
    decreases fuel,
{
    let first = optional_program(code);
    let second = alternative_program(code);
    let n = code.len() as int;
    let goal = in_alternative(code, to);
    lemma_shapes(code);
    lemma_settles_step(second, from, goal);
    if from == 0 {
        if settles_within(first, 1, to, (fuel - 1) as nat) {
            lemma_settles_in_alternative(code, 1, to, (fuel - 1) as nat);
        } else {
            assert(settles_within(first, n + 1, to, (fuel - 1) as nat));
            assert(to == n + 1);
            lemma_settles_step(second, n + 2, goal);
        }
    } else if from == n + 1 {
        assert(to == n + 1);
        lemma_settles_step(second, n + 2, goal);
    } else {
        assert(first[from] == second[from]);
        match first[from] {
            Instruction::Jmp(a) => {
                lemma_settles_in_alternative(code, a as int, to, (fuel - 1) as nat);
            },
            Instruction::Split(a, b) => {
                if settles_within(first, a as int, to, (fuel - 1) as nat) {
                    lemma_settles_in_alternative(code, a as int, to, (fuel - 1) as nat);
                } else {
                    lemma_settles_in_alternative(code, b as int, to, (fuel - 1) as nat);
                }
            },
            _ => {},
        }
    }
}

/// Where a thread of the alternation settles, the same thread of the split
/// program settles on the address that stands for it.
proof fn lemma_settles_in_optional(code: Seq<Instruction>, from: int, to: int, fuel: nat)
    requires
        wraps(code),
        0 <= from <= code.len() + 1,
        settles_within(alternative_program(code), from, to, fuel),
    ensures
        settles(optional_program(code), from, in_optional(code, to)),
        to != code.len() + 1,
    decreases fuel,
{
    let first = optional_program(code);
    let second = alternative_program(code);
    let n = code.len() as int;
    let goal = in_optional(code, to);
    lemma_shapes(code);
    lemma_settles_step(first, from, goal);
    if from == 0 {
        if settles_within(second, 1, to, (fuel - 1) as nat) {
            lemma_settles_in_optional(code, 1, to, (fuel - 1) as nat);
        } else {
            assert(settles_within(second, n + 2, to, (fuel - 1) as nat));
            assert(to == n + 2);
            lemma_settles_step(first, n + 1, goal);
        }
    } else if from == n + 1 {
        assert(settles_within(second, n + 2, to, (fuel - 1) as nat));
        assert(to == n + 2);
    } else {
        assert(first[from] == second[from]);
        match second[from] {
            Instruction::Jmp(a) => {
                lemma_settles_in_optional(code, a as int, to, (fuel - 1) as nat);
            },
            Instruction::Split(a, b) => {
                if settles_within(second, a as int, to, (fuel - 1) as nat) {
                    lemma_settles_in_optional(code, a as int, to, (fuel - 1) as nat);
                } else {
                    lemma_settles_in_optional(code, b as int, to, (fuel - 1) as nat);
                }
            },
            _ => {},
        }
    }
}

/// A thread alive in the split program is alive in the alternation, on the
/// address that stands for it.
proof fn lemma_alive_in_alternative(
    code: Seq<Instruction>,
    input: Seq<char>,
    start: int,
    pos: int,
    at: int,
)
    requires
        wraps(code),
        alive(optional_program(code), input, start, pos, at),
    ensures
        alive(alternative_program(code), input, start, pos, in_alternative(code, at)),
    decreases pos - start,
{
    let first = optional_program(code);
    let second = alternative_program(code);
    let n = code.len() as int;
    lemma_shapes(code);
    if pos <= start {
        let fuel = choose|fuel: nat| settles_within(first, 0, at, fuel);
        lemma_settles_in_alternative(code, 0, at, fuel);
    } else {
        let prev = choose|prev: int|
            alive(first, input, start, pos - 1, prev) && #[trigger] advances(
                first,
                prev,
                input[pos - 1],
                at,
            );
        lemma_alive_in_alternative(code, input, start, pos - 1, prev);
        assert(1 <= prev <= n);
        assert(first[prev] == second[prev]);
        let after = prev + 1;
        assert(settles(first, after, at));
        let fuel = choose|fuel: nat| settles_within(first, after, at, fuel);
        lemma_settles_in_alternative(code, after, at, fuel);
        assert(advances(second, prev, input[pos - 1], in_alternative(code, at)));
    }
}

/// A thread alive in the alternation is alive in the split program, on the
/// address that stands for it.
proof fn lemma_alive_in_optional(
    code: Seq<Instruction>,
    input: Seq<char>,
    start: int,
    pos: int,
    at: int,
)
    requires
        wraps(code),
        alive(alternative_program(code), input, start, pos, at),
    ensures
        alive(optional_program(code), input, start, pos, in_optional(code, at)),
    decreases pos - start,
{
    let first = optional_program(code);
    let second = alternative_program(code);
    let n = code.len() as int;
    lemma_shapes(code);
    if pos <= start {
        let fuel = choose|fuel: nat| settles_within(second, 0, at, fuel);
        lemma_settles_in_optional(code, 0, at, fuel);
    } else {
        let prev = choose|prev: int|
            alive(second, input, start, pos - 1, prev) && #[trigger] advances(
                second,
                prev,
                input[pos - 1],
                at,
            );
        lemma_alive_in_optional(code, input, start, pos - 1, prev);
        assert(1 <= prev <= n);
        assert(first[prev] == second[prev]);
        let after = prev + 1;
        assert(settles(second, after, at));
        let fuel = choose|fuel: nat| settles_within(second, after, at, fuel);
        lemma_settles_in_optional(code, after, at, fuel);
        assert(advances(first, prev, input[pos - 1], in_optional(code, at)));
    }
}

/// The two programs accept the same stretches of every input.
pub proof fn lemma_accepts_alike(code: Seq<Instruction>, input: Seq<char>, start: int, end: int)
    requires
        wraps(code),
    ensures
        accepts(optional_program(code), input, start, end) == accepts(
            alternative_program(code),
            input,
            start,
            end,
        ),
{
    let first = optional_program(code);
    let second = alternative_program(code);
    let n = code.len() as int;
    lemma_shapes(code);
    if accepts(first, input, start, end) {
        let at = choose|at: int| #[trigger]
            alive(first, input, start, end, at) && first[at] == Instruction::Match;
        lemma_alive_rests(first, input, start, end, at);
        lemma_alive_in_alternative(code, input, start, end, at);
        if 1 <= at <= n {
            assert(first[at] == second[at]);
        }
        assert(second[in_alternative(code, at)] == Instruction::Match);
    }
    if accepts(second, input, start, end) {
        let at = choose|at: int| #[trigger]
            alive(second, input, start, end, at) && second[at] == Instruction::Match;
        lemma_alive_rests(second, input, start, end, at);
        lemma_alive_in_optional(code, input, start, end, at);
        if 1 <= at <= n {
            assert(first[at] == second[at]);
        }
        assert(first[in_optional(code, at)] == Instruction::Match);
    }
}

/// A fragment made optional with a split, and the alternation of the
/// fragment with nothing, match the same inputs.
pub proof fn lemma_optional_is_alternative(code: Seq<Instruction>, input: Seq<char>)
    requires
        wraps(code),
    ensures
        matches_somewhere(optional_program(code), input) == matches_somewhere(
            alternative_program(code),
            input,
        ),
{
    let first = optional_program(code);
    let second = alternative_program(code);
    if matches_somewhere(first, input) {
        let (start, end) = choose|start: int, end: int|
            0 <= start < input.len() && start <= end <= input.len() && #[trigger] accepts(
                first,
                input,
                start,
                end,
            );
        lemma_accepts_alike(code, input, start, end);
    }
    if matches_somewhere(second, input) {
        let (start, end) = choose|start: int, end: int|
            0 <= start < input.len() && start <= end <= input.len() && #[trigger] accepts(
                second,
                input,
                start,
                end,
            );
        lemma_accepts_alike(code, input, start, end);
    }
}

/// The jumps and splits of the one program form a cycle where those of the
/// other do: a numbering that descends in one gives one for the other.
pub proof fn lemma_halts_alike(code: Seq<Instruction>)
    requires
        wraps(code),
    ensures
        halts(optional_program(code)) == halts(alternative_program(code)),
{
    let first = optional_program(code);
    let second = alternative_program(code);
    let n = code.len() as int;
    lemma_shapes(code);
    if halts(first) {
        let rank = choose|rank: Seq<nat>| descends(first, rank);
        let other = Seq::new(
            (n + 3) as nat,
            |i: int|
                if i <= n {
                    rank[i] + 2
                } else if i == n + 1 {
                    1nat
                } else {
                    0nat
                },
        );
        assert forall|i: int| 0 <= i < second.len() implies match #[trigger] second[i] {
            Instruction::Jmp(a) => other[a as int] < other[i],
            Instruction::Split(a, b) => other[a as int] < other[i] && other[b as int] < other[i],
            _ => true,
        } by {
            if 1 <= i <= n {
                assert(first[i] == second[i]);
            } else if i == 0 {
                assert(first[0] is Split);
            }
        }
        assert(descends(second, other));
    }
    if halts(second) {
        let rank = choose|rank: Seq<nat>| descends(second, rank);
        let other = Seq::new(
            (n + 2) as nat,
            |i: int|
                if i <= n {
                    rank[i]
                } else {
                    0nat
                },
        );
        assert forall|i: int| 0 <= i < first.len() implies match #[trigger] first[i] {
            Instruction::Jmp(a) => other[a as int] < other[i],
            Instruction::Split(a, b) => other[a as int] < other[i] && other[b as int] < other[i],
            _ => true,
        } by {
            if 1 <= i <= n {
                assert(first[i] == second[i]);
                assert(second[i] is Jmp || second[i] is Split ==> rank[i] > 0);
            } else if i == 0 {
                assert(second[0] is Split);
                assert(second[1] == first[1]);
            }
        }
        assert(descends(first, other));
    }
}

} // verus!
