use crate::compiler::result_view;
use crate::equivalence::{
    alternative_program, lemma_halts_alike, lemma_optional_is_alternative, optional_program,
    wraps,
};
use crate::grammar::{
    atom, char_at, compiled, fits, fragment, group, is_operator, lemma_group, lemma_group_local,
    lemma_program_from, same_stretch, Parse,
};
use crate::instruction::{is_fragment, Instruction};
use crate::linker::{alternated, lemma_linked_after_nothing, linked, literal, optional};
use crate::semantics::{
    accepts, advances, alive, descends, lemma_settles_step, matches_somewhere, runnable, settles,
};
use crate::vm::Vm;
use vstd::prelude::*;

verus! {

/// The pattern holds no character with a meaning of its own: none of
/// `? * + ( ) |`.
pub open spec fn is_literal(pattern: Seq<char>) -> bool {
    forall|i: int| 0 <= i < pattern.len() ==> !is_operator(#[trigger] pattern[i]) && pattern[i] != '('
}

/// `pattern` stands in `input` from index `at` on.
pub open spec fn occurs_at(pattern: Seq<char>, input: Seq<char>, at: int) -> bool {
    0 <= at && at + pattern.len() <= input.len() && input.subrange(at, at + pattern.len())
        == pattern
}

/// `pattern` occurs in `input` as a contiguous stretch.
pub open spec fn occurs_in(pattern: Seq<char>, input: Seq<char>) -> bool {
    exists|at: int| occurs_at(pattern, input, at)
}

/// The program of a pattern of literals: one `Char` for each of the first
/// `count` characters.
pub open spec fn chars_code(pattern: Seq<char>, count: int) -> Seq<Instruction> {
    Seq::new(count as nat, |i: int| Instruction::Char(char_at(pattern, i)))
}

/// The first `count` characters of `pattern` stand in `input` from `start`
/// on.
pub open spec fn agrees_from(pattern: Seq<char>, input: Seq<char>, start: int, count: int) -> bool {
    forall|j: int| 0 <= j < count ==> #[trigger] input[start + j] == pattern[j]
}

/// Compiling is a function of the pattern: whatever two compilations of one
/// pattern return, they hold the same instructions, or the same message.
pub proof fn law_compiling_twice_agrees(
    pattern: Seq<char>,
    first: Result<Vm, String>,
    second: Result<Vm, String>,
)
    requires
        result_view(first) == compiled(pattern),
        result_view(second) == compiled(pattern),
    ensures
        result_view(first) == result_view(second),
        first matches Ok(vm) ==> second is Ok && second->Ok_0@ == vm@,
        first matches Err(message) ==> second is Err && second->Err_0@ == message@,
{
}

/// A pattern of literals compiles to one `Char` for each character.
proof fn lemma_literal_fragment(pattern: Seq<char>, pos: int)
    requires
        is_literal(pattern),
        0 <= pos <= pattern.len(),
    ensures
        fragment(pattern, pos, None, Seq::empty(), chars_code(pattern, pos)) == (Parse::Code {
            code: chars_code(pattern, pattern.len() as int),
            next: pattern.len() as int,
            closed: false,
        }),
    decreases pattern.len() - pos,
{
    let term = chars_code(pattern, pos);
    if pos == pattern.len() {
        assert(linked(term, Seq::empty()) =~= term);
    } else {
        let c = char_at(pattern, pos);
        assert(!is_operator(pattern[pos]) && pattern[pos] != '(');
        if pos + 1 < pattern.len() {
            assert(!is_operator(pattern[pos + 1]) && pattern[pos + 1] != '(');
        }
        assert(atom(pattern, pos) == (Parse::Code { code: literal(c), next: pos + 1, closed: false }));
        assert(linked(term, literal(c)) =~= chars_code(pattern, pos + 1));
        if pos + 1 < pattern.len() {
            lemma_literal_fragment(pattern, pos + 1);
        }
    }
}

/// The program of a pattern of literals.
pub proof fn lemma_literal_compiled(pattern: Seq<char>)
    requires
        is_literal(pattern),
    ensures
        compiled(pattern) == Ok::<Seq<Instruction>, Seq<char>>(
            chars_code(pattern, pattern.len() as int).push(Instruction::Match),
        ),
{
    lemma_literal_fragment(pattern, 0);
    assert(chars_code(pattern, 0) =~= Seq::<Instruction>::empty());
}

/// The program of a pattern of literals can be run: it has no jump and no
/// split, and ends with `Match`.
pub proof fn lemma_literal_runnable(pattern: Seq<char>)
    ensures
        runnable(chars_code(pattern, pattern.len() as int).push(Instruction::Match)),
{
    let program = chars_code(pattern, pattern.len() as int).push(Instruction::Match);
    let rank = Seq::new(program.len(), |i: int| 0nat);
    assert(descends(program, rank));
}

/// In the program of a pattern of literals every thread rests where it is.
proof fn lemma_literal_settles(pattern: Seq<char>, from: int, to: int)
    ensures
        settles(chars_code(pattern, pattern.len() as int).push(Instruction::Match), from, to) <==> 0
            <= from <= pattern.len() && to == from,
{
    let program = chars_code(pattern, pattern.len() as int).push(Instruction::Match);
    lemma_settles_step(program, from, to);
}

/// In the program of a pattern of literals the one thread alive has read as
/// much of the pattern as of the input.
proof fn lemma_literal_alive(
    pattern: Seq<char>,
    input: Seq<char>,
    start: int,
    pos: int,
    at: int,
)
    requires
        0 <= start <= pos <= input.len(),
    ensures
        alive(
            chars_code(pattern, pattern.len() as int).push(Instruction::Match),
            input,
            start,
            pos,
            at,
        ) <==> at == pos - start && at <= pattern.len() && agrees_from(pattern, input, start, at),
    decreases pos - start,
{
    let program = chars_code(pattern, pattern.len() as int).push(Instruction::Match);
    if pos <= start {
        lemma_literal_settles(pattern, 0, at);
    } else {
        if alive(program, input, start, pos, at) {
            let prev = choose|prev: int|
                alive(program, input, start, pos - 1, prev) && #[trigger] advances(
                    program,
                    prev,
                    input[pos - 1],
                    at,
                );
            lemma_literal_alive(pattern, input, start, pos - 1, prev);
            lemma_literal_settles(pattern, prev + 1, at);
            assert(prev < pattern.len());
            assert(program[prev] == Instruction::Char(char_at(pattern, prev)));
            assert forall|j: int| 0 <= j < at implies #[trigger] input[start + j] == pattern[j] by {
                if j == prev {
                    assert(input[pos - 1] == pattern[prev]);
                }
            }
        }
        if at == pos - start && at <= pattern.len() && agrees_from(pattern, input, start, at) {
            let prev = at - 1;
            lemma_literal_alive(pattern, input, start, pos - 1, prev);
            lemma_literal_settles(pattern, prev + 1, at);
            assert(input[start + prev] == pattern[prev]);
            assert(program[prev] == Instruction::Char(char_at(pattern, prev)));
            assert(advances(program, prev, input[pos - 1], at));
        }
    }
}

/// In the program of a pattern of literals a stretch of the input is
/// accepted where it is the pattern.
proof fn lemma_literal_accepts(pattern: Seq<char>, input: Seq<char>, start: int, end: int)
    requires
        0 <= start <= end <= input.len(),
    ensures
        accepts(
            chars_code(pattern, pattern.len() as int).push(Instruction::Match),
            input,
            start,
            end,
        ) <==> end == start + pattern.len() && occurs_at(pattern, input, start),
{
    let program = chars_code(pattern, pattern.len() as int).push(Instruction::Match);
    let n = pattern.len() as int;
    if accepts(program, input, start, end) {
        let at = choose|at: int| #[trigger]
            alive(program, input, start, end, at) && program[at] == Instruction::Match;
        lemma_literal_alive(pattern, input, start, end, at);
        assert(at == n);
        assert(input.subrange(start, start + n) =~= pattern) by {
            assert forall|j: int| 0 <= j < n implies input.subrange(start, start + n)[j]
                == pattern[j] by {
                assert(input[start + j] == pattern[j]);
            }
        }
    }
    if end == start + n && occurs_at(pattern, input, start) {
        lemma_literal_alive(pattern, input, start, end, n);
        assert forall|j: int| 0 <= j < n implies #[trigger] input[start + j] == pattern[j] by {
            assert(input.subrange(start, start + n)[j] == pattern[j]);
        }
        assert(alive(program, input, start, end, n));
        assert(program[n] == Instruction::Match);
    }
}

/// A pattern with no metacharacter matches an input if and only if the
/// pattern occurs in the input as a contiguous stretch, character for
/// character. The one exception is left out: nothing is ever found in an
/// empty input, not even the empty pattern.
pub proof fn law_literal_pattern_finds_substring(pattern: Seq<char>, input: Seq<char>)
    requires
        is_literal(pattern),
        pattern.len() > 0 || input.len() > 0,
    ensures
        compiled(pattern) is Ok,
        runnable(compiled(pattern)->Ok_0),
        matches_somewhere(compiled(pattern)->Ok_0, input) <==> occurs_in(pattern, input),
{
    lemma_literal_compiled(pattern);
    lemma_literal_runnable(pattern);
    let program = chars_code(pattern, pattern.len() as int).push(Instruction::Match);
    let n = pattern.len() as int;
    if matches_somewhere(program, input) {
        let (start, end) = choose|start: int, end: int|
            0 <= start < input.len() && start <= end <= input.len() && #[trigger] accepts(
                program,
                input,
                start,
                end,
            );
        lemma_literal_accepts(pattern, input, start, end);
        assert(occurs_at(pattern, input, start));
    }
    if occurs_in(pattern, input) {
        let at = choose|at: int| occurs_at(pattern, input, at);
        if at < input.len() {
            lemma_literal_accepts(pattern, input, at, at + n);
            assert(accepts(program, input, at, at + n));
        } else {
            assert(n == 0);
            assert(input.subrange(0, 0) =~= pattern);
            assert(occurs_at(pattern, input, 0));
            lemma_literal_accepts(pattern, input, 0, 0);
            assert(accepts(program, input, 0, 0));
        }
    }
}

/// The search is not anchored: a pattern with no metacharacter matches every
/// input that holds it, whatever stands before and after. Nothing being
/// found in an empty input, the input is not empty.
pub proof fn law_literal_pattern_found_anywhere(
    pattern: Seq<char>,
    before: Seq<char>,
    after: Seq<char>,
)
    requires
        is_literal(pattern),
        (before + pattern + after).len() > 0,
    ensures
        compiled(pattern) is Ok,
        runnable(compiled(pattern)->Ok_0),
        matches_somewhere(compiled(pattern)->Ok_0, before + pattern + after),
{
    let input = before + pattern + after;
    let at = before.len() as int;
    assert(input.subrange(at, at + pattern.len()) =~= pattern);
    assert(occurs_at(pattern, input, at));
    law_literal_pattern_finds_substring(pattern, input);
}

/// Nothing is found in an empty input, whatever the program: the search
/// tries the offsets at which a character stands, and there is none.
pub proof fn law_empty_input_never_matches(program: Seq<Instruction>)
    ensures
        !matches_somewhere(program, Seq::empty()),
{
}

/// `text` is one primitive and nothing more: a single literal character, or
/// a group from its opening bracket to the closing bracket that answers it.
pub open spec fn is_primitive(text: Seq<char>) -> bool {
    text.len() >= 1 && if text[0] == '(' {
        group(text, 1) matches Parse::Code { next, .. } && next == text.len()
    } else {
        text.len() == 1 && !is_operator(text[0])
    }
}

/// The bytecode of the primitive `text`.
pub open spec fn primitive_code(text: Seq<char>) -> Seq<Instruction> {
    if text[0] == '(' {
        group(text, 1)->code
    } else {
        literal(char_at(text, 0))
    }
}

/// The primitive with a question mark after it.
pub open spec fn with_question_mark(text: Seq<char>) -> Seq<char> {
    text.push('?')
}

/// The primitive in a group of its own, as the first of two alternatives of
/// which the second is empty.
pub open spec fn or_nothing(text: Seq<char>) -> Seq<char> {
    seq!['('] + text + seq![')', '|']
}

/// The bytecode of a primitive is a fragment that is not empty.
proof fn lemma_primitive_code(text: Seq<char>)
    requires
        is_primitive(text),
        fits(or_nothing(text)),
    ensures
        wraps(primitive_code(text)),
{
    if text[0] == '(' {
        lemma_group(text, 1);
    } else {
        assert(is_fragment(literal(char_at(text, 0))));
    }
}

/// A primitive with a question mark compiles to its bytecode behind a split.
proof fn lemma_question_mark_compiled(text: Seq<char>)
    requires
        is_primitive(text),
        fits(or_nothing(text)),
    ensures
        compiled(with_question_mark(text)) == Ok::<Seq<Instruction>, Seq<char>>(
            optional_program(primitive_code(text)),
        ),
{
    let code = primitive_code(text);
    let n = text.len() as int;
    let pattern = with_question_mark(text);
    assert(pattern[0] == text[0]);
    assert(char_at(pattern, 0) == char_at(text, 0));
    assert(char_at(pattern, n) == '?');
    if text[0] == '(' {
        assert(same_stretch(text, 1, n, pattern, 1));
        lemma_group_local(text, 1, n, pattern, 1);
        assert(group(pattern, 1) == (Parse::Code { code, next: n, closed: false }));
    }
    assert(atom(pattern, 0) == (Parse::Code { code: optional(code), next: n + 1, closed: false }));
    lemma_linked_after_nothing(optional(code));
    assert(fragment(pattern, 0, None, Seq::empty(), Seq::empty()) == (Parse::Code {
        code: optional(code),
        next: n + 1,
        closed: false,
    }));
}

/// A primitive in a group, followed by a bar, compiles to the alternation of
/// its bytecode with nothing.
proof fn lemma_or_nothing_compiled(text: Seq<char>)
    requires
        is_primitive(text),
        fits(or_nothing(text)),
    ensures
        compiled(or_nothing(text)) == Ok::<Seq<Instruction>, Seq<char>>(
            alternative_program(primitive_code(text)),
        ),
{
    let code = primitive_code(text);
    let n = text.len() as int;
    let pattern = or_nothing(text);
    let nothing = Seq::<Instruction>::empty();
    lemma_primitive_code(text);
    assert(pattern.len() == n + 3);
    assert(char_at(pattern, 0) == '(');
    assert(pattern[1] == text[0]);
    assert(char_at(pattern, 1) == char_at(text, 0));
    assert(char_at(pattern, n + 1) == ')');
    assert(char_at(pattern, n + 2) == '|');
    if text[0] == '(' {
        assert(same_stretch(text, 1, n, pattern, 2)) by {
            assert forall|i: int| 1 <= i < n implies #[trigger] text[i] == pattern[i - 1 + 2] by {}
        }
        lemma_group_local(text, 1, n, pattern, 2);
        assert(group(pattern, 2) == (Parse::Code { code, next: n + 1, closed: false }));
    }
    assert(atom(pattern, 1) == (Parse::Code { code, next: n + 1, closed: false }));
    lemma_linked_after_nothing(code);
    assert(fragment(pattern, 1, Some(')'), nothing, nothing) == (Parse::Code {
        code,
        next: n + 2,
        closed: true,
    }));
    assert(group(pattern, 1) == (Parse::Code { code, next: n + 2, closed: false }));
    assert(atom(pattern, 0) == (Parse::Code { code, next: n + 2, closed: false }));
    assert(atom(pattern, n + 3) == (Parse::Code { code: nothing, next: n + 3, closed: false }));
    lemma_linked_after_nothing(nothing);
    assert(fragment(pattern, n + 3, None, code, nothing) == (Parse::Code {
        code: alternated(code, nothing),
        next: n + 3,
        closed: false,
    }));
    assert(fragment(pattern, 0, None, nothing, nothing) == (Parse::Code {
        code: alternated(code, nothing),
        next: n + 3,
        closed: false,
    }));
}

/// A question mark after a primitive says what an alternation of the
/// primitive with nothing says: for every primitive `P`, the programs of
/// `P?` and of `(P)|` both exist, can be run or cannot together, and match
/// the same inputs, so each accepts what the other accepts and rejects what
/// the other rejects.
pub proof fn law_question_mark_is_alternative_with_nothing(text: Seq<char>, input: Seq<char>)
    requires
        is_primitive(text),
        fits(or_nothing(text)),
    ensures
        compiled(with_question_mark(text)) is Ok,
        compiled(or_nothing(text)) is Ok,
        runnable(compiled(with_question_mark(text))->Ok_0) == runnable(
            compiled(or_nothing(text))->Ok_0,
        ),
        matches_somewhere(compiled(with_question_mark(text))->Ok_0, input) == matches_somewhere(
            compiled(or_nothing(text))->Ok_0,
            input,
        ),
{
    lemma_primitive_code(text);
    lemma_halts_alike(primitive_code(text));
    assert(fits(with_question_mark(text)));
    lemma_program_from(with_question_mark(text), 0);
    lemma_program_from(or_nothing(text), 0);
    lemma_question_mark_compiled(text);
    lemma_or_nothing_compiled(text);
    lemma_optional_is_alternative(primitive_code(text), input);
}

} // verus!
