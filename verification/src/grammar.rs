use crate::instruction::{is_fragment, Instruction};
use crate::linker::{
    alternated, lemma_alternated_fragment, lemma_linked_fragment, lemma_quantified_fragment,
    linked, literal, optional, repeated, repeated_once,
};
use crate::text::{byte_offset, unexpected_char_text, unexpected_end_text};
use vstd::prelude::*;

verus! {

/// What parsing a stretch of a pattern comes to.
pub enum Parse {
    /// The bytecode for the stretch, addressed from zero; the index of the
    /// first character after the stretch; and whether the stretch ended with
    /// the closing delimiter that was asked for.
    Code { code: Seq<Instruction>, next: int, closed: bool },
    /// An operator, or a closing bracket, stands at index `at`, where a
    /// primitive was expected.
    Unexpected { at: int },
    /// The pattern ended inside a group.
    Unterminated,
}

/// The character at index `pos` of the pattern.
pub open spec fn char_at(pattern: Seq<char>, pos: int) -> char {
    pattern[pos]
}

/// The characters that cannot start a primitive.
pub open spec fn is_operator(c: char) -> bool {
    c == '?' || c == '*' || c == '+' || c == ')' || c == '|'
}

/// `code`, the bytecode of a primitive that ended before index `next`, with
/// the quantifier that stands at `next` applied to it, if one does.
pub open spec fn quantified(pattern: Seq<char>, code: Seq<Instruction>, next: int) -> Parse {
    if 0 <= next < pattern.len() && char_at(pattern, next) == '?' {
        Parse::Code { code: optional(code), next: next + 1, closed: false }
    } else if 0 <= next < pattern.len() && char_at(pattern, next) == '*' {
        Parse::Code { code: repeated(code), next: next + 1, closed: false }
    } else if 0 <= next < pattern.len() && char_at(pattern, next) == '+' {
        Parse::Code { code: repeated_once(code), next: next + 1, closed: false }
    } else {
        Parse::Code { code, next, closed: false }
    }
}

/// One atom at `pos`: a literal character or a group, with the quantifier
/// that follows it. At the end of the pattern the atom is empty.
pub open spec fn atom(pattern: Seq<char>, pos: int) -> Parse
    decreases pattern.len() - pos, 1int,
{
    if pos < 0 || pos >= pattern.len() {
        Parse::Code { code: Seq::empty(), next: pos, closed: false }
    } else if is_operator(char_at(pattern, pos)) {
        Parse::Unexpected { at: pos }
    } else if char_at(pattern, pos) == '(' {
        match group(pattern, pos + 1) {
            Parse::Code { code, next, .. } => quantified(pattern, code, next),
            failure => failure,
        }
    } else {
        quantified(pattern, literal(char_at(pattern, pos)), pos + 1)
    }
}

/// The inside of a group, from just after its opening bracket at `pos - 1`
/// up to and including its closing bracket.
pub open spec fn group(pattern: Seq<char>, pos: int) -> Parse
    decreases pattern.len() - pos, 3int,
{
    match fragment(pattern, pos, Some(')'), Seq::empty(), Seq::empty()) {
        Parse::Code { code, next, closed } => if closed {
            Parse::Code { code, next, closed: false }
        } else {
            Parse::Unterminated
        },
        failure => failure,
    }
}

/// The alternatives gathered so far, closed with the term in progress as the
/// last of them.
pub open spec fn finished(alts: Seq<Instruction>, term: Seq<Instruction>) -> Seq<Instruction> {
    if alts.len() == 0 {
        term
    } else {
        alternated(alts, term)
    }
}

/// The rest of a fragment from `pos` on: atoms are linked into `term`, the
/// term in progress; at each `|` the term joins `alts`, the alternatives
/// gathered so far, and a new term begins. The fragment ends with the
/// delimiter, which is consumed, or with the pattern: an atom that reaches
/// the end of the pattern, or consumes nothing because it stands there, is
/// the last.
pub open spec fn fragment(
    pattern: Seq<char>,
    pos: int,
    delimiter: Option<char>,
    alts: Seq<Instruction>,
    term: Seq<Instruction>,
) -> Parse
    decreases pattern.len() - pos, 2int,
{
    match atom(pattern, pos) {
        Parse::Code { code, next, .. } => {
            let term = linked(term, code);
            if pos < next < pattern.len() {
                if char_at(pattern, next) == '|' {
                    fragment(pattern, next + 1, delimiter, finished(alts, term), Seq::empty())
                } else if delimiter == Some(char_at(pattern, next)) {
                    Parse::Code { code: finished(alts, term), next: next + 1, closed: true }
                } else {
                    fragment(pattern, next, delimiter, alts, term)
                }
            } else {
                Parse::Code { code: finished(alts, term), next, closed: false }
            }
        },
        failure => failure,
    }
}

/// The pattern from `pos` to its end as one fragment, with the final `Match`.
pub open spec fn program_from(pattern: Seq<char>, pos: int) -> Parse {
    match fragment(pattern, pos, None, Seq::empty(), Seq::empty()) {
        Parse::Code { code, next, closed } => Parse::Code {
            code: code.push(Instruction::Match),
            next,
            closed,
        },
        failure => failure,
    }
}

/// The message for a parse that failed.
pub open spec fn failure_text(pattern: Seq<char>, parse: Parse) -> Seq<char> {
    match parse {
        Parse::Unexpected { at } => unexpected_char_text(char_at(pattern, at), byte_offset(pattern, at)),
        _ => unexpected_end_text(),
    }
}

/// Where in the pattern a parse stops: after the stretch it parsed, after the
/// character it refused, or at the end of a pattern that ended too early.
pub open spec fn stopped_at(pattern: Seq<char>, parse: Parse) -> int {
    match parse {
        Parse::Code { next, .. } => next,
        Parse::Unexpected { at } => at + 1,
        Parse::Unterminated => pattern.len() as int,
    }
}

/// What compiling `pattern` gives: its program, or the message that says
/// why it has none.
pub open spec fn compiled(pattern: Seq<char>) -> Result<Seq<Instruction>, Seq<char>> {
    match program_from(pattern, 0) {
        Parse::Code { code, .. } => Ok(code),
        failure => Err(failure_text(pattern, failure)),
    }
}

/// The pattern is short enough for every address of its program and every
/// byte offset into it to fit in `usize`.
pub open spec fn fits(pattern: Seq<char>) -> bool {
    4 * pattern.len() <= usize::MAX
}

/// The terms and alternatives gathered at `pos` of a fragment that began at
/// `base` are fragments, and short enough: two instructions for each
/// character consumed pay for them and for the alternation still to be built.
pub open spec fn gathered(alts: Seq<Instruction>, term: Seq<Instruction>, base: int, pos: int) -> bool {
    &&& is_fragment(alts)
    &&& is_fragment(term)
    &&& alts.len() + term.len() + (if alts.len() > 0 {
        2int
    } else {
        0int
    }) <= 2 * (pos - base)
}

/// The bytecode of an atom is a fragment of at most two instructions for
/// each character consumed, and of at least one instruction unless the
/// pattern has ended.
pub proof fn lemma_atom(pattern: Seq<char>, pos: int)
    requires
        fits(pattern),
        0 <= pos <= pattern.len(),
    ensures
        atom(pattern, pos) matches Parse::Code { code, next, .. } ==> {
            &&& pos <= next <= pattern.len()
            &&& is_fragment(code)
            &&& code.len() <= 2 * (next - pos)
            &&& pos < pattern.len() ==> pos < next && code.len() >= 1
        },
    decreases pattern.len() - pos, 1int,
{
    if pos < pattern.len() && !is_operator(char_at(pattern, pos)) {
        if char_at(pattern, pos) == '(' {
            lemma_group(pattern, pos + 1);
            if let Parse::Code { code, next, .. } = group(pattern, pos + 1) {
                lemma_quantified_fragment(code);
            }
        } else {
            let code = literal(char_at(pattern, pos));
            assert(is_fragment(code));
            lemma_quantified_fragment(code);
        }
    }
}

/// The bytecode of a group is a fragment of at least one instruction and at
/// most two for each character between the brackets, the closing one
/// included.
pub proof fn lemma_group(pattern: Seq<char>, pos: int)
    requires
        fits(pattern),
        0 <= pos <= pattern.len(),
    ensures
        group(pattern, pos) matches Parse::Code { code, next, .. } ==> {
            &&& pos < next <= pattern.len()
            &&& is_fragment(code)
            &&& 1 <= code.len() <= 2 * (next - pos)
        },
    decreases pattern.len() - pos, 3int,
{
    lemma_fragment(pattern, pos, Some(')'), Seq::empty(), Seq::empty(), pos);
}

/// The bytecode of a fragment is a fragment of at most two instructions for
/// each character consumed since `base`; one that ended with its delimiter
/// is not empty.
pub proof fn lemma_fragment(
    pattern: Seq<char>,
    pos: int,
    delimiter: Option<char>,
    alts: Seq<Instruction>,
    term: Seq<Instruction>,
    base: int,
)
    requires
        fits(pattern),
        0 <= base <= pos <= pattern.len(),
        gathered(alts, term, base, pos),
    ensures
        fragment(pattern, pos, delimiter, alts, term) matches Parse::Code { code, next, closed }
            ==> {
            &&& pos <= next <= pattern.len()
            &&& is_fragment(code)
            &&& code.len() <= 2 * (next - base)
            &&& closed ==> pos < next && code.len() >= 1
        },
    decreases pattern.len() - pos, 2int,
{
    lemma_atom(pattern, pos);
    if let Parse::Code { code, next, .. } = atom(pattern, pos) {
        lemma_linked_fragment(term, code);
        let term2 = linked(term, code);
        if alts.len() > 0 {
            lemma_alternated_fragment(alts, term2);
        }
        if pos < next < pattern.len() {
            if char_at(pattern, next) == '|' {
                assert(gathered(finished(alts, term2), Seq::empty(), base, next + 1));
                lemma_fragment(
                    pattern,
                    next + 1,
                    delimiter,
                    finished(alts, term2),
                    Seq::empty(),
                    base,
                );
            } else if delimiter == Some(char_at(pattern, next)) {
            } else {
                lemma_fragment(pattern, next, delimiter, alts, term2, base);
            }
        }
    }
}

/// A compiled program is never empty, names valid addresses only, and is
/// one instruction longer than its fragment.
pub proof fn lemma_program_from(pattern: Seq<char>, pos: int)
    requires
        fits(pattern),
        0 <= pos <= pattern.len(),
    ensures
        program_from(pattern, pos) matches Parse::Code { code, next, closed } ==> {
            &&& next == pattern.len()
            &&& !closed
            &&& crate::instruction::addresses_valid(code)
            &&& code.len() <= 2 * (pattern.len() - pos) + 1
        },
{
    lemma_fragment(pattern, pos, None, Seq::empty(), Seq::empty(), pos);
    lemma_top_level_ends(pattern, pos, Seq::empty(), Seq::empty());
    if let Parse::Code { code, next, closed } = fragment(
        pattern,
        pos,
        None,
        Seq::empty(),
        Seq::empty(),
    ) {
        let program = code.push(Instruction::Match);
        assert forall|i: int| 0 <= i < program.len() implies match #[trigger] program[i] {
            Instruction::Char(_) => i + 1 < program.len(),
            Instruction::Jmp(a) => a < program.len(),
            Instruction::Split(a, b) => a < program.len() && b < program.len(),
            Instruction::Match => true,
        } by {
            if i < code.len() {
                assert(code[i].targets_within(code.len() as int));
            }
        }
    }
}

/// A fragment without a delimiter ends only where the pattern ends.
pub proof fn lemma_top_level_ends(
    pattern: Seq<char>,
    pos: int,
    alts: Seq<Instruction>,
    term: Seq<Instruction>,
)
    requires
        0 <= pos <= pattern.len(),
    ensures
        fragment(pattern, pos, None, alts, term) matches Parse::Code { next, closed, .. } ==> next
            >= pattern.len() && !closed,
    decreases pattern.len() - pos,
{
    if let Parse::Code { code, next, .. } = atom(pattern, pos) {
        let term2 = linked(term, code);
        if pos < next < pattern.len() {
            if char_at(pattern, next) == '|' {
                lemma_top_level_ends(pattern, next + 1, finished(alts, term2), Seq::empty());
            } else {
                lemma_top_level_ends(pattern, next, alts, term2);
            }
        } else {
            if next < pattern.len() {
                assert(next <= pos);
                if pos < pattern.len() {
                    assert(false) by {
                        lemma_atom_advances(pattern, pos);
                    }
                }
            }
        }
    }
}

/// An atom that is not at the end of the pattern consumes a character.
pub proof fn lemma_atom_advances(pattern: Seq<char>, pos: int)
    requires
        0 <= pos < pattern.len(),
    ensures
        atom(pattern, pos) matches Parse::Code { next, .. } ==> pos < next,
    decreases pattern.len() - pos,
{
    if !is_operator(char_at(pattern, pos)) && char_at(pattern, pos) == '(' {
        lemma_fragment_advances(pattern, pos + 1, Some(')'), Seq::empty(), Seq::empty());
    }
}

/// A fragment never moves backwards.
pub proof fn lemma_fragment_advances(
    pattern: Seq<char>,
    pos: int,
    delimiter: Option<char>,
    alts: Seq<Instruction>,
    term: Seq<Instruction>,
)
    requires
        0 <= pos <= pattern.len(),
    ensures
        fragment(pattern, pos, delimiter, alts, term) matches Parse::Code { next, .. } ==> pos
            <= next,
    decreases pattern.len() - pos,
{
    if let Parse::Code { code, next, .. } = atom(pattern, pos) {
        let term2 = linked(term, code);
        if pos < next < pattern.len() {
            if char_at(pattern, next) == '|' {
                lemma_fragment_advances(
                    pattern,
                    next + 1,
                    delimiter,
                    finished(alts, term2),
                    Seq::empty(),
                );
            } else if delimiter == Some(char_at(pattern, next)) {
            } else {
                lemma_fragment_advances(pattern, next, delimiter, alts, term2);
            }
        } else if pos < pattern.len() {
            if !is_operator(char_at(pattern, pos)) && char_at(pattern, pos) == '(' {
                lemma_fragment_advances(pattern, pos + 1, Some(')'), Seq::empty(), Seq::empty());
            }
        }
    }
}

/// A fragment that ended with its delimiter consumed at least that.
pub proof fn lemma_closed_advances(
    pattern: Seq<char>,
    pos: int,
    delimiter: Option<char>,
    alts: Seq<Instruction>,
    term: Seq<Instruction>,
)
    requires
        0 <= pos <= pattern.len(),
    ensures
        fragment(pattern, pos, delimiter, alts, term) matches Parse::Code { next, closed, .. }
            ==> closed ==> pos < next,
{
    if let Parse::Code { code, next, .. } = atom(pattern, pos) {
        let term2 = linked(term, code);
        if pos < next < pattern.len() {
            if char_at(pattern, next) == '|' {
                lemma_fragment_advances(
                    pattern,
                    next + 1,
                    delimiter,
                    finished(alts, term2),
                    Seq::empty(),
                );
            } else if delimiter == Some(char_at(pattern, next)) {
            } else {
                lemma_fragment_advances(pattern, next, delimiter, alts, term2);
            }
        }
    }
}

/// `other` holds from `there` on what `pattern` holds from `here` up to
/// `limit`.
pub open spec fn same_stretch(
    pattern: Seq<char>,
    here: int,
    limit: int,
    other: Seq<char>,
    there: int,
) -> bool {
    &&& 0 <= here <= limit <= pattern.len()
    &&& 0 <= there
    &&& there + (limit - here) <= other.len()
    &&& forall|i: int| here <= i < limit ==> #[trigger] pattern[i] == other[i - here + there]
}

/// An atom that is followed by a character reads the same wherever it and
/// that character stand.
pub proof fn lemma_atom_local(
    pattern: Seq<char>,
    pos: int,
    limit: int,
    other: Seq<char>,
    there: int,
)
    requires
        same_stretch(pattern, pos, limit, other, there),
        atom(pattern, pos) matches Parse::Code { next, .. } && next < limit,
    ensures
        atom(other, there) == (Parse::Code {
            code: atom(pattern, pos)->code,
            next: atom(pattern, pos)->next - pos + there,
            closed: false,
        }),
    decreases pattern.len() - pos, 1int,
{
    lemma_atom_advances(pattern, pos);
    assert(pattern[pos] == other[there]);
    assert(char_at(pattern, pos) == char_at(other, there));
    if char_at(pattern, pos) == '(' {
        lemma_group_local(pattern, pos + 1, limit, other, there + 1);
        let inner = group(pattern, pos + 1)->next;
        assert(pattern[inner] == other[inner - pos + there]);
        assert(char_at(pattern, inner) == char_at(other, inner - pos + there));
    } else {
        assert(pattern[pos + 1] == other[pos + 1 - pos + there]);
        assert(char_at(pattern, pos + 1) == char_at(other, there + 1));
    }
}

/// A group reads the same wherever it stands.
pub proof fn lemma_group_local(
    pattern: Seq<char>,
    pos: int,
    limit: int,
    other: Seq<char>,
    there: int,
)
    requires
        same_stretch(pattern, pos, limit, other, there),
        group(pattern, pos) matches Parse::Code { next, .. } && next <= limit,
    ensures
        group(other, there) == (Parse::Code {
            code: group(pattern, pos)->code,
            next: group(pattern, pos)->next - pos + there,
            closed: false,
        }),
    decreases pattern.len() - pos, 3int,
{
    lemma_fragment_local(pattern, pos, limit, other, there, Some(')'), Seq::empty(), Seq::empty());
}

/// A fragment that ends with its delimiter reads the same wherever it
/// stands.
pub proof fn lemma_fragment_local(
    pattern: Seq<char>,
    pos: int,
    limit: int,
    other: Seq<char>,
    there: int,
    delimiter: Option<char>,
    alts: Seq<Instruction>,
    term: Seq<Instruction>,
)
    requires
        same_stretch(pattern, pos, limit, other, there),
        fragment(pattern, pos, delimiter, alts, term) matches Parse::Code { next, closed, .. }
            && closed && next <= limit,
    ensures
        fragment(other, there, delimiter, alts, term) == (Parse::Code {
            code: fragment(pattern, pos, delimiter, alts, term)->code,
            next: fragment(pattern, pos, delimiter, alts, term)->next - pos + there,
            closed: true,
        }),
    decreases pattern.len() - pos, 2int,
{
    let whole = fragment(pattern, pos, delimiter, alts, term);
    let first = atom(pattern, pos);
    let code = first->code;
    let next = first->next;
    let term2 = linked(term, code);
    assert(first is Code);
    assert(pos < next < pattern.len());
    let moved = next - pos + there;
    if char_at(pattern, next) == '|' {
        lemma_fragment_advances(pattern, next + 1, delimiter, finished(alts, term2), Seq::empty());
        lemma_atom_local(pattern, pos, limit, other, there);
        assert(pattern[next] == other[next - pos + there]);
        assert(char_at(other, moved) == '|');
        lemma_fragment_local(
            pattern,
            next + 1,
            limit,
            other,
            moved + 1,
            delimiter,
            finished(alts, term2),
            Seq::empty(),
        );
        assert(atom(other, there) == (Parse::Code { code, next: moved, closed: false }));
    } else if delimiter == Some(char_at(pattern, next)) {
        lemma_atom_local(pattern, pos, limit, other, there);
        assert(pattern[next] == other[next - pos + there]);
        assert(char_at(other, moved) == char_at(pattern, next));
        assert(atom(other, there) == (Parse::Code { code, next: moved, closed: false }));
    } else {
        lemma_closed_advances(pattern, next, delimiter, alts, term2);
        lemma_atom_local(pattern, pos, limit, other, there);
        assert(pattern[next] == other[next - pos + there]);
        assert(char_at(other, moved) == char_at(pattern, next));
        lemma_fragment_local(pattern, next, limit, other, moved, delimiter, alts, term2);
        assert(atom(other, there) == (Parse::Code { code, next: moved, closed: false }));
    }
}

} // verus!
