use crate::grammar::{
    atom, char_at, compiled, failure_text, finished, fits, fragment, gathered, group, lemma_atom,
    lemma_group, lemma_program_from, program_from, stopped_at, Parse,
};
use crate::instruction::{addresses_valid, is_fragment, Instruction};
use crate::linker::{
    alternated, can_relocate, lemma_alternated_fragment, lemma_linked_fragment,
    lemma_quantified_fragment, linked, literal, optional, relocated, repeated, repeated_once,
};
use crate::text::{
    byte_offset, chars_of, lemma_byte_offset_bound, unexpected_char_message,
    unexpected_end_message, width_of,
};
use crate::vm::Vm;
use vstd::prelude::*;

verus! {

/// A recursive-descent compiler over one pattern. It reads the pattern from
/// left to right and emits bytecode as it goes.
pub struct Compiler {
    pattern: Vec<char>,
    pos: usize,
    offset: usize,
}

/// The outcome of a parsing step, as the compiler hands it on: the bytecode
/// and whether the delimiter was found, or the message of the failure.
pub open spec fn outcome(pattern: Seq<char>, parse: Parse) -> Result<(Seq<Instruction>, bool), Seq<char>> {
    match parse {
        Parse::Code { code, closed, .. } => Ok((code, closed)),
        failure => Err(failure_text(pattern, failure)),
    }
}

/// What a result with a delimiter flag holds, by its views.
pub open spec fn flagged_view(result: Result<(Vec<Instruction>, bool), String>) -> Result<
    (Seq<Instruction>, bool),
    Seq<char>,
> {
    match result {
        Ok(found) => Ok((found.0@, found.1)),
        Err(message) => Err(message@),
    }
}

/// What a result without a delimiter flag holds, by its views.
pub open spec fn plain_view(result: Result<Vec<Instruction>, String>) -> Result<
    (Seq<Instruction>, bool),
    Seq<char>,
> {
    match result {
        Ok(code) => Ok((code@, false)),
        Err(message) => Err(message@),
    }
}

impl Compiler {
    /// The pattern that is compiled.
    pub closed spec fn pattern(&self) -> Seq<char> {
        self.pattern@
    }

    /// The index of the next character to read.
    pub closed spec fn position(&self) -> int {
        self.pos as int
    }

    /// The cursor stands inside the pattern or at its end and knows its byte
    /// offset, and the pattern is short enough to compile.
    pub closed spec fn well_formed(&self) -> bool {
        &&& fits(self.pattern@)
        &&& self.pos <= self.pattern@.len()
        &&& self.offset == byte_offset(self.pattern@, self.pos as int)
    }

    /// A compiler at the start of `pattern`.
    pub fn new(pattern: &str) -> (compiler: Compiler)
        requires
            fits(pattern@),
        ensures
            compiler.well_formed(),
            compiler.pattern() == pattern@,
            compiler.position() == 0,
    {
        Compiler { pattern: chars_of(pattern), pos: 0, offset: 0 }
    }

    /// Compiles the rest of the pattern as one fragment that no delimiter
    /// closes, and appends the final `Match`.
    pub fn compile(&mut self) -> (result: Result<Vec<Instruction>, String>)
        requires
            old(self).well_formed(),
        ensures
            final(self).well_formed(),
            final(self).pattern() == old(self).pattern(),
            plain_view(result) == outcome(
                old(self).pattern(),
                program_from(old(self).pattern(), old(self).position()),
            ),
            final(self).position() == stopped_at(
                old(self).pattern(),
                program_from(old(self).pattern(), old(self).position()),
            ),
            result matches Ok(program) ==> addresses_valid(program@),
    {
        proof {
            lemma_program_from(self.pattern@, self.pos as int);
        }
        match self.compile_fragment(None) {
            Ok((p, _)) => {
                let mut pm = p;
                pm.push(Instruction::Match);
                Ok(pm)
            },
            Err(e) => Err(e),
        }
    }

    /// Concatenates two programs. `second` was assembled as a program of its own,
    /// addressed from zero, so its jumps and splits are moved up by the length
    /// of `first`; those of `first` stay as they are.
    pub fn link(first: Vec<Instruction>, second: Vec<Instruction>) -> (program: Vec<Instruction>)
        requires
            can_relocate(second@, first@.len() as int),
        ensures
            program@ == linked(first@, second@),
    {
        let len: usize = first.len();
        let mut first = first;
        let mut moved = second;
        let mut i: usize = 0;
        while i < moved.len()
            invariant
                len == first@.len(),
                i <= moved.len(),
                moved@.len() == second@.len(),
                can_relocate(second@, len as int),
                forall|j: int| 0 <= j < i ==> moved@[j] == second@[j].relocated(len as int),
                forall|j: int| i <= j < moved.len() ==> moved@[j] == second@[j],
            decreases moved.len() - i,
        {
            let ghost before = second@[i as int];
            assert(before.targets_within(usize::MAX - len));
            match moved[i] {
                Instruction::Split(a, b) => {
                    moved[i] = Instruction::Split(len + a, len + b);
                },
                Instruction::Jmp(a) => {
                    moved[i] = Instruction::Jmp(len + a);
                },
                _ => {},
            }
            i += 1;
        }
        assert(moved@ =~= relocated(second@, len as int));
        first.append(&mut moved);
        first
    }

    /// Builds the alternation of two programs: `Split(1, len(first) + 2)`,
    /// `first`, `Jmp(len(first) + len(second) + 2)` and `second`, in a row. The
    /// first branch of the split runs `first` and jumps past `second`; the other
    /// branch runs `second`.
    pub fn link_or(first: Vec<Instruction>, second: Vec<Instruction>) -> (program: Vec<Instruction>)
        requires
            first@.len() + second@.len() + 2 <= usize::MAX,
            can_relocate(first@, 1),
            can_relocate(second@, first@.len() + 2 as int),
        ensures
            program@ == alternated(first@, second@),
    {
        let len1: usize = first.len();
        let len2: usize = second.len();
        let mut head: Vec<Instruction> = Vec::new();
        head.push(Instruction::Split(1, len1 + 2));
        let mut program = Self::link(head, first);
        program.push(Instruction::Jmp(len1 + len2 + 2));
        let program = Self::link(program, second);
        assert(program@ =~= alternated(first@, second@));
        program
    }

    /// The next character, if any is left; the cursor stays.
    fn peek_char(&self) -> (next: Option<char>)
        requires
            self.well_formed(),
        ensures
            self.pos < self.pattern@.len() ==> next == Some(char_at(self.pattern@, self.pos as int)),
            self.pos >= self.pattern@.len() ==> next is None,
    {
        if self.pos < self.pattern.len() {
            Some(self.pattern[self.pos])
        } else {
            None
        }
    }

    /// The next character with its byte offset, if any is left; the cursor
    /// moves past it.
    fn next_char(&mut self) -> (next: Option<(usize, char)>)
        requires
            old(self).well_formed(),
        ensures
            final(self).well_formed(),
            final(self).pattern@ == old(self).pattern@,
            old(self).pos < old(self).pattern@.len() ==> next == Some(
                (old(self).offset, char_at(old(self).pattern@, old(self).pos as int)),
            ) && final(self).pos == old(self).pos + 1,
            old(self).pos >= old(self).pattern@.len() ==> next is None && final(self).pos == old(
                self,
            ).pos,
    {
        if self.pos < self.pattern.len() {
            let c: char = self.pattern[self.pos];
            let at: usize = self.offset;
            proof {
                lemma_byte_offset_bound(self.pattern@, self.pos + 1);
            }
            self.offset = self.offset + width_of(c);
            self.pos = self.pos + 1;
            Some((at, c))
        } else {
            None
        }
    }

    /// Compiles one fragment: atoms linked into terms, and terms joined into
    /// an alternation at each `|`. With a delimiter the fragment ends where
    /// the delimiter stands, which is consumed; the flag tells whether it was
    /// found before the pattern ended.
    fn compile_fragment(&mut self, delimiter: Option<char>) -> (result: Result<
        (Vec<Instruction>, bool),
        String,
    >)
        requires
            old(self).well_formed(),
        ensures
            final(self).well_formed(),
            final(self).pattern() == old(self).pattern(),
            flagged_view(result) == outcome(
                old(self).pattern(),
                fragment(
                    old(self).pattern(),
                    old(self).position(),
                    delimiter,
                    Seq::empty(),
                    Seq::empty(),
                ),
            ),
            final(self).position() == stopped_at(
                old(self).pattern(),
                fragment(
                    old(self).pattern(),
                    old(self).position(),
                    delimiter,
                    Seq::empty(),
                    Seq::empty(),
                ),
            ),
            result matches Ok(found) ==> !found.1 ==> final(self).position() == old(
                self,
            ).pattern().len(),
        decreases old(self).pattern().len() - old(self).position(), 2int,
    {
        let mut program: Vec<Instruction> = Vec::new();
        let mut alternatives: Vec<Instruction> = Vec::new();
        let mut found_delimiter = false;
        let ghost pattern = self.pattern@;
        let ghost base = self.pos as int;
        let ghost whole = fragment(pattern, base, delimiter, Seq::empty(), Seq::empty());
        loop
            invariant_except_break
                !found_delimiter,
                whole == fragment(pattern, self.pos as int, delimiter, alternatives@, program@),
            invariant
                self.well_formed(),
                self.pattern@ == pattern,
                pattern == old(self).pattern@,
                base == old(self).pos,
                base <= self.pos,
                gathered(alternatives@, program@, base, self.pos as int),
                whole == fragment(pattern, base, delimiter, Seq::empty(), Seq::empty()),
            ensures
                self.well_formed(),
                self.pattern@ == pattern,
                gathered(alternatives@, program@, base, self.pos as int),
                whole == (Parse::Code {
                    code: finished(alternatives@, program@),
                    next: self.pos as int,
                    closed: found_delimiter,
                }),
                !found_delimiter ==> self.pos == pattern.len(),
            decreases pattern.len() - self.pos,
        {
            let ghost here = self.pos as int;
            let ghost term = program@;
            proof {
                lemma_atom(pattern, here);
            }
            match self.compile_one() {
                Ok(p) => {
                    proof {
                        lemma_linked_fragment(term, p@);
                    }
                    program = Self::link(program, p);
                },
                Err(e) => {
                    return Err(e);
                },
            }
            proof {
                if alternatives@.len() > 0 {
                    lemma_alternated_fragment(alternatives@, program@);
                }
            }
            match self.peek_char() {
                Some(c) => {
                    if c == '|' && alternatives.is_empty() {
                        self.next_char();
                        alternatives = program;
                        program = Vec::new();
                    } else if c == '|' {
                        self.next_char();
                        alternatives = Self::link_or(alternatives, program);
                        program = Vec::new();
                    } else if Self::closes(delimiter, c) {
                        self.next_char();
                        found_delimiter = true;
                        break ;
                    }
                },
                None => {
                    break ;
                },
            }
        }
        if alternatives.is_empty() {
            Ok((program, found_delimiter))
        } else {
            proof {
                lemma_alternated_fragment(alternatives@, program@);
            }
            Ok((Self::link_or(alternatives, program), found_delimiter))
        }
    }

    /// Whether `c` is the delimiter that is waited for.
    fn closes(delimiter: Option<char>, c: char) -> (closes: bool)
        ensures
            closes == (delimiter == Some(c)),
    {
        match delimiter {
            Some(dc) => dc == c,
            None => false,
        }
    }

    /// Compiles one atom: a literal character or a group, with the
    /// quantifier that follows it. An operator or a closing bracket in its
    /// place is an error; at the end of the pattern the atom is empty.
    fn compile_one(&mut self) -> (result: Result<Vec<Instruction>, String>)
        requires
            old(self).well_formed(),
        ensures
            final(self).well_formed(),
            final(self).pattern() == old(self).pattern(),
            plain_view(result) == outcome(
                old(self).pattern(),
                atom(old(self).pattern(), old(self).position()),
            ),
            final(self).position() == stopped_at(
                old(self).pattern(),
                atom(old(self).pattern(), old(self).position()),
            ),
        decreases old(self).pattern().len() - old(self).position(), 1int,
    {
        let ghost pattern = self.pattern@;
        let ghost start = self.pos as int;
        let mut program: Vec<Instruction> = Vec::new();
        match self.next_char() {
            Some((i, c)) => {
                if c == '?' || c == '*' || c == '+' || c == ')' || c == '|' {
                    return Err(unexpected_char_message(c, i));
                } else if c == '(' {
                    proof {
                        lemma_group(pattern, start + 1);
                    }
                    match self.compile_group() {
                        Ok(p) => {
                            program = p;
                        },
                        Err(e) => {
                            return Err(e);
                        },
                    }
                } else {
                    program.push(Instruction::Char(c));
                    assert(program@ =~= literal(c));
                    assert(is_fragment(program@));
                }
            },
            None => {
                return Ok(program);
            },
        }
        let len: usize = program.len();
        let ghost code = program@;
        let ghost next = self.pos as int;
        proof {
            lemma_quantified_fragment(code);
        }
        match self.peek_char() {
            Some(ch) => {
                if ch == '?' {
                    let mut head: Vec<Instruction> = Vec::new();
                    head.push(Instruction::Split(1, len + 1));
                    program = Self::link(head, program);
                    assert(program@ =~= optional(code));
                    self.next_char();
                } else if ch == '*' {
                    let mut head: Vec<Instruction> = Vec::new();
                    head.push(Instruction::Split(1, len + 2));
                    program = Self::link(head, program);
                    program.push(Instruction::Jmp(0));
                    assert(program@ =~= repeated(code));
                    self.next_char();
                } else if ch == '+' {
                    program.push(Instruction::Split(0, len + 1));
                    assert(program@ =~= repeated_once(code));
                    self.next_char();
                }
            },
            None => {},
        }
        Ok(program)
    }

    /// Compiles a group, whose opening bracket has been read: a fragment up
    /// to the closing bracket. A pattern that ends before it is an error.
    fn compile_group(&mut self) -> (result: Result<Vec<Instruction>, String>)
        requires
            old(self).well_formed(),
        ensures
            final(self).well_formed(),
            final(self).pattern() == old(self).pattern(),
            plain_view(result) == outcome(
                old(self).pattern(),
                group(old(self).pattern(), old(self).position()),
            ),
            final(self).position() == stopped_at(
                old(self).pattern(),
                group(old(self).pattern(), old(self).position()),
            ),
        decreases old(self).pattern().len() - old(self).position(), 3int,
    {
        match self.compile_fragment(Some(')')) {
            Ok((p, found_delimiter)) => {
                if found_delimiter {
                    Ok(p)
                } else {
                    Err(unexpected_end_message())
                }
            },
            Err(e) => Err(e),
        }
    }
}

/// What a compilation holds, by its views: the program of the machine, or
/// the text of the message.
pub open spec fn result_view(result: Result<Vm, String>) -> Result<Seq<Instruction>, Seq<char>> {
    match result {
        Ok(vm) => Ok(vm@),
        Err(message) => Err(message@),
    }
}

/// Compiles `pattern` into a machine for its program, or says why the
/// pattern has no program. The result depends on the pattern alone. The
/// program names valid addresses only; whether its jumps and splits form a
/// cycle, as they do where a group that can match nothing is repeated,
/// `Vm::is_well_formed` tells.
pub fn compile(pattern: &str) -> (result: Result<Vm, String>)
    requires
        fits(pattern@),
    ensures
        result_view(result) == compiled(pattern@),
        result matches Ok(vm) ==> addresses_valid(vm@),
{
    let mut compiler = Compiler::new(pattern);
    match compiler.compile() {
        Ok(p) => Ok(Vm::new(p)),
        Err(e) => Err(e),
    }
}

} // verus!
