use regexp_vm::compiler::Compiler;
use regexp_vm::text::{chars_of, push_decimal, unexpected_char_message, unexpected_end_message, width_of};
use regexp_vm::Instruction::{Char, Jmp, Match, Split};
use regexp_vm::{compile, Instruction};

fn program(pattern: &str) -> Vec<Instruction> {
    compile(pattern).unwrap().program().clone()
}

fn error(pattern: &str) -> String {
    match compile(pattern) {
        Ok(_) => panic!("{} compiled", pattern),
        Err(message) => message,
    }
}

#[test]
fn empty_pattern_is_a_lone_match() {
    assert_eq!(program(""), vec![Match]);
}

#[test]
fn literals_compile_to_chars() {
    assert_eq!(program("a"), vec![Char('a'), Match]);
    assert_eq!(program("baa"), vec![Char('b'), Char('a'), Char('a'), Match]);
    assert_eq!(program(".\\"), vec![Char('.'), Char('\\'), Match]);
}

#[test]
fn question_mark_prefixes_a_split() {
    assert_eq!(program("a?"), vec![Split(1, 2), Char('a'), Match]);
}

#[test]
fn star_wraps_in_split_and_jump() {
    assert_eq!(program("a*"), vec![Split(1, 3), Char('a'), Jmp(0), Match]);
    assert_eq!(
        program("baa*"),
        vec![Char('b'), Char('a'), Split(3, 5), Char('a'), Jmp(2), Match]
    );
}

#[test]
fn plus_appends_a_split() {
    assert_eq!(program("a+"), vec![Char('a'), Split(0, 2), Match]);
    assert_eq!(program("ba+"), vec![Char('b'), Char('a'), Split(1, 3), Match]);
}

#[test]
fn alternation_uses_split_and_jump() {
    assert_eq!(
        program("a|b"),
        vec![Split(1, 3), Char('a'), Jmp(4), Char('b'), Match]
    );
    assert_eq!(
        program("a|b|c"),
        vec![
            Split(1, 6),
            Split(2, 4),
            Char('a'),
            Jmp(5),
            Char('b'),
            Jmp(7),
            Char('c'),
            Match
        ]
    );
    assert_eq!(program("a|"), vec![Split(1, 3), Char('a'), Jmp(3), Match]);
}

#[test]
fn groups_take_quantifiers() {
    assert_eq!(program("(ab)"), vec![Char('a'), Char('b'), Match]);
    assert_eq!(
        program("(ab)*"),
        vec![Split(1, 4), Char('a'), Char('b'), Jmp(0), Match]
    );
    assert_eq!(
        program("c(a+(bd)+)+"),
        vec![
            Char('c'),
            Char('a'),
            Split(1, 3),
            Char('b'),
            Char('d'),
            Split(3, 6),
            Split(1, 7),
            Match
        ]
    );
    assert_eq!(
        program("x(a|b)?"),
        vec![
            Char('x'),
            Split(2, 6),
            Split(3, 5),
            Char('a'),
            Jmp(6),
            Char('b'),
            Match
        ]
    );
}

#[test]
fn unterminated_group_is_refused() {
    assert_eq!(error("("), "Unexpected end of stream.");
    assert_eq!(error("(ab"), "Unexpected end of stream.");
    assert_eq!(error("a(b(c)"), "Unexpected end of stream.");
    assert_eq!(error("(a|"), "Unexpected end of stream.");
}

#[test]
fn operator_without_primitive_is_refused() {
    assert_eq!(error("*a"), "Unexpected char '*' at 0.");
    assert_eq!(error("?"), "Unexpected char '?' at 0.");
    assert_eq!(error("+"), "Unexpected char '+' at 0.");
    assert_eq!(error("|a"), "Unexpected char '|' at 0.");
    assert_eq!(error("a)"), "Unexpected char ')' at 1.");
    assert_eq!(error("a**"), "Unexpected char '*' at 2.");
    assert_eq!(error("a||b"), "Unexpected char '|' at 2.");
    assert_eq!(error("()"), "Unexpected char ')' at 1.");
    assert_eq!(error("(a|)"), "Unexpected char ')' at 3.");
}

#[test]
fn error_offsets_count_bytes() {
    assert_eq!(error("é*+"), "Unexpected char '+' at 3.");
    assert_eq!(error("日本|*"), "Unexpected char '*' at 7.");
    assert_eq!(error("aaaaaaaaaa+*"), "Unexpected char '*' at 11.");
    let long = "ab".repeat(60) + ")";
    assert_eq!(error(&long), "Unexpected char ')' at 120.");
}

#[test]
fn compiling_twice_gives_the_same_program() {
    for pattern in ["", "a", "a|b", "c(a+(bd)+)+", "a?b+c*|d*|e+"] {
        assert_eq!(program(pattern), program(pattern));
    }
    assert_eq!(error("(a"), error("(a"));
    assert_eq!(error("a)"), error("a)"));
}

#[test]
fn compiler_can_be_driven_by_hand() {
    let mut compiler = Compiler::new("a+b");
    assert_eq!(
        compiler.compile(),
        Ok(vec![Char('a'), Split(0, 2), Char('b'), Match])
    );
    assert_eq!(compiler.compile(), Ok(vec![Match]));
    let mut compiler = Compiler::new("a(");
    assert_eq!(
        compiler.compile(),
        Err(String::from("Unexpected end of stream."))
    );
}

#[test]
fn link_moves_the_second_program() {
    let first = vec![Char('a'), Jmp(0), Split(0, 1)];
    let second = vec![Split(0, 2), Char('b'), Jmp(1), Match];
    assert_eq!(
        Compiler::link(first, second),
        vec![
            Char('a'),
            Jmp(0),
            Split(0, 1),
            Split(3, 5),
            Char('b'),
            Jmp(4),
            Match
        ]
    );
    assert_eq!(Compiler::link(vec![], vec![Jmp(1)]), vec![Jmp(1)]);
    assert_eq!(Compiler::link(vec![Jmp(1)], vec![]), vec![Jmp(1)]);
}

#[test]
fn link_or_builds_the_alternation() {
    let first = vec![Char('a'), Split(0, 2)];
    let second = vec![Split(1, 2), Char('b')];
    assert_eq!(
        Compiler::link_or(first, second),
        vec![
            Split(1, 4),
            Char('a'),
            Split(1, 3),
            Jmp(6),
            Split(5, 6),
            Char('b')
        ]
    );
    assert_eq!(Compiler::link_or(vec![], vec![]), vec![Split(1, 2), Jmp(2)]);
}

#[test]
fn chars_are_read_in_order() {
    assert_eq!(chars_of(""), Vec::<char>::new());
    assert_eq!(chars_of("aé日"), vec!['a', 'é', '日']);
}

#[test]
fn widths_follow_utf8() {
    assert_eq!(width_of('a'), 1);
    assert_eq!(width_of('\u{7f}'), 1);
    assert_eq!(width_of('\u{80}'), 2);
    assert_eq!(width_of('é'), 2);
    assert_eq!(width_of('\u{7ff}'), 2);
    assert_eq!(width_of('\u{800}'), 3);
    assert_eq!(width_of('日'), 3);
    assert_eq!(width_of('\u{ffff}'), 3);
    assert_eq!(width_of('\u{10000}'), 4);
    assert_eq!(width_of('😀'), 4);
    for c in ['a', 'é', '日', '😀'] {
        assert_eq!(width_of(c), c.len_utf8());
    }
}

#[test]
fn decimals_are_written_out() {
    for (n, text) in [(0usize, "0"), (7, "7"), (10, "10"), (99, "99"), (120, "120"), (4096, "4096")] {
        let mut s = String::from("n=");
        push_decimal(&mut s, n);
        assert_eq!(s, format!("n={}", text));
    }
    let mut s = String::new();
    push_decimal(&mut s, usize::MAX);
    assert_eq!(s, format!("{}", usize::MAX));
}

#[test]
fn messages_are_spelled_out() {
    assert_eq!(unexpected_char_message('+', 42), "Unexpected char '+' at 42.");
    assert_eq!(unexpected_end_message(), "Unexpected end of stream.");
}
