use regexp_vm::{compile, Instruction, Vm};

fn found(pattern: &str, input: &str) -> bool {
    let mut vm = compile(pattern).unwrap();
    assert!(vm.is_well_formed());
    vm.matches(input)
}

#[test]
fn alternation_takes_either_branch() {
    assert!(found("a|b", "b"));
    assert!(found("a|b", "a"));
    assert!(!found("a|b", "c"));
}

#[test]
fn star_matches_repetitions() {
    assert!(found("a*", "aaa"));
}

#[test]
fn star_finds_nothing_in_empty_input() {
    assert!(!found("a*", ""));
}

#[test]
fn star_matches_the_empty_stretch_of_a_nonempty_input() {
    assert!(found("a*", "b"));
}

#[test]
fn plus_needs_one_occurrence() {
    assert!(!found("a+", ""));
    assert!(found("a+", "a"));
    assert!(found("a+", "aaaa"));
    assert!(!found("a+", "b"));
}

#[test]
fn nested_groups_repeat() {
    assert!(found("c(a+(bd)+)+", "cabdbd"));
    assert!(found("c(a+(bd)+)+", "xxcaabdabdbdyy"));
    assert!(!found("c(a+(bd)+)+", "cab"));
    assert!(!found("c(a+(bd)+)+", "cbd"));
}

#[test]
fn optional_matches_with_and_without() {
    assert!(found("ab?c", "ac"));
    assert!(found("ab?c", "abc"));
    assert!(!found("ab?c", "abbc"));
}

#[test]
fn literal_is_found_anywhere() {
    assert!(found("baa", "baa"));
    assert!(found("baa", "xxbaayy"));
    assert!(found("baa", "bbaa"));
    assert!(!found("baa", "ba"));
    assert!(!found("baa", "bab"));
    assert!(!found("baa", ""));
}

#[test]
fn literal_is_case_sensitive() {
    assert!(!found("abc", "ABC"));
    assert!(found("aBc", "xaBcx"));
}

#[test]
fn literal_beyond_ascii() {
    assert!(found("é+", "caféé"));
    assert!(!found("é", "cafe"));
    assert!(found("日本", "in 日本語"));
}

#[test]
fn dot_and_backslash_stand_for_themselves() {
    assert!(found("a.c", "a.c"));
    assert!(!found("a.c", "abc"));
    assert!(found("a\\c", "a\\c"));
    assert!(!found("a\\c", "ac"));
}

#[test]
fn empty_pattern_matches_every_nonempty_input() {
    assert!(found("", "x"));
    assert!(!found("", ""));
}

#[test]
fn empty_last_alternative() {
    assert!(found("a|", "b"));
    assert!(!found("a|", ""));
}

#[test]
fn optional_agrees_with_alternative_of_nothing() {
    for input in ["", "a", "b", "aa", "ba", "xyz", "ab"] {
        assert_eq!(found("a?", input), found("(a)|", input));
        assert_eq!(found("(ab)?", input), found("((ab))|", input));
    }
}

#[test]
fn matching_twice_gives_the_same_answer() {
    let mut vm = compile("a+b").unwrap();
    assert!(vm.matches("xaab"));
    assert!(vm.matches("xaab"));
    assert!(!vm.matches("xaa"));
    assert!(vm.matches("ab"));
}

#[test]
fn handwritten_program_runs() {
    let program = vec![
        Instruction::Char('x'),
        Instruction::Split(2, 4),
        Instruction::Char('y'),
        Instruction::Jmp(1),
        Instruction::Match,
    ];
    let mut vm = Vm::new(program.clone());
    assert_eq!(vm.program(), &program);
    assert!(vm.is_well_formed());
    assert!(vm.matches("xyyy"));
    assert!(vm.matches("ax"));
    assert!(!vm.matches("yyy"));
}

#[test]
fn programs_that_cannot_run_are_told_apart() {
    assert!(!Vm::new(vec![]).is_well_formed());
    assert!(!Vm::new(vec![Instruction::Jmp(5), Instruction::Match]).is_well_formed());
    assert!(!Vm::new(vec![Instruction::Split(0, 2), Instruction::Match]).is_well_formed());
    assert!(!Vm::new(vec![Instruction::Match, Instruction::Char('a')]).is_well_formed());
    assert!(!Vm::new(vec![Instruction::Jmp(0), Instruction::Match]).is_well_formed());
    assert!(!Vm::new(vec![
        Instruction::Split(1, 2),
        Instruction::Jmp(0),
        Instruction::Match
    ])
    .is_well_formed());
    assert!(Vm::new(vec![Instruction::Match]).is_well_formed());
    assert!(Vm::new(vec![
        Instruction::Jmp(2),
        Instruction::Match,
        Instruction::Split(1, 3),
        Instruction::Char('a'),
        Instruction::Jmp(1),
    ])
    .is_well_formed());
}

#[test]
fn repeated_nullable_group_cannot_run() {
    assert!(!compile("(a?)*").unwrap().is_well_formed());
    assert!(!compile("(a*)+").unwrap().is_well_formed());
    assert!(compile("(a?b)*").unwrap().is_well_formed());
    assert!(compile("(a|b)*").unwrap().is_well_formed());
}
