use crate::instruction::{is_fragment, Instruction};
use vstd::prelude::*;

verus! {

/// `code` with every address in it moved up by `by`.
pub open spec fn relocated(code: Seq<Instruction>, by: int) -> Seq<Instruction> {
    Seq::new(code.len(), |i: int| code[i].relocated(by))
}

/// Moving `code` up by `by` keeps every address in it within `usize`.
pub open spec fn can_relocate(code: Seq<Instruction>, by: int) -> bool {
    forall|i: int| 0 <= i < code.len() ==> (#[trigger] code[i]).targets_within(usize::MAX - by)
}

/// The program for one literal character.
pub open spec fn literal(c: char) -> Seq<Instruction> {
    seq![Instruction::Char(c)]
}

/// `first` followed by `second`, the latter moved to where it now stands.
pub open spec fn linked(first: Seq<Instruction>, second: Seq<Instruction>) -> Seq<Instruction> {
    first + relocated(second, first.len() as int)
}

/// The alternation of `first` and `second`: a split that enters either, and
/// after `first` a jump over `second`.
pub open spec fn alternated(first: Seq<Instruction>, second: Seq<Instruction>) -> Seq<
    Instruction,
> {
    seq![Instruction::Split(1, (first.len() + 2) as usize)] + relocated(first, 1)
        + seq![Instruction::Jmp((first.len() + second.len() + 2) as usize)] + relocated(
        second,
        first.len() + 2 as int,
    )
}

/// `code` made optional: a split that enters it or skips it.
pub open spec fn optional(code: Seq<Instruction>) -> Seq<Instruction> {
    seq![Instruction::Split(1, (code.len() + 1) as usize)] + relocated(code, 1)
}

/// `code` repeated any number of times: a split that enters it or skips it,
/// and after it a jump back to the split.
pub open spec fn repeated(code: Seq<Instruction>) -> Seq<Instruction> {
    seq![Instruction::Split(1, (code.len() + 2) as usize)] + relocated(code, 1)
        + seq![Instruction::Jmp(0)]
}

/// `code` repeated at least once: after it a split that enters it again or
/// goes on.
pub open spec fn repeated_once(code: Seq<Instruction>) -> Seq<Instruction> {
    code + seq![Instruction::Split(0, (code.len() + 1) as usize)]
}

/// Two fragments linked make a fragment.
pub proof fn lemma_linked_fragment(first: Seq<Instruction>, second: Seq<Instruction>)
    requires
        is_fragment(first),
        is_fragment(second),
        first.len() + second.len() <= usize::MAX,
    ensures
        is_fragment(linked(first, second)),
        linked(first, second).len() == first.len() + second.len(),
        can_relocate(second, first.len() as int),
{
    let all = linked(first, second);
    assert forall|i: int| 0 <= i < all.len() implies (#[trigger] all[i]).targets_within(
        all.len() as int,
    ) by {
        if i < first.len() {
            assert(first[i].targets_within(first.len() as int));
        } else {
            assert(second[i - first.len()].targets_within(second.len() as int));
        }
    }
    assert forall|i: int| 0 <= i < second.len() implies (#[trigger] second[i]).targets_within(
        usize::MAX - first.len(),
    ) by {
        assert(second[i].targets_within(second.len() as int));
    }
}

/// Linking after nothing changes nothing.
pub proof fn lemma_linked_after_nothing(code: Seq<Instruction>)
    ensures
        linked(Seq::empty(), code) == code,
{
    assert(linked(Seq::empty(), code) =~= code);
}

/// The alternation of two fragments is a fragment, two instructions longer
/// than both together, and not empty.
pub proof fn lemma_alternated_fragment(first: Seq<Instruction>, second: Seq<Instruction>)
    requires
        is_fragment(first),
        is_fragment(second),
        first.len() + second.len() + 2 <= usize::MAX,
    ensures
        is_fragment(alternated(first, second)),
        alternated(first, second).len() == first.len() + second.len() + 2,
        can_relocate(first, 1),
        can_relocate(second, first.len() + 2 as int),
{
    let all = alternated(first, second);
    assert forall|i: int| 0 <= i < all.len() implies (#[trigger] all[i]).targets_within(
        all.len() as int,
    ) by {
        if i == 0 {
        } else if i < first.len() + 1 {
            assert(first[i - 1].targets_within(first.len() as int));
        } else if i == first.len() + 1 {
        } else {
            assert(second[i - first.len() - 2].targets_within(second.len() as int));
        }
    }
    assert forall|i: int| 0 <= i < first.len() implies (#[trigger] first[i]).targets_within(
        usize::MAX - 1,
    ) by {
        assert(first[i].targets_within(first.len() as int));
    }
    assert forall|i: int| 0 <= i < second.len() implies (#[trigger] second[i]).targets_within(
        usize::MAX - (first.len() + 2),
    ) by {
        assert(second[i].targets_within(second.len() as int));
    }
}

/// A fragment with a quantifier is a fragment, at most two instructions
/// longer.
pub proof fn lemma_quantified_fragment(code: Seq<Instruction>)
    requires
        is_fragment(code),
        code.len() + 2 <= usize::MAX,
    ensures
        is_fragment(optional(code)),
        optional(code).len() == code.len() + 1,
        is_fragment(repeated(code)),
        repeated(code).len() == code.len() + 2,
        is_fragment(repeated_once(code)),
        repeated_once(code).len() == code.len() + 1,
        can_relocate(code, 1),
{
    let opt = optional(code);
    assert forall|i: int| 0 <= i < opt.len() implies (#[trigger] opt[i]).targets_within(
        opt.len() as int,
    ) by {
        if i > 0 {
            assert(code[i - 1].targets_within(code.len() as int));
        }
    }
    let rep = repeated(code);
    assert forall|i: int| 0 <= i < rep.len() implies (#[trigger] rep[i]).targets_within(
        rep.len() as int,
    ) by {
        if 0 < i < code.len() + 1 {
            assert(code[i - 1].targets_within(code.len() as int));
        }
    }
    let once = repeated_once(code);
    assert forall|i: int| 0 <= i < once.len() implies (#[trigger] once[i]).targets_within(
        once.len() as int,
    ) by {
        if i < code.len() {
            assert(code[i].targets_within(code.len() as int));
        }
    }
    assert forall|i: int| 0 <= i < code.len() implies (#[trigger] code[i]).targets_within(
        usize::MAX - 1,
    ) by {
        assert(code[i].targets_within(code.len() as int));
    }
}

} // verus!
