use crate::instruction::{addresses_valid, Instruction};
use crate::semantics::{
    accepts, advances, alive, descends, halts, lemma_dead_stays_dead, lemma_settles_step,
    matches_somewhere, runnable, settles,
};
use crate::text::chars_of;
use vstd::pervasive::unreached;
use vstd::prelude::*;

verus! {

/// What one step of the machine found.
enum IterResult {
    Matched,
    Continue,
    Halt,
}

/// A virtual machine for one compiled program. Its view is the program. The
/// threads it keeps while matching are addresses of the program; they are
/// set up anew for every start offset and mean nothing between two searches.
pub struct Vm {
    program: Vec<Instruction>,
    ips: Vec<usize>,
}

impl View for Vm {
    type V = Seq<Instruction>;

    closed spec fn view(&self) -> Seq<Instruction> {
        self.program@
    }
}

/// `at` is one of `threads`.
spec fn holds(threads: Seq<usize>, at: int) -> bool {
    exists|k: int| 0 <= k < threads.len() && #[trigger] threads[k] == at
}

/// Every thread rests on a `Char` or a `Match` of the program.
spec fn rests_only(program: Seq<Instruction>, threads: Seq<usize>) -> bool {
    forall|k: int|
        0 <= k < threads.len() ==> (#[trigger] threads[k]) < program.len()
            && program[threads[k] as int].is_resting()
}

/// One of `threads[from..]` settles at `at`.
spec fn covers_from(program: Seq<Instruction>, threads: Seq<usize>, from: int, at: int) -> bool {
    exists|k: int| from <= k < threads.len() && settles(program, #[trigger] threads[k] as int, at)
}

/// One of `threads[..upto]` consumes `c` and settles at `at`.
spec fn steps_upto(
    program: Seq<Instruction>,
    threads: Seq<usize>,
    upto: int,
    c: char,
    at: int,
) -> bool {
    exists|k: int| 0 <= k < upto && advances(program, #[trigger] threads[k] as int, c, at)
}

/// One of `threads[..upto]` rests on a `Match`.
spec fn finished_upto(program: Seq<Instruction>, threads: Seq<usize>, upto: int) -> bool {
    exists|k: int| 0 <= k < upto && program[#[trigger] threads[k] as int] == Instruction::Match
}

/// `threads` holds exactly the threads that are alive at `pos`.
spec fn tracks(
    threads: Seq<usize>,
    program: Seq<Instruction>,
    input: Seq<char>,
    start: int,
    pos: int,
) -> bool {
    forall|at: int|
        #![trigger holds(threads, at)]
        #![trigger alive(program, input, start, pos, at)]
        holds(threads, at) <==> alive(program, input, start, pos, at)
}

proof fn lemma_holds_push(threads: Seq<usize>, x: usize, at: int)
    ensures
        holds(threads.push(x), at) <==> holds(threads, at) || at == x,
{
    let pushed = threads.push(x);
    if holds(pushed, at) {
        let k = choose|k: int| 0 <= k < pushed.len() && #[trigger] pushed[k] == at;
        if k < threads.len() {
            assert(threads[k] == at);
        }
    }
    if holds(threads, at) {
        let k = choose|k: int| 0 <= k < threads.len() && #[trigger] threads[k] == at;
        assert(pushed[k] == at);
    }
    if at == x {
        assert(pushed[threads.len() as int] == at);
    }
}

proof fn lemma_holds_concat(first: Seq<usize>, second: Seq<usize>, at: int)
    ensures
        holds(first + second, at) <==> holds(first, at) || holds(second, at),
{
    let both = first + second;
    if holds(both, at) {
        let k = choose|k: int| 0 <= k < both.len() && #[trigger] both[k] == at;
        if k < first.len() {
            assert(first[k] == at);
        } else {
            assert(second[k - first.len()] == at);
        }
    }
    if holds(first, at) {
        let k = choose|k: int| 0 <= k < first.len() && #[trigger] first[k] == at;
        assert(both[k] == at);
    }
    if holds(second, at) {
        let k = choose|k: int| 0 <= k < second.len() && #[trigger] second[k] == at;
        assert(both[k + first.len()] == at);
    }
}

proof fn lemma_covers_push(program: Seq<Instruction>, threads: Seq<usize>, x: usize, at: int)
    ensures
        covers_from(program, threads.push(x), 0, at) <==> covers_from(program, threads, 0, at)
            || settles(program, x as int, at),
{
    let pushed = threads.push(x);
    if covers_from(program, pushed, 0, at) {
        let k = choose|k: int|
            0 <= k < pushed.len() && settles(program, #[trigger] pushed[k] as int, at);
        if k < threads.len() {
            assert(settles(program, threads[k] as int, at));
        }
    }
    if covers_from(program, threads, 0, at) {
        let k = choose|k: int|
            0 <= k < threads.len() && settles(program, #[trigger] threads[k] as int, at);
        assert(settles(program, pushed[k] as int, at));
    }
    if settles(program, x as int, at) {
        assert(settles(program, pushed[threads.len() as int] as int, at));
    }
}

proof fn lemma_covers_first(program: Seq<Instruction>, threads: Seq<usize>, from: int, at: int)
    requires
        0 <= from < threads.len(),
    ensures
        covers_from(program, threads, from, at) <==> settles(program, threads[from] as int, at)
            || covers_from(program, threads, from + 1, at),
{
    if covers_from(program, threads, from, at) {
        let k = choose|k: int|
            from <= k < threads.len() && settles(program, #[trigger] threads[k] as int, at);
        if k > from {
            assert(covers_from(program, threads, from + 1, at));
        }
    }
    if covers_from(program, threads, from + 1, at) {
        let k = choose|k: int|
            from + 1 <= k < threads.len() && settles(program, #[trigger] threads[k] as int, at);
        assert(settles(program, threads[k] as int, at));
    }
}

proof fn lemma_steps_next(
    program: Seq<Instruction>,
    threads: Seq<usize>,
    upto: int,
    c: char,
    at: int,
)
    requires
        0 <= upto < threads.len(),
    ensures
        steps_upto(program, threads, upto + 1, c, at) <==> steps_upto(
            program,
            threads,
            upto,
            c,
            at,
        ) || advances(program, threads[upto] as int, c, at),
{
    if steps_upto(program, threads, upto + 1, c, at) {
        let k = choose|k: int|
            0 <= k < upto + 1 && advances(program, #[trigger] threads[k] as int, c, at);
        if k < upto {
            assert(steps_upto(program, threads, upto, c, at));
        }
    }
    if steps_upto(program, threads, upto, c, at) {
        let k = choose|k: int|
            0 <= k < upto && advances(program, #[trigger] threads[k] as int, c, at);
        assert(advances(program, threads[k] as int, c, at));
    }
}

/// The threads that a step leaves are those alive one character later.
proof fn lemma_tracks_step(
    before: Seq<usize>,
    after: Seq<usize>,
    program: Seq<Instruction>,
    input: Seq<char>,
    start: int,
    pos: int,
)
    requires
        0 <= start <= pos < input.len(),
        tracks(before, program, input, start, pos),
        forall|at: int|
            holds(after, at) <==> steps_upto(program, before, before.len() as int, input[pos], at),
    ensures
        tracks(after, program, input, start, pos + 1),
{
    assert forall|at: int| holds(after, at) <==> alive(program, input, start, pos + 1, at) by {
        if holds(after, at) {
            let k = choose|k: int|
                0 <= k < before.len() && advances(
                    program,
                    #[trigger] before[k] as int,
                    input[pos],
                    at,
                );
            assert(holds(before, before[k] as int));
            assert(alive(program, input, start, pos + 1 - 1, before[k] as int));
        }
        if alive(program, input, start, pos + 1, at) {
            let prev = choose|prev: int|
                alive(program, input, start, pos + 1 - 1, prev) && #[trigger] advances(
                    program,
                    prev,
                    input[pos + 1 - 1],
                    at,
                );
            assert(alive(program, input, start, pos, prev));
            assert(holds(before, prev));
            let k = choose|k: int| 0 <= k < before.len() && #[trigger] before[k] == prev;
            assert(advances(program, before[k] as int, input[pos], at));
            assert(steps_upto(program, before, before.len() as int, input[pos], at));
        }
    }
}

/// How many entries of `done` are still false.
spec fn pending(done: Seq<bool>) -> nat
    decreases done.len(),
{
    if done.len() == 0 {
        0
    } else {
        pending(done.drop_last()) + if done.last() {
            0nat
        } else {
            1nat
        }
    }
}

proof fn lemma_pending_update(done: Seq<bool>, i: int)
    requires
        0 <= i < done.len(),
        !done[i],
    ensures
        pending(done.update(i, true)) + 1 == pending(done),
    decreases done.len(),
{
    let updated = done.update(i, true);
    if i == done.len() - 1 {
        assert(updated.drop_last() =~= done.drop_last());
    } else {
        lemma_pending_update(done.drop_last(), i);
        assert(updated.drop_last() =~= done.drop_last().update(i, true));
    }
}

/// Every address marked in `done` leads, by its jump or split, only to marked
/// addresses of a smaller rank; the unmarked ones are jumps and splits.
spec fn ranked(program: Seq<Instruction>, done: Seq<bool>, rank: Seq<nat>) -> bool {
    &&& done.len() == program.len()
    &&& rank.len() == program.len()
    &&& forall|i: int|
        0 <= i < program.len() ==> match #[trigger] program[i] {
            Instruction::Jmp(a) => done[i] ==> done[a as int] && rank[a as int] < rank[i],
            Instruction::Split(a, b) => done[i] ==> done[a as int] && done[b as int]
                && rank[a as int] < rank[i] && rank[b as int] < rank[i],
            _ => done[i],
        }
}

/// The jump or split at `i` leads to an address that is not marked.
spec fn stuck_at(program: Seq<Instruction>, done: Seq<bool>, i: int) -> bool {
    match program[i] {
        Instruction::Jmp(a) => !done[a as int],
        Instruction::Split(a, b) => !done[a as int] || !done[b as int],
        _ => false,
    }
}

/// Where every unmarked address leads to an unmarked address, an unmarked
/// address lies on or before a cycle, so no ranking exists.
proof fn lemma_stuck(program: Seq<Instruction>, done: Seq<bool>, rank: Seq<nat>, i: int)
    requires
        addresses_valid(program),
        done.len() == program.len(),
        0 <= i < program.len(),
        !done[i],
        forall|j: int| 0 <= j < program.len() && !done[j] ==> stuck_at(program, done, j),
    ensures
        !descends(program, rank),
    decreases rank[i],
{
    assert(stuck_at(program, done, i));
    if descends(program, rank) {
        match program[i] {
            Instruction::Jmp(a) => {
                lemma_stuck(program, done, rank, a as int);
            },
            Instruction::Split(a, b) => {
                if !done[a as int] {
                    lemma_stuck(program, done, rank, a as int);
                } else {
                    lemma_stuck(program, done, rank, b as int);
                }
            },
            _ => {},
        }
    }
}

impl Vm {
    /// The machine's program can be run: see `runnable`.
    pub open spec fn well_formed(&self) -> bool {
        runnable(self@)
    }

    /// A machine for `program`.
    pub fn new(program: Vec<Instruction>) -> (vm: Vm)
        ensures
            vm@ == program@,
    {
        Vm { program: program, ips: Vec::new() }
    }

    /// The program that the machine runs.
    pub fn program(&self) -> (program: &Vec<Instruction>)
        ensures
            program@ == self@,
    {
        &self.program
    }

    /// Tells whether the program can be run: whether its addresses are valid
    /// and its jumps and splits form no cycle. Addresses are marked as safe
    /// in rounds, first each `Char` and `Match`, after that each jump or
    /// split that leads to marked addresses only, until a round marks
    /// nothing; the program can be run if every address got its mark.
    #[verifier::loop_isolation(false)]
    pub fn is_well_formed(&self) -> (ok: bool)
        ensures
            ok == self.well_formed(),
    {
        let ghost program = self@;
        let n: usize = self.program.len();
        if n == 0 {
            return false;
        }
        let mut done: Vec<bool> = Vec::new();
        let mut i: usize = 0;
        while i < n
            invariant
                i <= n,
                done@.len() == i,
                forall|j: int|
                    0 <= j < i ==> match #[trigger] program[j] {
                        Instruction::Char(_) => j + 1 < n && done@[j],
                        Instruction::Jmp(a) => a < n && !done@[j],
                        Instruction::Split(a, b) => a < n && b < n && !done@[j],
                        Instruction::Match => done@[j],
                    },
            decreases n - i,
        {
            match self.program[i] {
                Instruction::Char(_) => {
                    if i + 1 >= n {
                        return false;
                    }
                    done.push(true);
                },
                Instruction::Jmp(a) => {
                    if a >= n {
                        return false;
                    }
                    done.push(false);
                },
                Instruction::Split(a, b) => {
                    if a >= n || b >= n {
                        return false;
                    }
                    done.push(false);
                },
                Instruction::Match => {
                    done.push(true);
                },
            }
            i += 1;
        }
        assert(addresses_valid(program));
        let ghost mut rank: Seq<nat> = Seq::new(n as nat, |j: int| 0nat);
        let mut changed: bool = true;
        while changed
            invariant
                ranked(program, done@, rank),
                !changed ==> forall|j: int|
                    0 <= j < n && !done@[j] ==> stuck_at(program, done@, j),
            decreases
                    pending(done@),
                    if changed {
                        1nat
                    } else {
                        0nat
                    },
        {
            changed = false;
            let ghost at_start = done@;
            let mut i: usize = 0;
            while i < n
                invariant
                    i <= n,
                    ranked(program, done@, rank),
                    pending(done@) <= pending(at_start),
                    changed ==> pending(done@) < pending(at_start),
                    !changed ==> done@ == at_start,
                    !changed ==> forall|j: int|
                        0 <= j < i && !done@[j] ==> stuck_at(program, done@, j),
                decreases n - i,
            {
                if !done[i] {
                    match self.program[i] {
                        Instruction::Jmp(a) => {
                            if done[a] {
                                proof {
                                    lemma_pending_update(done@, i as int);
                                    rank = rank.update(i as int, rank[a as int] + 1);
                                }
                                done[i] = true;
                                changed = true;
                            }
                        },
                        Instruction::Split(a, b) => {
                            if done[a] && done[b] {
                                proof {
                                    lemma_pending_update(done@, i as int);
                                    rank = rank.update(i as int, rank[a as int] + rank[b as int] + 1);
                                }
                                done[i] = true;
                                changed = true;
                            }
                        },
                        _ => {},
                    }
                }
                i += 1;
            }
        }
        let mut i: usize = 0;
        while i < n
            invariant
                i <= n,
                forall|j: int| 0 <= j < i ==> done@[j],
            decreases n - i,
        {
            if !done[i] {
                proof {
                    if halts(program) {
                        let other = choose|other: Seq<nat>| descends(program, other);
                        lemma_stuck(program, done@, other, i as int);
                    }
                }
                return false;
            }
            i += 1;
        }
        assert(descends(program, rank));
        true
    }

    /// Searches `string` for a match that starts at any of its characters:
    /// for each start offset in turn, the machine is started afresh and fed
    /// the characters from there on, and the search succeeds as soon as a
    /// thread stands on `Match`. The program has to be one that can be run,
    /// which `is_well_formed` tells: with an address outside the program a
    /// thread would leave it, and on a cycle of jumps and splits the search
    /// for the places where threads rest would never end.
    pub fn matches(&mut self, string: &str) -> (found: bool)
        requires
            old(self).well_formed(),
        ensures
            final(self)@ == old(self)@,
            found == matches_somewhere(old(self)@, string@),
    {
        let input = chars_of(string);
        let n: usize = input.len();
        let ghost program = self@;
        let mut start: usize = 0;
        while start < n
            invariant
                self@ == program,
                program == old(self)@,
                runnable(program),
                input@ == string@,
                n == input@.len(),
                start <= n,
                forall|s: int, e: int|
                    0 <= s < start && s <= e <= n ==> !#[trigger] accepts(program, input@, s, e),
            decreases n - start,
        {
            self.init();
            let mut pos: usize = start;
            while pos < n
                invariant
                    self@ == program,
                    program == old(self)@,
                    runnable(program),
                    input@ == string@,
                    n == input@.len(),
                    start <= pos <= n,
                    start < n,
                    rests_only(program, self.ips@),
                    tracks(self.ips@, program, input@, start as int, pos as int),
                    forall|e: int| start <= e < pos ==> !#[trigger] accepts(program, input@, start as int, e),
                ensures
                    self@ == program,
                    start <= pos <= n,
                    rests_only(program, self.ips@),
                    tracks(self.ips@, program, input@, start as int, pos as int),
                    forall|e: int| start <= e < pos ==> !#[trigger] accepts(program, input@, start as int, e),
                    pos == n || self.ips@.len() == 0,
                decreases n - pos,
            {
                let ghost before = self.ips@;
                match self.iterate(input[pos]) {
                    IterResult::Matched => {
                        proof {
                            let k = choose|k: int|
                                0 <= k < before.len() && program[#[trigger] before[k] as int]
                                    == Instruction::Match;
                            assert(holds(before, before[k] as int));
                            assert(alive(program, input@, start as int, pos as int, before[k] as int));
                            assert(accepts(program, input@, start as int, pos as int));
                        }
                        return true;
                    },
                    IterResult::Halt => {
                        break ;
                    },
                    IterResult::Continue => {},
                }
                proof {
                    lemma_tracks_step(before, self.ips@, program, input@, start as int, pos as int);
                    if accepts(program, input@, start as int, pos as int) {
                        let at = choose|at: int| #[trigger]
                            alive(program, input@, start as int, pos as int, at) && program[at]
                                == Instruction::Match;
                        assert(holds(before, at));
                        let k = choose|k: int| 0 <= k < before.len() && #[trigger] before[k] == at;
                        assert(program[before[k] as int] == Instruction::Match);
                        assert(finished_upto(program, before, before.len() as int));
                    }
                }
                pos += 1;
            }
            let mut k: usize = 0;
            while k < self.ips.len()
                invariant
                    self@ == program,
                    program == old(self)@,
                    input@ == string@,
                    n == input@.len(),
                    k <= self.ips@.len(),
                    start <= pos <= n,
                    start < n,
                    rests_only(program, self.ips@),
                    tracks(self.ips@, program, input@, start as int, pos as int),
                    forall|j: int| 0 <= j < k ==> program[#[trigger] self.ips@[j] as int] != Instruction::Match,
                decreases self.ips@.len() - k,
            {
                match self.program[self.ips[k]] {
                    Instruction::Match => {
                        proof {
                            assert(holds(self.ips@, self.ips@[k as int] as int));
                            assert(alive(program, input@, start as int, pos as int, self.ips@[k as int] as int));
                            assert(accepts(program, input@, start as int, pos as int));
                        }
                        return true;
                    },
                    _ => {},
                }
                k += 1;
            }
            proof {
                let threads = self.ips@;
                assert forall|e: int| start <= e <= n implies !#[trigger] accepts(
                    program,
                    input@,
                    start as int,
                    e,
                ) by {
                    if accepts(program, input@, start as int, e) {
                        let at = choose|at: int| #[trigger]
                            alive(program, input@, start as int, e, at) && program[at]
                                == Instruction::Match;
                        if e == pos {
                            assert(holds(threads, at));
                            let j = choose|j: int| 0 <= j < threads.len() && #[trigger] threads[j] == at;
                            assert(program[threads[j] as int] != Instruction::Match);
                        } else {
                            assert(e > pos);
                            assert forall|x: int| !alive(program, input@, start as int, pos as int, x) by {
                                if alive(program, input@, start as int, pos as int, x) {
                                    assert(holds(threads, x));
                                }
                            }
                            lemma_dead_stays_dead(program, input@, start as int, pos as int, e, at);
                        }
                    }
                }
            }
            start += 1;
        }
        proof {
            if matches_somewhere(program, string@) {
                let (s, e) = choose|s: int, e: int|
                    0 <= s < string@.len() && s <= e <= string@.len() && #[trigger] accepts(
                        program,
                        string@,
                        s,
                        e,
                    );
                assert(!accepts(program, input@, s, e));
            }
        }
        false
    }

    /// Starts the machine afresh: its threads are those that the first
    /// instruction settles on.
    fn init(&mut self)
        requires
            old(self).well_formed(),
        ensures
            final(self)@ == old(self)@,
            rests_only(final(self)@, final(self).ips@),
            forall|pos: int, input: Seq<char>| tracks(final(self).ips@, final(self)@, input, pos, pos),
    {
        self.ips = self.follow_jump(0);
        if self.ips.is_empty() {
            self.ips.push(0);
        }
    }

    /// Feeds one character to the machine. Each thread on a `Char` of that
    /// character moves on and settles; a thread on `Match` reports a match;
    /// the others die. With no thread left there is nothing to do.
    #[verifier::loop_isolation(false)]
    fn iterate(&mut self, c: char) -> (result: IterResult)
        requires
            old(self).well_formed(),
            rests_only(old(self)@, old(self).ips@),
        ensures
            final(self)@ == old(self)@,
            rests_only(final(self)@, final(self).ips@),
            old(self).ips@.len() == 0 ==> result is Halt && final(self).ips@ == old(self).ips@,
            old(self).ips@.len() > 0 ==> !(result is Halt),
            old(self).ips@.len() > 0 ==> (result is Matched <==> finished_upto(
                old(self)@,
                old(self).ips@,
                old(self).ips@.len() as int,
            )),
            old(self).ips@.len() > 0 ==> forall|at: int|
                holds(final(self).ips@, at) <==> steps_upto(
                    old(self)@,
                    old(self).ips@,
                    old(self).ips@.len() as int,
                    c,
                    at,
                ),
    {
        if self.ips.is_empty() {
            return IterResult::Halt;
        }
        let ghost program = self@;
        let ghost threads = self.ips@;
        let mut new_ips: Vec<usize> = Vec::new();
        let mut result = IterResult::Continue;
        let mut k: usize = 0;
        while k < self.ips.len()
            invariant
                self@ == program,
                self.ips@ == threads,
                runnable(program),
                rests_only(program, threads),
                k <= threads.len(),
                rests_only(program, new_ips@),
                !(result is Halt),
                result is Matched <==> finished_upto(program, threads, k as int),
                forall|at: int| holds(new_ips@, at) <==> steps_upto(program, threads, k as int, c, at),
            decreases threads.len() - k,
        {
            let addr: usize = self.ips[k];
            let ghost old_new = new_ips@;
            match self.program[addr] {
                Instruction::Char(ch) => {
                    assert(addr + 1 < self.program.len());
                    if ch == c {
                        let mut new_addrs = self.follow_jump(addr + 1);
                        let ghost settled = new_addrs@;
                        if new_addrs.is_empty() {
                            new_ips.push(addr + 1);
                        } else {
                            new_ips.append(&mut new_addrs);
                        }
                        proof {
                            assert forall|at: int| holds(new_ips@, at) <==> holds(old_new, at)
                                || advances(program, addr as int, c, at) by {
                                lemma_holds_concat(old_new, settled, at);
                            }
                        }
                    }
                },
                Instruction::Match => {
                    result = IterResult::Matched;
                },
                _ => {
                    unreached::<()>();
                },
            }
            proof {
                assert forall|at: int| holds(new_ips@, at) <==> steps_upto(
                    program,
                    threads,
                    k + 1,
                    c,
                    at,
                ) by {
                    lemma_steps_next(program, threads, k as int, c, at);
                    assert(holds(old_new, at) <==> steps_upto(program, threads, k as int, c, at));
                    if program[addr as int] != Instruction::Char(c) {
                        assert(new_ips@ == old_new);
                    }
                }
                if finished_upto(program, threads, k + 1) {
                    let j = choose|j: int|
                        0 <= j < k + 1 && program[#[trigger] threads[j] as int] == Instruction::Match;
                    if j < k {
                        assert(finished_upto(program, threads, k as int));
                    }
                }
                if finished_upto(program, threads, k as int) {
                    let j = choose|j: int|
                        0 <= j < k && program[#[trigger] threads[j] as int] == Instruction::Match;
                    assert(program[threads[j] as int] == Instruction::Match);
                }
            }
            k += 1;
        }
        self.ips = new_ips;
        result
    }

    /// The epsilon closure of address `i`: every `Char` or `Match` that a
    /// thread at `i` can reach through jumps and splits alone. The search
    /// goes breadth first and keeps no record of the addresses it has seen,
    /// so an address may come out more than once.
    #[verifier::loop_isolation(false)]
    fn follow_jump(&self, i: usize) -> (addresses: Vec<usize>)
        requires
            self.well_formed(),
            i < self@.len(),
        ensures
            forall|at: int| holds(addresses@, at) <==> settles(self@, i as int, at),
            rests_only(self@, addresses@),
            addresses@.len() > 0,
    {
        let ghost program = self@;
        let ghost rank = choose|rank: Seq<nat>| descends(program, rank);
        let mut addresses: Vec<usize> = Vec::new();
        let mut working_set: Vec<usize> = Vec::new();
        working_set.push(i);
        let ghost mut fuel: nat = rank[i as int] + 1;
        proof {
            assert forall|at: int| settles(program, i as int, at) <==> holds(addresses@, at)
                || covers_from(program, working_set@, 0, at) by {
                lemma_covers_push(program, Seq::<usize>::empty(), i, at);
                assert(working_set@ =~= Seq::<usize>::empty().push(i));
            }
        }
        while !working_set.is_empty()
            invariant
                program == self@,
                runnable(program),
                descends(program, rank),
                forall|k: int|
                    0 <= k < working_set@.len() ==> (#[trigger] working_set@[k]) < program.len()
                        && rank[working_set@[k] as int] < fuel,
                forall|at: int|
                    settles(program, i as int, at) <==> holds(addresses@, at) || covers_from(
                        program,
                        working_set@,
                        0,
                        at,
                    ),
                rests_only(program, addresses@),
                working_set@.len() > 0 || addresses@.len() > 0,
            decreases fuel,
        {
            assert(rank[working_set@[0] as int] < fuel);
            let mut new_working_set: Vec<usize> = Vec::new();
            let mut k: usize = 0;
            while k < working_set.len()
                invariant
                    program == self@,
                    runnable(program),
                    descends(program, rank),
                    k <= working_set@.len(),
                    fuel > 0,
                    forall|j: int|
                        0 <= j < working_set@.len() ==> (#[trigger] working_set@[j]) < program.len()
                            && rank[working_set@[j] as int] < fuel,
                    forall|j: int|
                        0 <= j < new_working_set@.len() ==> (#[trigger] new_working_set@[j])
                            < program.len() && rank[new_working_set@[j] as int] < fuel - 1,
                    forall|at: int|
                        settles(program, i as int, at) <==> holds(addresses@, at) || covers_from(
                            program,
                            working_set@,
                            k as int,
                            at,
                        ) || covers_from(program, new_working_set@, 0, at),
                    rests_only(program, addresses@),
                    k > 0 ==> new_working_set@.len() > 0 || addresses@.len() > 0,
                decreases working_set@.len() - k,
            {
                let address: usize = working_set[k];
                let ghost old_addresses = addresses@;
                let ghost old_new = new_working_set@;
                match self.program[address] {
                    Instruction::Split(a, b) => {
                        new_working_set.push(a);
                        new_working_set.push(b);
                    },
                    Instruction::Jmp(a) => {
                        new_working_set.push(a);
                    },
                    _ => {
                        addresses.push(address);
                    },
                }
                proof {
                    assert forall|at: int|
                        settles(program, i as int, at) <==> holds(addresses@, at) || covers_from(
                            program,
                            working_set@,
                            k + 1,
                            at,
                        ) || covers_from(program, new_working_set@, 0, at) by {
                        lemma_settles_step(program, address as int, at);
                        lemma_covers_first(program, working_set@, k as int, at);
                        match program[address as int] {
                            Instruction::Split(a, b) => {
                                lemma_covers_push(program, old_new, a, at);
                                lemma_covers_push(program, old_new.push(a), b, at);
                            },
                            Instruction::Jmp(a) => {
                                lemma_covers_push(program, old_new, a, at);
                            },
                            _ => {
                                lemma_holds_push(old_addresses, address, at);
                            },
                        }
                    }
                }
                k += 1;
            }
            working_set = new_working_set;
            proof {
                fuel = (fuel - 1) as nat;
            }
        }
        addresses
    }
}

} // verus!
