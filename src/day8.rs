//! A tiny handheld console: accumulate, jump and no-op instructions, run until an
//! instruction repeats or the program ends, and repair by swapping one jump or
//! no-op.

use crate::seqs::{count_true, lemma_count_true_bound, lemma_count_true_set, lemma_count_zero};
use crate::text::{
    lemma_parse_lines_prefix, lemma_parse_lines_step, lines_spec, parse_i32, parse_lines,
    signed_number_of, split_lines,
};
use vstd::prelude::*;
use vstd::string::StringSliceAdditionalSpecFns;

verus! {

#[derive(Clone, Copy, PartialEq, Eq, Debug, Structural)]
pub enum Operation {
    Acc(i32),
    Jmp(i32),
    Nop(i32),
}

/// How a run ended.
#[derive(Clone, Copy, PartialEq, Eq, Debug, Structural)]
pub enum ExitMode {
    /// An instruction was about to run a second time.
    InfiniteLoop,
    /// The cursor left the program.
    Complete,
}

pub open spec fn toggled(op: Operation) -> Operation {
    match op {
        Operation::Jmp(v) => Operation::Nop(v),
        Operation::Nop(v) => Operation::Jmp(v),
        Operation::Acc(v) => Operation::Acc(v),
    }
}

impl Operation {
    /// Swaps a jump for a no-op and back; an accumulate instruction has no swap.
    pub fn toggle(&mut self)
        requires
            !(*old(self) is Acc),
        ensures
            *final(self) == toggled(*old(self)),
    {
        match *self {
            Operation::Jmp(value) => {
                *self = Operation::Nop(value);
            },
            Operation::Nop(value) => {
                *self = Operation::Jmp(value);
            },
            Operation::Acc(_) => {},
        }
    }
}

pub open spec fn next_cursor(op: Operation, cursor: int) -> int {
    match op {
        Operation::Jmp(j) => cursor + j,
        _ => cursor + 1,
    }
}

/// The accumulator wraps around on overflow.
pub open spec fn next_acc(op: Operation, acc: i32) -> i32 {
    match op {
        Operation::Acc(v) => acc.wrapping_add(v),
        _ => acc,
    }
}

/// Runs the program from `cursor` with accumulator `acc`, the instructions marked
/// in `visited` having run already: how it ends and the final accumulator.
pub open spec fn run_spec(ops: Seq<Operation>, cursor: int, acc: i32, visited: Seq<bool>) -> (ExitMode, i32)
    decreases visited.len() - count_true(visited),
{
    if cursor < 0 || cursor >= ops.len() || visited.len() != ops.len() {
        (ExitMode::Complete, acc)
    } else if visited[cursor] {
        (ExitMode::InfiniteLoop, acc)
    } else {
        proof {
            lemma_count_true_set(visited, cursor);
            lemma_count_true_bound(visited.update(cursor, true));
        }
        run_spec(ops, next_cursor(ops[cursor], cursor), next_acc(ops[cursor], acc), visited.update(cursor, true))
    }
}

/// Where the cursor stands when the run of `run_spec` stops: out of the program,
/// or at the instruction about to run a second time.
pub open spec fn stop_cursor(ops: Seq<Operation>, cursor: int, visited: Seq<bool>) -> int
    decreases visited.len() - count_true(visited),
{
    if cursor < 0 || cursor >= ops.len() || visited.len() != ops.len() {
        cursor
    } else if visited[cursor] {
        cursor
    } else {
        proof {
            lemma_count_true_set(visited, cursor);
            lemma_count_true_bound(visited.update(cursor, true));
        }
        stop_cursor(ops, next_cursor(ops[cursor], cursor), visited.update(cursor, true))
    }
}

/// A run from the start with the accumulator at zero.
pub open spec fn run_program(ops: Seq<Operation>) -> (ExitMode, i32) {
    run_spec(ops, 0, 0, Seq::new(ops.len(), |i: int| false))
}

pub struct Computer {
    pub ops: Vec<Operation>,
    pub cursor: usize,
    pub accumulator: i32,
}

impl Computer {
    pub fn new(ops: Vec<Operation>) -> (r: Self)
        ensures
            r.ops@ == ops@,
            r.cursor == 0,
            r.accumulator == 0,
    {
        Self { ops, cursor: 0, accumulator: 0 }
    }

    /// Runs from the current cursor and accumulator until an instruction repeats
    /// or the cursor leaves the program.
    pub fn run(&mut self) -> (r: ExitMode)
        ensures
            final(self).ops@ == old(self).ops@,
            (r, final(self).accumulator) == run_spec(
                old(self).ops@,
                old(self).cursor as int,
                old(self).accumulator,
                Seq::new(old(self).ops@.len(), |i: int| false),
            ),
            r == ExitMode::InfiniteLoop ==> final(self).cursor as int == stop_cursor(
                old(self).ops@,
                old(self).cursor as int,
                Seq::new(old(self).ops@.len(), |i: int| false),
            ),
    {
        let n = self.ops.len();
        let mut visited: Vec<bool> = Vec::new();
        let mut k: usize = 0;
        while k < n
            invariant
                n == self.ops@.len(),
                k <= n,
                visited@.len() == k,
                forall|i: int| 0 <= i < k ==> !#[trigger] visited@[i],
            decreases n - k,
        {
            visited.push(false);
            k += 1;
        }
        assert(visited@ =~= Seq::new(n as nat, |i: int| false));
        proof {
            lemma_count_zero(visited@);
        }
        let ghost goal = run_spec(self.ops@, self.cursor as int, self.accumulator, visited@);
        let ghost goal_c = stop_cursor(self.ops@, self.cursor as int, visited@);
        loop
            invariant
                n == self.ops@.len(),
                self.ops@ == old(self).ops@,
                visited@.len() == n,
                count_true(visited@) <= n,
                goal == run_spec(self.ops@, self.cursor as int, self.accumulator, visited@),
                goal_c == stop_cursor(self.ops@, self.cursor as int, visited@),
                goal_c == stop_cursor(
                    old(self).ops@,
                    old(self).cursor as int,
                    Seq::new(old(self).ops@.len(), |i: int| false),
                ),
                goal == run_spec(
                    old(self).ops@,
                    old(self).cursor as int,
                    old(self).accumulator,
                    Seq::new(old(self).ops@.len(), |i: int| false),
                ),
            decreases n - count_true(visited@),
        {
            if self.cursor >= n {
                return ExitMode::Complete;
            }
            if visited[self.cursor] {
                return ExitMode::InfiniteLoop;
            }
            proof {
                lemma_count_true_set(visited@, self.cursor as int);
                lemma_count_true_bound(visited@.update(self.cursor as int, true));
            }
            let ghost c0 = self.cursor as int;
            let ghost a0 = self.accumulator;
            visited.set(self.cursor, true);
            assert(goal == run_spec(
                self.ops@,
                next_cursor(self.ops@[c0], c0),
                next_acc(self.ops@[c0], a0),
                visited@,
            ));
            assert(goal_c == stop_cursor(self.ops@, next_cursor(self.ops@[c0], c0), visited@));
            match self.ops[self.cursor] {
                Operation::Acc(value) => {
                    self.accumulator = self.accumulator.wrapping_add(value);
                    self.cursor += 1;
                },
                Operation::Jmp(jump) => {
                    if jump >= 0 {
                        let j = jump as usize;
                        if j >= n - self.cursor {
                            return ExitMode::Complete;
                        }
                        self.cursor = self.cursor + j;
                    } else {
                        let j = (0 - (jump as i64)) as usize;
                        if j > self.cursor {
                            return ExitMode::Complete;
                        }
                        self.cursor = self.cursor - j;
                    }
                },
                Operation::Nop(_) => {
                    self.cursor += 1;
                },
            }
        }
    }

    pub fn reset(&mut self)
        ensures
            final(self).ops@ == old(self).ops@,
            final(self).cursor == 0,
            final(self).accumulator == 0,
    {
        self.cursor = 0;
        self.accumulator = 0;
    }
}

/// An instruction line: a three-letter name, a space, a signed number.
pub open spec fn operation_of(line: Seq<u8>) -> Option<Operation> {
    if line.len() < 5 || line[3] != 32 {
        None
    } else {
        match signed_number_of(line.subrange(4, line.len() as int)) {
            None => None,
            Some(v) => {
                let name = line.subrange(0, 3);
                if name == seq![97u8, 99u8, 99u8] {
                    Some(Operation::Acc(v))
                } else if name == seq![106u8, 109u8, 112u8] {
                    Some(Operation::Jmp(v))
                } else if name == seq![110u8, 111u8, 112u8] {
                    Some(Operation::Nop(v))
                } else {
                    None
                }
            },
        }
    }
}

/// Reads one instruction line.
pub fn parse_operation(line: &Vec<u8>) -> (r: Option<Operation>)
    ensures
        r == operation_of(line@),
{
    let n = line.len();
    if n < 5 || line[3] != 32 {
        return None;
    }
    let value = match parse_i32(line.as_slice(), 4, n) {
        Some(v) => v,
        None => {
            return None;
        },
    };
    let ghost name = line@.subrange(0, 3);
    let (a, b, c) = (line[0], line[1], line[2]);
    assert(name[0] == a && name[1] == b && name[2] == c);
    if a == 97 && b == 99 && c == 99 {
        assert(name =~= seq![97u8, 99u8, 99u8]);
        Some(Operation::Acc(value))
    } else if a == 106 && b == 109 && c == 112 {
        assert(name =~= seq![106u8, 109u8, 112u8]);
        Some(Operation::Jmp(value))
    } else if a == 110 && b == 111 && c == 112 {
        assert(name =~= seq![110u8, 111u8, 112u8]);
        Some(Operation::Nop(value))
    } else {
        assert(name != seq![97u8, 99u8, 99u8]) by {
            if name == seq![97u8, 99u8, 99u8] {
                assert(name[0] == 97 && name[1] == 99 && name[2] == 99);
            }
        }
        assert(name != seq![106u8, 109u8, 112u8]) by {
            if name == seq![106u8, 109u8, 112u8] {
                assert(name[0] == 106 && name[1] == 109 && name[2] == 112);
            }
        }
        assert(name != seq![110u8, 111u8, 112u8]) by {
            if name == seq![110u8, 111u8, 112u8] {
                assert(name[0] == 110 && name[1] == 111 && name[2] == 112);
            }
        }
        None
    }
}

pub open spec fn program_of(lines: Seq<Seq<u8>>) -> Option<Seq<Operation>> {
    parse_lines(lines, |l: Seq<u8>| operation_of(l))
}

/// Reads the program, one instruction per non-empty line.
pub fn parser(input: &str) -> (r: Option<Vec<Operation>>)
    ensures
        r matches Some(v) ==> program_of(lines_spec(input.spec_bytes())) == Some(v@),
        r is None <==> program_of(lines_spec(input.spec_bytes())) is None,
{
    let lines = split_lines(input.as_bytes());
    let ghost lv = lines_spec(input.spec_bytes());
    let ghost f = |l: Seq<u8>| operation_of(l);
    let mut ops: Vec<Operation> = Vec::new();
    let mut i: usize = 0;
    assert(lv.subrange(0, 0) =~= Seq::<Seq<u8>>::empty());
    while i < lines.len()
        invariant
            lv == Seq::new(lines@.len(), |k: int| lines@[k]@),
            lv == lines_spec(input.spec_bytes()),
            f == (|l: Seq<u8>| operation_of(l)),
            i <= lines@.len(),
            parse_lines(lv.subrange(0, i as int), f) == Some(ops@),
        decreases lines@.len() - i,
    {
        proof {
            lemma_parse_lines_step(lv, f, i as int);
        }
        assert(lv[i as int] == lines@[i as int]@);
        if lines[i].len() > 0 {
            match parse_operation(&lines[i]) {
                Some(op) => ops.push(op),
                None => {
                    proof {
                        lemma_parse_lines_prefix(lv, f, i + 1);
                    }
                    return None;
                },
            }
        }
        i += 1;
    }
    assert(lv.subrange(0, i as int) =~= lv);
    Some(ops)
}

/// The accumulator just before an instruction would run a second time; `None` when
/// the program ends instead.
pub fn solve_part1(ops: Vec<Operation>) -> (r: Option<i32>)
    ensures
        r == if run_program(ops@).0 == ExitMode::InfiniteLoop {
            Some(run_program(ops@).1)
        } else {
            None::<i32>
        },
{
    let mut computer = Computer::new(ops);
    match computer.run() {
        ExitMode::InfiniteLoop => Some(computer.accumulator),
        ExitMode::Complete => None,
    }
}

/// The program with the instruction at `i` swapped.
pub open spec fn repaired(ops: Seq<Operation>, i: int) -> Seq<Operation> {
    ops.update(i, toggled(ops[i]))
}

/// Whether swapping the instruction at `i` makes the program end.
pub open spec fn repairs(ops: Seq<Operation>, i: int) -> bool {
    !(ops[i] is Acc) && run_program(repaired(ops, i)).0 == ExitMode::Complete
}

/// Swaps jumps and no-ops one at a time, first to last, and gives the
/// accumulator at the end of the first program so repaired that ends.
pub fn solve_part2(ops: Vec<Operation>) -> (r: Option<i32>)
    ensures
        r matches Some(a) ==> exists|i: int|
            0 <= i < ops@.len() && #[trigger] repairs(ops@, i) && a == run_program(repaired(ops@, i)).1
                && forall|k: int| 0 <= k < i ==> !#[trigger] repairs(ops@, k),
        r is None ==> forall|k: int| 0 <= k < ops@.len() ==> !#[trigger] repairs(ops@, k),
{
    let ghost orig = ops@;
    let mut computer = Computer::new(ops);
    let n = computer.ops.len();
    let mut i: usize = 0;
    while i < n
        invariant
            n == orig.len(),
            orig == ops@,
            computer.ops@ == orig,
            computer.cursor == 0,
            computer.accumulator == 0,
            i <= n,
            forall|k: int| 0 <= k < i ==> !#[trigger] repairs(orig, k),
        decreases n - i,
    {
        if !matches!(computer.ops[i], Operation::Acc(_)) {
            computer.ops[i].toggle();
            assert(computer.ops@ == repaired(orig, i as int));
            let mode = computer.run();
            match mode {
                ExitMode::Complete => {
                    assert(repairs(orig, i as int));
                    assert(0 <= i < ops@.len() && repairs(ops@, i as int) && computer.accumulator
                        == run_program(repaired(ops@, i as int)).1);
                    return Some(computer.accumulator);
                },
                ExitMode::InfiniteLoop => {
                    computer.ops[i].toggle();
                    assert(computer.ops@ =~= orig);
                    computer.reset();
                },
            }
        }
        i += 1;
    }
    None
}

} // verus!
