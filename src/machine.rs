use vstd::prelude::*;
use crate::instruction::Instruction;
use crate::lexer::{lexed, matching};

verus! {

/// How many zeroed cells a fresh tape starts with; it grows to the right on demand.
pub const TAPE_LEN: usize = 30000;

/// The state of a running program: the tape, the data pointer and the
/// instruction cursor.
pub ghost struct Machine {
    pub tape: Seq<u8>,
    pub pointer: int,
    pub cursor: int,
}

/// A machine together with the input not yet read and the output written so far.
pub ghost struct Session {
    pub machine: Machine,
    pub input: Seq<u8>,
    pub output: Seq<u8>,
}

impl Machine {
    /// The pointer stays on the tape.
    pub open spec fn wf(self) -> bool {
        0 <= self.pointer < self.tape.len() && 0 <= self.cursor
    }

    /// The value of the cell under the pointer.
    pub open spec fn cell(self) -> u8 {
        self.tape[self.pointer]
    }
}

/// A fresh machine: a zeroed tape, pointer and cursor at 0.
pub open spec fn initial() -> Machine {
    Machine { tape: Seq::new(TAPE_LEN as nat, |i: int| 0u8), pointer: 0, cursor: 0 }
}

/// The cursor has run off the end of the program: execution is over.
pub open spec fn finished(p: Seq<Instruction>, m: Machine) -> bool {
    m.cursor >= p.len()
}

/// The next instruction would move the pointer left of the first cell.
pub open spec fn faults(p: Seq<Instruction>, m: Machine) -> bool {
    !finished(p, m) && p[m.cursor] == Instruction::MoveLeft && m.pointer == 0
}

/// Execution goes on: neither finished nor at a fault.
pub open spec fn running(p: Seq<Instruction>, m: Machine) -> bool {
    !finished(p, m) && !faults(p, m)
}

/// The machine after executing the instruction under the cursor, with `byte`
/// the value that an `Input` instruction stores.
pub open spec fn next(p: Seq<Instruction>, m: Machine, byte: u8) -> Machine {
    let c = m.cell();
    match p[m.cursor] {
        Instruction::MoveRight => Machine {
            tape: if m.pointer + 1 == m.tape.len() {
                m.tape.push(0)
            } else {
                m.tape
            },
            pointer: m.pointer + 1,
            cursor: m.cursor + 1,
        },
        Instruction::MoveLeft => Machine { pointer: m.pointer - 1, cursor: m.cursor + 1, ..m },
        Instruction::Increment => Machine {
            tape: m.tape.update(m.pointer, ((c + 1) % 256) as u8),
            cursor: m.cursor + 1,
            ..m
        },
        Instruction::Decrement => Machine {
            tape: m.tape.update(m.pointer, ((c + 255) % 256) as u8),
            cursor: m.cursor + 1,
            ..m
        },
        Instruction::Output => Machine { cursor: m.cursor + 1, ..m },
        Instruction::Input => Machine {
            tape: m.tape.update(m.pointer, byte),
            cursor: m.cursor + 1,
            ..m
        },
        Instruction::JumpIfZero(t) => Machine {
            cursor: if c == 0 {
                t as int
            } else {
                m.cursor + 1
            },
            ..m
        },
        Instruction::JumpIfNonZero(t) => Machine {
            cursor: if c != 0 {
                t as int
            } else {
                m.cursor + 1
            },
            ..m
        },
    }
}

/// One step of a session: an `Input` reads the next byte (0 once the input
/// is used up) and an `Output` appends the current cell to the output.
pub open spec fn feed(p: Seq<Instruction>, s: Session) -> Session {
    let m = s.machine;
    let reads = p[m.cursor] == Instruction::Input;
    let byte: u8 = if s.input.len() > 0 {
        s.input[0]
    } else {
        0
    };
    Session {
        machine: next(p, m, byte),
        input: if reads && s.input.len() > 0 {
            s.input.drop_first()
        } else {
            s.input
        },
        output: if p[m.cursor] == Instruction::Output {
            s.output.push(m.cell())
        } else {
            s.output
        },
    }
}

/// The session after at most `n` steps; it stops changing once the program
/// has finished or faulted.
pub open spec fn after(p: Seq<Instruction>, s: Session, n: nat) -> Session
    decreases n,
{
    if n == 0 || !running(p, s.machine) {
        s
    } else {
        after(p, feed(p, s), (n - 1) as nat)
    }
}

/// Taking one more step from a running state.
pub proof fn lemma_after_step(p: Seq<Instruction>, s: Session, n: nat)
    requires
        running(p, after(p, s, n).machine),
    ensures
        after(p, s, n + 1) == feed(p, after(p, s, n)),
    decreases n,
{
    if n > 0 {
        assert(running(p, s.machine));
        lemma_after_step(p, feed(p, s), (n - 1) as nat);
        assert(after(p, s, n + 1) == after(p, feed(p, s), n));
    } else {
        assert(after(p, feed(p, s), 0) == feed(p, s));
    }
}

/// A stopped session stays as it is.
pub proof fn lemma_after_stopped(p: Seq<Instruction>, s: Session, n: nat, k: nat)
    requires
        n <= k,
        !running(p, after(p, s, n).machine),
    ensures
        after(p, s, k) == after(p, s, n),
    decreases n,
{
    if n == 0 {
        if k > 0 {
        }
    } else if running(p, s.machine) {
        lemma_after_stopped(p, feed(p, s), (n - 1) as nat, (k - 1) as nat);
    }
}

/// Running `a` steps and then `b` more is running `a + b` steps.
pub proof fn lemma_after_add(p: Seq<Instruction>, s: Session, a: nat, b: nat)
    ensures
        after(p, s, a + b) == after(p, after(p, s, a), b),
    decreases a,
{
    if a > 0 && running(p, s.machine) {
        lemma_after_add(p, feed(p, s), (a - 1) as nat, b);
        assert(after(p, s, a + b) == after(p, feed(p, s), (a + b - 1) as nat));
    }
}

/// Law: cell arithmetic wraps modulo 256; incrementing 255 gives 0 and
/// decrementing 0 gives 255.
pub proof fn lemma_cells_wrap(p: Seq<Instruction>, m: Machine, byte: u8)
    requires
        m.wf(),
        running(p, m),
    ensures
        p[m.cursor] == Instruction::Increment ==> next(p, m, byte).cell() == (m.cell() + 1) % 256,
        p[m.cursor] == Instruction::Decrement ==> next(p, m, byte).cell() == (m.cell() + 255) % 256,
        p[m.cursor] == Instruction::Increment && m.cell() == 255 ==> next(p, m, byte).cell() == 0,
        p[m.cursor] == Instruction::Decrement && m.cell() == 0 ==> next(p, m, byte).cell() == 255,
{
}

/// Law: a `MoveLeft` at the first cell halts with an error whatever the tape
/// holds; nothing further runs, however many steps are allowed.
pub proof fn lemma_move_left_at_origin_halts(p: Seq<Instruction>, s: Session, n: nat)
    requires
        0 <= s.machine.cursor < p.len(),
        p[s.machine.cursor] == Instruction::MoveLeft,
        s.machine.pointer == 0,
    ensures
        faults(p, s.machine),
        after(p, s, n) == s,
{
}

/// Law: moving right off the end of the tape grows it by one cell, which
/// reads 0; the cells already there keep their values.
pub proof fn lemma_move_right_grows(p: Seq<Instruction>, m: Machine, byte: u8)
    requires
        m.wf(),
        running(p, m),
        p[m.cursor] == Instruction::MoveRight,
        m.pointer + 1 == m.tape.len(),
    ensures
        next(p, m, byte).wf(),
        next(p, m, byte).tape.len() == m.tape.len() + 1,
        next(p, m, byte).tape.take(m.tape.len() as int) == m.tape,
        next(p, m, byte).cell() == 0,
{
    assert(next(p, m, byte).tape.take(m.tape.len() as int) =~= m.tape);
}

/// Law: a session that comes back to the same state after `k` steps never
/// finishes and never faults: the interpreter runs such a loop forever.
pub proof fn lemma_cycle_runs_forever(p: Seq<Instruction>, s: Session, k: nat, n: nat)
    requires
        k > 0,
        running(p, s.machine),
        after(p, s, k) == s,
    ensures
        running(p, after(p, s, n).machine),
    decreases n,
{
    if n < k {
        if !running(p, after(p, s, n).machine) {
            lemma_after_stopped(p, s, n, k);
        }
    } else {
        lemma_after_add(p, s, k, (n - k) as nat);
        lemma_cycle_runs_forever(p, s, k, (n - k) as nat);
    }
}

/// Law: the loop `[]` entered with a non-zero cell jumps back to itself
/// forever.
pub proof fn lemma_empty_loop_spins(p: Seq<Instruction>, s: Session, t: usize, n: nat)
    requires
        s.machine.wf(),
        0 <= s.machine.cursor < p.len(),
        t == s.machine.cursor,
        p[s.machine.cursor] == Instruction::JumpIfNonZero(t),
        s.machine.cell() != 0,
    ensures
        running(p, after(p, s, n).machine),
{
    assert(feed(p, s).machine =~= s.machine);
    assert(after(p, s, 1) == s) by {
        assert(after(p, feed(p, s), 0) == feed(p, s));
    }
    lemma_cycle_runs_forever(p, s, 1, n);
}

/// Law: in lexed code, a loop entered with a zero cell is skipped entirely:
/// one step takes the cursor just past the loop's close bracket and changes
/// nothing else.
pub proof fn lemma_zero_cell_skips_loop(
    c: Seq<char>,
    p: Seq<Instruction>,
    m: Machine,
    i: int,
    j: int,
    byte: u8,
)
    requires
        p.len() <= usize::MAX,
        lexed(c, p),
        matching(c, i, j),
        m.wf(),
        m.cursor == i,
        m.cell() == 0,
    ensures
        running(p, m),
        next(p, m, byte) == (Machine { cursor: j + 1, ..m }),
{
}

} // verus!
