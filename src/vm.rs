use vstd::prelude::*;
use crate::instruction::{Instruction, VMResult};
use crate::machine::{
    Machine, Session, TAPE_LEN, after, faults, feed, finished, initial, lemma_after_step,
    lemma_after_stopped, next, running,
};

verus! {

/// Configuration fixed when a machine is built.
#[derive(Clone, Copy, Debug, PartialEq, Eq, Structural)]
pub struct VMSettings {
    /// Input is asked for interactively rather than read silently from a stream.
    pub prompt_for_input: bool,
}

impl VMSettings {
    /// Input is read silently.
    pub fn new() -> (r: VMSettings)
        ensures
            !r.prompt_for_input,
    {
        VMSettings { prompt_for_input: false }
    }
}

/// What one step of the machine asks of its driver.
#[derive(Clone, Debug, PartialEq, Eq)]
pub enum Step {
    /// An instruction without input or output ran.
    Ran,
    /// An `Output` ran: write this byte.
    Emit(u8),
    /// The cursor is on an `Input`: obtain a byte (asking for it when
    /// `prompt` is set) and hand it to `give_input`.
    NeedInput { prompt: bool },
    /// Execution is over, with this result.
    Halted(VMResult),
}

/// The virtual machine: a growable tape of bytes, a data pointer and an
/// instruction cursor.
pub struct BFVM {
    tape: Vec<u8>,
    pointer: usize,
    cursor: usize,
    settings: VMSettings,
}

impl View for BFVM {
    type V = Machine;

    closed spec fn view(&self) -> Machine {
        Machine { tape: self.tape@, pointer: self.pointer as int, cursor: self.cursor as int }
    }
}

/// The result reported when the pointer would move left of the first cell.
fn underflow() -> (r: VMResult)
    ensures
        r is Error,
{
    VMResult::Error { message: "pointer moved left of the first cell".to_owned() }
}

impl BFVM {
    /// The machine's state is consistent: the pointer is on the tape.
    pub closed spec fn inv(&self) -> bool {
        self@.wf()
    }

    /// A fresh machine: zeroed tape, pointer and cursor at 0. Runs nothing.
    pub fn new(settings: VMSettings) -> (vm: BFVM)
        ensures
            vm.inv(),
            vm@ == initial(),
            vm.config() == settings,
    {
        let mut tape: Vec<u8> = Vec::new();
        let mut i: usize = 0;
        while i < TAPE_LEN
            invariant
                i <= TAPE_LEN,
                tape@ == Seq::new(i as nat, |k: int| 0u8),
            decreases TAPE_LEN - i,
        {
            tape.push(0);
            i = i + 1;
            assert(tape@ =~= Seq::new(i as nat, |k: int| 0u8));
        }
        BFVM { tape, pointer: 0, cursor: 0, settings }
    }

    /// The settings the machine was built with.
    pub closed spec fn config(&self) -> VMSettings {
        self.settings
    }

    /// The settings the machine was built with.
    pub fn settings(&self) -> (r: VMSettings)
        ensures
            r == self.config(),
    {
        self.settings
    }

    /// The value of the cell under the pointer.
    pub fn current_cell(&self) -> (r: u8)
        requires
            self.inv(),
        ensures
            r == self@.cell(),
    {
        self.tape[self.pointer]
    }

    /// The data pointer.
    pub fn pointer(&self) -> (r: usize)
        ensures
            r == self@.pointer,
    {
        self.pointer
    }

    /// The instruction cursor.
    pub fn cursor(&self) -> (r: usize)
        ensures
            r == self@.cursor,
    {
        self.cursor
    }

    /// Executes the instruction under the cursor, except an `Input`, which
    /// waits for `give_input`. At the end of the program, or where the pointer
    /// would leave the tape on the left, the machine stays as it is and halts.
    pub fn step(&mut self, program: &Vec<Instruction>) -> (st: Step)
        requires
            old(self).inv(),
        ensures
            final(self).inv(),
            final(self).config() == old(self).config(),
            finished(program@, old(self)@) ==> st == Step::Halted(VMResult::Success) && final(self)@
                == old(self)@,
            faults(program@, old(self)@) ==> (st matches Step::Halted(VMResult::Error { .. }))
                && final(self)@ == old(self)@,
            running(program@, old(self)@) && program@[old(self)@.cursor] == Instruction::Input
                ==> st == (Step::NeedInput { prompt: old(self).config().prompt_for_input })
                && final(self)@ == old(self)@,
            running(program@, old(self)@) && program@[old(self)@.cursor] == Instruction::Output
                ==> st == Step::Emit(old(self)@.cell()) && final(self)@ == next(
                program@,
                old(self)@,
                0,
            ),
            running(program@, old(self)@) && program@[old(self)@.cursor] != Instruction::Input
                && program@[old(self)@.cursor] != Instruction::Output ==> st == Step::Ran
                && final(self)@ == next(program@, old(self)@, 0),
    {
        if self.cursor >= program.len() {
            return Step::Halted(VMResult::Success);
        }
        let c = self.tape[self.pointer];
        match program[self.cursor] {
            Instruction::MoveRight => {
                let len = self.tape.len();
                if self.pointer + 1 == len {
                    self.tape.push(0);
                }
                self.pointer = self.pointer + 1;
                self.cursor = self.cursor + 1;
                Step::Ran
            },
            Instruction::MoveLeft => {
                if self.pointer == 0 {
                    return Step::Halted(underflow());
                }
                self.pointer = self.pointer - 1;
                self.cursor = self.cursor + 1;
                Step::Ran
            },
            Instruction::Increment => {
                self.tape.set(self.pointer, c.wrapping_add(1));
                self.cursor = self.cursor + 1;
                Step::Ran
            },
            Instruction::Decrement => {
                self.tape.set(self.pointer, c.wrapping_sub(1));
                self.cursor = self.cursor + 1;
                Step::Ran
            },
            Instruction::Output => {
                self.cursor = self.cursor + 1;
                Step::Emit(c)
            },
            Instruction::Input => Step::NeedInput { prompt: self.settings.prompt_for_input },
            Instruction::JumpIfZero(t) => {
                self.cursor = if c == 0 {
                    t
                } else {
                    self.cursor + 1
                };
                Step::Ran
            },
            Instruction::JumpIfNonZero(t) => {
                self.cursor = if c != 0 {
                    t
                } else {
                    self.cursor + 1
                };
                Step::Ran
            },
        }
    }

    /// Completes the `Input` under the cursor: stores `byte`, or 0 where the
    /// input has ended, and moves on.
    pub fn give_input(&mut self, program: &Vec<Instruction>, byte: Option<u8>)
        requires
            old(self).inv(),
            running(program@, old(self)@),
            program@[old(self)@.cursor] == Instruction::Input,
        ensures
            final(self).inv(),
            final(self).config() == old(self).config(),
            final(self)@ == next(
                program@,
                old(self)@,
                match byte {
                    Some(b) => b,
                    None => 0,
                },
            ),
    {
        let b = match byte {
            Some(b) => b,
            None => 0,
        };
        self.tape.set(self.pointer, b);
        if self.cursor < program.len() {
            self.cursor = self.cursor + 1;
        }
    }

    /// Runs `program` for at most `fuel` steps with `input` as the input
    /// stream, collecting the output. The result is `None` when the program is
    /// still running after `fuel` steps.
    pub fn run_buffered(&mut self, program: &Vec<Instruction>, input: &Vec<u8>, fuel: u64) -> (r: (
        Option<VMResult>,
        Vec<u8>,
    ))
        requires
            old(self).inv(),
        ensures
            final(self).inv(),
            final(self).config() == old(self).config(),
            ({
                let s = after(
                    program@,
                    Session { machine: old(self)@, input: input@, output: seq![] },
                    fuel as nat,
                );
                &&& final(self)@ == s.machine
                &&& r.1@ == s.output
                &&& (r.0 is None <==> running(program@, s.machine))
                &&& finished(program@, s.machine) ==> r.0 == Some(VMResult::Success)
                &&& faults(program@, s.machine) ==> (r.0 matches Some(VMResult::Error { .. }))
            }),
    {
        let ghost p = program@;
        let ghost s0 = Session { machine: self@, input: input@, output: seq![] };
        let mut out: Vec<u8> = Vec::new();
        let mut read: usize = 0;
        let mut k: u64 = 0;
        assert(input@.subrange(0, input@.len() as int) =~= input@);
        while k < fuel
            invariant
                self.inv(),
                self.config() == old(self).config(),
                p == program@,
                s0 == (Session { machine: old(self)@, input: input@, output: seq![] }),
                k <= fuel,
                read <= input@.len(),
                after(p, s0, k as nat) == (Session {
                    machine: self@,
                    input: input@.subrange(read as int, input@.len() as int),
                    output: out@,
                }),
            decreases fuel - k,
        {
            let ghost before = after(p, s0, k as nat);
            match self.step(program) {
                Step::Halted(res) => {
                    proof {
                        lemma_after_stopped(p, s0, k as nat, fuel as nat);
                    }
                    return (Some(res), out);
                },
                Step::Emit(b) => {
                    out.push(b);
                },
                Step::Ran => {},
                Step::NeedInput { .. } => {
                    let b = if read < input.len() {
                        let v = input[read];
                        read = read + 1;
                        Some(v)
                    } else {
                        None
                    };
                    self.give_input(program, b);
                    proof {
                        assert(feed(p, before).input =~= input@.subrange(
                            read as int,
                            input@.len() as int,
                        ));
                    }
                },
            }
            proof {
                lemma_after_step(p, s0, k as nat);
                assert(feed(p, before).output =~= out@);
                assert(feed(p, before).input =~= input@.subrange(read as int, input@.len() as int));
            }
            k = k + 1;
        }
        let res = if self.cursor >= program.len() {
            Some(VMResult::Success)
        } else if self.pointer == 0 && program[self.cursor] == Instruction::MoveLeft {
            Some(underflow())
        } else {
            None
        };
        (res, out)
    }
}

} // verus!
