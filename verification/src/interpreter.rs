//! The execution engine: a byte tape and the machine that walks a command
//! sequence over it.

use crate::parser::brackets::{find_close, find_open, matching_close, matching_open};
use crate::parser::parse::{
    commands_before, compiled, compiled_prefix, lemma_jumps_are_paired,
    lemma_structural_errors_empty, parse_spec, well_formed, BFCommand,
};
use vstd::prelude::*;

verus! {

/// What the tape `cells` holds at `index`: the stored byte, or zero where
/// nothing has been stored yet.
pub open spec fn read_cell(cells: Seq<u8>, index: int) -> u8 {
    if 0 <= index < cells.len() {
        cells[index]
    } else {
        0u8
    }
}

/// The tape `cells` after `value` is stored at `index`. A store beyond the
/// materialized cells grows the tape and fills the gap with zeros.
pub open spec fn write_cell(cells: Seq<u8>, index: int, value: u8) -> Seq<u8>
    recommends
        0 <= index,
{
    if index < cells.len() {
        cells.update(index, value)
    } else {
        (cells + Seq::new((index - cells.len()) as nat, |i: int| 0u8)).push(value)
    }
}

/// A store changes the cell it names and no other.
pub proof fn lemma_write_then_read(cells: Seq<u8>, index: int, value: u8, other: int)
    requires
        0 <= index,
    ensures
        read_cell(write_cell(cells, index, value), other) == if other == index {
            value
        } else {
            read_cell(cells, other)
        },
{
}

/// The tape: bytes addressed from zero, all zero until written, growing to
/// the right on demand.
#[derive(Debug)]
pub struct BFDataBuffer {
    inner: Vec<u8>,
}

impl View for BFDataBuffer {
    type V = Seq<u8>;

    closed spec fn view(&self) -> Seq<u8> {
        self.inner@
    }
}

impl BFDataBuffer {
    /// An empty tape: every cell reads zero.
    pub fn new() -> (buffer: Self)
        ensures
            buffer@ == Seq::<u8>::empty(),
    {
        Self { inner: Vec::new() }
    }

    /// The byte at `index`.
    pub fn get(&self, index: usize) -> (value: u8)
        ensures
            value == read_cell(self@, index as int),
    {
        if index < self.inner.len() {
            self.inner[index]
        } else {
            0
        }
    }

    /// Stores `value` at `index`, growing the tape when `index` lies beyond it.
    pub fn set(&mut self, index: usize, value: u8)
        requires
            index < usize::MAX,
        ensures
            final(self)@ == write_cell(old(self)@, index as int, value),
    {
        if index >= self.inner.len() {
            self.inner.resize(index + 1, 0);
        }
        self.inner[index] = value;
        assert(self@ =~= write_cell(old(self)@, index as int, value));
    }
}

/// The state of a run, as mathematics: which command comes next, which cell
/// is current, and what the tape holds.
pub struct MachineState {
    pub ip: nat,
    pub dp: nat,
    pub tape: Seq<u8>,
}

/// What the host has to do after a step.
#[derive(Debug, PartialEq, Eq, Structural, Clone, Copy)]
pub enum Action {
    /// Nothing: step again.
    Continue,
    /// Hand this byte to the output sink, then step again.
    Emit(u8),
    /// Fetch one byte from the input source and supply it.
    AwaitInput,
    /// The run is over.
    Halt,
}

/// The state in which every run starts.
pub open spec fn initial_state() -> MachineState {
    MachineState { ip: 0, dp: 0, tape: Seq::empty() }
}

/// The byte in the current cell.
pub open spec fn current_cell(s: MachineState) -> u8 {
    read_cell(s.tape, s.dp as int)
}

/// Whether the run is over: no command is left to execute.
pub open spec fn halted(commands: Seq<BFCommand>, s: MachineState) -> bool {
    s.ip >= commands.len()
}

/// Whether the next command is a read that waits for a byte.
pub open spec fn awaits_input(commands: Seq<BFCommand>, s: MachineState) -> bool {
    s.ip < commands.len() && commands[s.ip as int] == BFCommand::InputByte
}

/// One transition of the machine: the state after the next command and what
/// the host has to do. A read leaves the state as it is and asks for a byte.
pub open spec fn step_spec(commands: Seq<BFCommand>, s: MachineState) -> (MachineState, Action) {
    if s.ip >= commands.len() {
        (s, Action::Halt)
    } else {
        let cell = current_cell(s);
        let next = s.ip + 1;
        match commands[s.ip as int] {
            BFCommand::DataPtrIncrement => (
                MachineState { ip: next, dp: s.dp + 1, ..s },
                Action::Continue,
            ),
            BFCommand::DataPtrDecrement => (
                MachineState {
                    ip: next,
                    dp: if s.dp > 0 {
                        (s.dp - 1) as nat
                    } else {
                        0
                    },
                    ..s
                },
                Action::Continue,
            ),
            BFCommand::Increment => (
                MachineState {
                    ip: next,
                    tape: write_cell(s.tape, s.dp as int, ((cell + 1) % 256) as u8),
                    ..s
                },
                Action::Continue,
            ),
            BFCommand::Decrement => (
                MachineState {
                    ip: next,
                    tape: write_cell(s.tape, s.dp as int, ((cell + 255) % 256) as u8),
                    ..s
                },
                Action::Continue,
            ),
            BFCommand::OutputByte => (MachineState { ip: next, ..s }, Action::Emit(cell)),
            BFCommand::InputByte => (s, Action::AwaitInput),
            BFCommand::ForwardGoto(target) => (
                MachineState {
                    ip: if cell == 0 {
                        target as nat
                    } else {
                        next
                    },
                    ..s
                },
                Action::Continue,
            ),
            BFCommand::BackwardGoto(target) => (
                MachineState {
                    ip: if cell != 0 {
                        target as nat
                    } else {
                        next
                    },
                    ..s
                },
                Action::Continue,
            ),
        }
    }
}

/// The state after a waiting read is given `byte`.
pub open spec fn feed_spec(s: MachineState, byte: u8) -> MachineState {
    MachineState { ip: s.ip + 1, tape: write_cell(s.tape, s.dp as int, byte), ..s }
}

/// An instruction pointer, a data pointer and a tape: one run in progress.
/// The command sequence is not part of it, so that one sequence can drive
/// any number of runs.
#[derive(Debug)]
pub struct Machine {
    pub instruction_pointer: usize,
    pub data_pointer: usize,
    pub data_buffer: BFDataBuffer,
}

impl View for Machine {
    type V = MachineState;

    open spec fn view(&self) -> MachineState {
        MachineState {
            ip: self.instruction_pointer as nat,
            dp: self.data_pointer as nat,
            tape: self.data_buffer@,
        }
    }
}

impl Machine {
    /// A machine at the start of a run.
    pub fn new() -> (machine: Self)
        ensures
            machine@ == initial_state(),
    {
        Machine { instruction_pointer: 0, data_pointer: 0, data_buffer: BFDataBuffer::new() }
    }

    /// Whether the run is over.
    pub fn is_halted(&self, commands: &Vec<BFCommand>) -> (over: bool)
        ensures
            over == halted(commands@, self@),
    {
        self.instruction_pointer >= commands.len()
    }

    /// Whether the next command is a read that waits for a byte.
    pub fn is_awaiting_input(&self, commands: &Vec<BFCommand>) -> (waiting: bool)
        ensures
            waiting == awaits_input(commands@, self@),
    {
        if self.instruction_pointer < commands.len() {
            match commands[self.instruction_pointer] {
                BFCommand::InputByte => true,
                _ => false,
            }
        } else {
            false
        }
    }

    /// Executes the next command and says what the host has to do. At a
    /// read the machine stays where it is until `supply_input` is called.
    /// The data pointer must be able to move right.
    pub fn step(&mut self, commands: &Vec<BFCommand>) -> (action: Action)
        requires
            old(self).data_pointer < usize::MAX,
        ensures
            (final(self)@, action) == step_spec(commands@, old(self)@),
    {
        if self.instruction_pointer >= commands.len() {
            return Action::Halt;
        }
        let cur = self.data_buffer.get(self.data_pointer);
        match commands[self.instruction_pointer] {
            BFCommand::DataPtrIncrement => {
                self.data_pointer += 1;
                self.instruction_pointer += 1;
                Action::Continue
            },
            BFCommand::DataPtrDecrement => {
                if self.data_pointer > 0 {
                    self.data_pointer -= 1;
                }
                self.instruction_pointer += 1;
                Action::Continue
            },
            BFCommand::Increment => {
                if cur == 255 {
                    self.data_buffer.set(self.data_pointer, 0);
                } else {
                    self.data_buffer.set(self.data_pointer, cur + 1);
                }
                self.instruction_pointer += 1;
                Action::Continue
            },
            BFCommand::Decrement => {
                if cur > 0 {
                    self.data_buffer.set(self.data_pointer, cur - 1);
                } else {
                    self.data_buffer.set(self.data_pointer, 255);
                }
                self.instruction_pointer += 1;
                Action::Continue
            },
            BFCommand::OutputByte => {
                self.instruction_pointer += 1;
                Action::Emit(cur)
            },
            BFCommand::InputByte => Action::AwaitInput,
            BFCommand::ForwardGoto(forward_index) => {
                if cur == 0 {
                    self.instruction_pointer = forward_index;
                } else {
                    self.instruction_pointer += 1;
                }
                Action::Continue
            },
            BFCommand::BackwardGoto(back_index) => {
                if cur != 0 {
                    self.instruction_pointer = back_index;
                } else {
                    self.instruction_pointer += 1;
                }
                Action::Continue
            },
        }
    }

    /// Stores the byte that a waiting read asked for and moves on.
    pub fn supply_input(&mut self, commands: &Vec<BFCommand>, byte: u8)
        requires
            awaits_input(commands@, old(self)@),
            old(self).data_pointer < usize::MAX,
        ensures
            final(self)@ == feed_spec(old(self)@, byte),
    {
        assert(self.instruction_pointer < commands.len());
        self.data_buffer.set(self.data_pointer, byte);
        self.instruction_pointer += 1;
    }
}

/// How a bounded run ended.
#[derive(Debug, PartialEq, Eq, Structural, Clone, Copy)]
pub enum Outcome {
    /// The instruction pointer went past the last command.
    Completed,
    /// A read found the input used up: the run is aborted.
    InputExhausted,
    /// The allowed number of commands was executed and the program had
    /// not halted.
    StepLimit,
}

/// What a bounded run leaves behind, as mathematics.
pub struct Run {
    pub state: MachineState,
    pub output: Seq<u8>,
    pub outcome: Outcome,
}

/// What a bounded run leaves behind: how it ended, the bytes it emitted in
/// order, and the machine as it stood at the end.
#[derive(Debug)]
pub struct Execution {
    pub outcome: Outcome,
    pub output: Vec<u8>,
    pub machine: Machine,
}

impl View for Execution {
    type V = Run;

    open spec fn view(&self) -> Run {
        Run { state: self.machine@, output: self.output@, outcome: self.outcome }
    }
}

/// The bytes that an action hands to the output sink.
pub open spec fn emitted(action: Action) -> Seq<u8> {
    match action {
        Action::Emit(byte) => seq![byte],
        _ => Seq::empty(),
    }
}

/// The run from state `s` that executes at most `fuel` commands and takes
/// the bytes of `input` in order, one for each read.
pub open spec fn run_spec(
    commands: Seq<BFCommand>,
    s: MachineState,
    input: Seq<u8>,
    fuel: nat,
) -> Run
    decreases fuel,
{
    if halted(commands, s) {
        Run { state: s, output: Seq::empty(), outcome: Outcome::Completed }
    } else if fuel == 0 {
        Run { state: s, output: Seq::empty(), outcome: Outcome::StepLimit }
    } else if awaits_input(commands, s) {
        if input.len() == 0 {
            Run { state: s, output: Seq::empty(), outcome: Outcome::InputExhausted }
        } else {
            run_spec(commands, feed_spec(s, input[0]), input.drop_first(), (fuel - 1) as nat)
        }
    } else {
        let (after, action) = step_spec(commands, s);
        let rest = run_spec(commands, after, input, (fuel - 1) as nat);
        Run { output: emitted(action) + rest.output, ..rest }
    }
}

/// Runs `commands` from the initial state on a fresh tape, for at most
/// `max_steps` commands. Each read takes the next byte of `input`; a read
/// that finds none left aborts the run.
pub fn interpret(commands: Vec<BFCommand>, input: Vec<u8>, max_steps: usize) -> (run: Execution)
    ensures
        run@ == run_spec(commands@, initial_state(), input@, max_steps as nat),
{
    let mut machine = Machine::new();
    let mut output: Vec<u8> = Vec::new();
    let mut consumed: usize = 0;
    let mut steps: usize = 0;
    let mut finished: Option<Outcome> = None;
    let ghost total = run_spec(commands@, initial_state(), input@, max_steps as nat);
    assert(input@.skip(0) =~= input@);
    assert(output@ + total.output =~= total.output);
    while finished.is_none()
        invariant
            steps <= max_steps,
            consumed <= input@.len(),
            machine.data_pointer <= steps,
            total.state == run_spec(
                commands@,
                machine@,
                input@.skip(consumed as int),
                (max_steps - steps) as nat,
            ).state,
            total.outcome == run_spec(
                commands@,
                machine@,
                input@.skip(consumed as int),
                (max_steps - steps) as nat,
            ).outcome,
            total.output == output@ + run_spec(
                commands@,
                machine@,
                input@.skip(consumed as int),
                (max_steps - steps) as nat,
            ).output,
            finished matches Some(outcome) ==> run_spec(
                commands@,
                machine@,
                input@.skip(consumed as int),
                (max_steps - steps) as nat,
            ) == (Run { state: machine@, output: Seq::empty(), outcome }),
        decreases
            (max_steps - steps) + (if finished is None {
                1int
            } else {
                0int
            }),
    {
        let ghost before = machine@;
        let ghost pending_input = input@.skip(consumed as int);
        let ghost fuel = (max_steps - steps) as nat;
        let ghost emitted_before = output@;
        if machine.is_halted(&commands) {
            finished = Some(Outcome::Completed);
        } else if steps == max_steps {
            finished = Some(Outcome::StepLimit);
        } else {
            match machine.step(&commands) {
                Action::Continue => {
                    steps += 1;
                    proof {
                        let rest = run_spec(commands@, machine@, pending_input, (fuel - 1) as nat);
                        assert(emitted_before + (Seq::<u8>::empty() + rest.output)
                            =~= emitted_before + rest.output);
                    }
                },
                Action::Emit(byte) => {
                    output.push(byte);
                    steps += 1;
                    proof {
                        let rest = run_spec(commands@, machine@, pending_input, (fuel - 1) as nat);
                        assert(emitted_before + (seq![byte] + rest.output)
                            =~= emitted_before.push(byte) + rest.output);
                    }
                },
                Action::AwaitInput => {
                    if consumed < input.len() {
                        machine.supply_input(&commands, input[consumed]);
                        consumed += 1;
                        steps += 1;
                        assert(input@.skip(consumed as int) =~= pending_input.drop_first());
                    } else {
                        finished = Some(Outcome::InputExhausted);
                    }
                },
                Action::Halt => {
                    finished = Some(Outcome::Completed);
                },
            }
        }
    }
    let outcome = finished.unwrap();
    assert(output@ + Seq::<u8>::empty() =~= output@);
    Execution { outcome, output, machine }
}

/// On a compiled program the instruction pointer never leaves the range
/// from zero to the length of the program.
pub proof fn lemma_step_stays_in_program(src: Seq<char>, s: MachineState)
    requires
        src.len() <= usize::MAX,
        well_formed(src),
        s.ip <= compiled(src).len(),
    ensures
        step_spec(compiled(src), s).0.ip <= compiled(src).len(),
{
    if s.ip < compiled(src).len() {
        lemma_jumps_are_paired(src, s.ip as int);
    }
}

/// A loop of a compiled program that is met on a zero cell is passed
/// over: the forward jump lands on its `BackwardGoto`, which falls through,
/// so that two steps later the command after the loop is next, and neither
/// the tape nor the data pointer has changed.
pub proof fn lemma_zero_cell_skips_loop(src: Seq<char>, s: MachineState)
    requires
        src.len() <= usize::MAX,
        well_formed(src),
        s.ip < compiled(src).len(),
        compiled(src)[s.ip as int] is ForwardGoto,
        current_cell(s) == 0,
    ensures
        ({
            let commands = compiled(src);
            let close = commands[s.ip as int]->ForwardGoto_0;
            let landed = step_spec(commands, s).0;
            let passed = step_spec(commands, landed).0;
            &&& s.ip < close < commands.len()
            &&& commands[close as int] == BFCommand::BackwardGoto(s.ip as usize)
            &&& landed == (MachineState { ip: close as nat, ..s })
            &&& passed == (MachineState { ip: (close + 1) as nat, ..s })
        }),
{
    lemma_jumps_are_paired(src, s.ip as int);
}

/// At the end of a loop of a compiled program, a nonzero cell sends the
/// machine back to the loop's own `ForwardGoto`, which tests the cell again
/// and enters the body.
pub proof fn lemma_nonzero_cell_repeats_loop(src: Seq<char>, s: MachineState)
    requires
        src.len() <= usize::MAX,
        well_formed(src),
        s.ip < compiled(src).len(),
        compiled(src)[s.ip as int] is BackwardGoto,
        current_cell(s) != 0,
    ensures
        ({
            let commands = compiled(src);
            let open = commands[s.ip as int]->BackwardGoto_0;
            let landed = step_spec(commands, s).0;
            let entered = step_spec(commands, landed).0;
            &&& open < s.ip
            &&& commands[open as int] == BFCommand::ForwardGoto(s.ip as usize)
            &&& landed == (MachineState { ip: open as nat, ..s })
            &&& entered == (MachineState { ip: (open + 1) as nat, ..s })
        }),
{
    lemma_jumps_are_paired(src, s.ip as int);
}

/// The program `[-]` as a command sequence.
pub open spec fn clear_loop() -> Seq<BFCommand> {
    seq![BFCommand::ForwardGoto(2), BFCommand::Decrement, BFCommand::BackwardGoto(0)]
}

/// The clearing loop is what the text `[-]` compiles to.
pub proof fn lemma_clear_loop_is_compiled()
    ensures
        parse_spec("[-]"@) == Ok::<Seq<BFCommand>, Seq<Seq<char>>>(clear_loop()),
{
    reveal_strlit("[-]");
    let src = "[-]"@;
    assert(src.len() == 3);
    assert(src[0] == '[' && src[1] == '-' && src[2] == ']');
    reveal_with_fuel(find_close, 5);
    reveal_with_fuel(find_open, 5);
    reveal_with_fuel(commands_before, 5);
    reveal_with_fuel(compiled_prefix, 5);
    assert(matching_close(src, 0) == 2);
    assert(matching_open(src, 2) == 0);
    assert(well_formed(src));
    lemma_structural_errors_empty(src);
    assert(compiled(src) =~= clear_loop());
}

/// The clearing loop halts whatever byte the current cell holds, within
/// three commands for each unit of that byte and two more. It leaves the
/// cell at zero, every other cell as it was, and emits nothing. Entered on
/// a zero cell it does not touch the tape at all.
pub proof fn lemma_clear_loop_halts(s: MachineState, input: Seq<u8>)
    requires
        s.ip == 0,
    ensures
        ({
            let run = run_spec(clear_loop(), s, input, 3 * (current_cell(s) as nat) + 2);
            &&& run.outcome == Outcome::Completed
            &&& run.output =~= Seq::<u8>::empty()
            &&& run.state.ip == 3
            &&& run.state.dp == s.dp
            &&& current_cell(run.state) == 0
            &&& forall|i: int| i != s.dp ==> read_cell(run.state.tape, i) == read_cell(s.tape, i)
            &&& current_cell(s) == 0 ==> run.state.tape == s.tape
        }),
    decreases current_cell(s),
{
    let program = clear_loop();
    let v = current_cell(s);
    let fuel = 3 * (v as nat) + 2;
    let s1 = step_spec(program, s).0;
    if v == 0 {
        let s2 = step_spec(program, s1).0;
        assert(s1 == MachineState { ip: 2, ..s });
        assert(s2 == MachineState { ip: 3, ..s });
        let r2 = run_spec(program, s2, input, 0);
        let r1 = run_spec(program, s1, input, 1);
        assert(r2.outcome == Outcome::Completed && r2.state == s2);
        assert(r1.state == r2.state && r1.outcome == r2.outcome && r1.output
            =~= Seq::<u8>::empty());
        let r0 = run_spec(program, s, input, 2);
        assert(r0.state == r1.state && r0.outcome == r1.outcome && r0.output
            =~= Seq::<u8>::empty());
    } else {
        let s2 = step_spec(program, s1).0;
        let s3 = step_spec(program, s2).0;
        let lowered = write_cell(s.tape, s.dp as int, (v - 1) as u8);
        assert(s1 == MachineState { ip: 1, ..s });
        assert(s2 == MachineState { ip: 2, tape: lowered, ..s });
        lemma_write_then_read(s.tape, s.dp as int, (v - 1) as u8, s.dp as int);
        assert(current_cell(s2) == v - 1);
        assert forall|i: int| i != s.dp implies read_cell(lowered, i) == read_cell(s.tape, i) by {
            lemma_write_then_read(s.tape, s.dp as int, (v - 1) as u8, i);
        }
        let r3 = run_spec(program, s3, input, (fuel - 3) as nat);
        let r2 = run_spec(program, s2, input, (fuel - 2) as nat);
        let r1 = run_spec(program, s1, input, (fuel - 1) as nat);
        let r0 = run_spec(program, s, input, fuel);
        assert(r2.state == r3.state && r2.outcome == r3.outcome && r2.output
            =~= Seq::<u8>::empty() + r3.output);
        assert(r1.state == r2.state && r1.outcome == r2.outcome && r1.output
            =~= Seq::<u8>::empty() + r2.output);
        assert(r0.state == r1.state && r0.outcome == r1.outcome && r0.output
            =~= Seq::<u8>::empty() + r1.output);
        if v == 1 {
            assert(s3 == MachineState { ip: 3, tape: lowered, ..s });
            assert(r3.outcome == Outcome::Completed && r3.state == s3 && r3.output
                =~= Seq::<u8>::empty());
        } else {
            assert(s3 == MachineState { ip: 0, tape: lowered, ..s });
            assert(current_cell(s3) == v - 1);
            assert(fuel - 3 == 3 * (current_cell(s3) as nat) + 2);
            lemma_clear_loop_halts(s3, input);
            assert forall|i: int| i != s.dp implies read_cell(r3.state.tape, i) == read_cell(
                s.tape,
                i,
            ) by {
                assert(read_cell(r3.state.tape, i) == read_cell(s3.tape, i));
            }
        }
        assert(r0.output =~= Seq::<u8>::empty());
    }
}

} // verus!
