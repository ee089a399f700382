use brainfuck::interpreter::{interpret, Action, BFDataBuffer, Machine, Outcome};
use brainfuck::parser::{parse, BFCommand};

fn compile(code: &str) -> Vec<BFCommand> {
    parse(String::from(code)).unwrap()
}

fn machine_with_cell(value: u8) -> Machine {
    let mut machine = Machine::new();
    machine.data_buffer.set(0, value);
    machine
}

#[test]
fn a_fresh_tape_reads_zero_everywhere() {
    let tape = BFDataBuffer::new();
    assert_eq!(tape.get(0), 0);
    assert_eq!(tape.get(1), 0);
    assert_eq!(tape.get(1_000_000), 0);
    assert_eq!(tape.get(usize::MAX), 0);
}

#[test]
fn a_written_cell_reads_back() {
    let mut tape = BFDataBuffer::new();
    tape.set(0, 7);
    assert_eq!(tape.get(0), 7);
    tape.set(0, 9);
    assert_eq!(tape.get(0), 9);
}

#[test]
fn a_write_beyond_the_end_fills_the_gap_with_zeros() {
    let mut tape = BFDataBuffer::new();
    tape.set(5, 42);
    for index in 0..5 {
        assert_eq!(tape.get(index), 0);
    }
    assert_eq!(tape.get(5), 42);
    assert_eq!(tape.get(6), 0);
    tape.set(2, 1);
    assert_eq!(tape.get(2), 1);
    assert_eq!(tape.get(5), 42);
}

#[test]
fn a_new_machine_starts_at_zero() {
    let machine = Machine::new();
    assert_eq!(machine.instruction_pointer, 0);
    assert_eq!(machine.data_pointer, 0);
    assert_eq!(machine.data_buffer.get(0), 0);
}

#[test]
fn increment_wraps_from_255_to_0() {
    let commands = vec![BFCommand::Increment];
    let mut machine = machine_with_cell(255);
    assert_eq!(machine.step(&commands), Action::Continue);
    assert_eq!(machine.data_buffer.get(0), 0);
    assert_eq!(machine.instruction_pointer, 1);
}

#[test]
fn decrement_wraps_from_0_to_255() {
    let commands = vec![BFCommand::Decrement];
    let mut machine = machine_with_cell(0);
    assert_eq!(machine.step(&commands), Action::Continue);
    assert_eq!(machine.data_buffer.get(0), 255);
    assert_eq!(machine.instruction_pointer, 1);
}

#[test]
fn increment_and_decrement_change_the_cell_by_one() {
    let commands = vec![BFCommand::Increment, BFCommand::Increment, BFCommand::Decrement];
    let mut machine = machine_with_cell(41);
    machine.step(&commands);
    assert_eq!(machine.data_buffer.get(0), 42);
    machine.step(&commands);
    assert_eq!(machine.data_buffer.get(0), 43);
    machine.step(&commands);
    assert_eq!(machine.data_buffer.get(0), 42);
}

#[test]
fn move_left_at_zero_stays_at_zero() {
    let commands = vec![BFCommand::DataPtrDecrement];
    let mut machine = Machine::new();
    assert_eq!(machine.step(&commands), Action::Continue);
    assert_eq!(machine.data_pointer, 0);
    assert_eq!(machine.instruction_pointer, 1);
}

#[test]
fn the_data_pointer_moves_right_and_left() {
    let commands = vec![
        BFCommand::DataPtrIncrement,
        BFCommand::DataPtrIncrement,
        BFCommand::DataPtrDecrement,
    ];
    let mut machine = Machine::new();
    machine.step(&commands);
    assert_eq!(machine.data_pointer, 1);
    machine.step(&commands);
    assert_eq!(machine.data_pointer, 2);
    machine.step(&commands);
    assert_eq!(machine.data_pointer, 1);
    assert_eq!(machine.instruction_pointer, 3);
}

#[test]
fn output_emits_the_current_cell() {
    let commands = vec![BFCommand::OutputByte];
    let mut machine = machine_with_cell(200);
    assert_eq!(machine.step(&commands), Action::Emit(200));
    assert_eq!(machine.instruction_pointer, 1);
    assert_eq!(machine.data_buffer.get(0), 200);
}

#[test]
fn a_read_waits_until_a_byte_is_supplied() {
    let commands = vec![BFCommand::InputByte];
    let mut machine = Machine::new();
    assert!(machine.is_awaiting_input(&commands));
    assert_eq!(machine.step(&commands), Action::AwaitInput);
    assert_eq!(machine.instruction_pointer, 0);
    assert_eq!(machine.step(&commands), Action::AwaitInput);
    machine.supply_input(&commands, 33);
    assert_eq!(machine.instruction_pointer, 1);
    assert_eq!(machine.data_buffer.get(0), 33);
    assert!(!machine.is_awaiting_input(&commands));
}

#[test]
fn a_forward_jump_is_taken_on_a_zero_cell_only() {
    let commands = vec![
        BFCommand::ForwardGoto(2),
        BFCommand::Decrement,
        BFCommand::BackwardGoto(0),
    ];
    let mut machine = machine_with_cell(0);
    assert_eq!(machine.step(&commands), Action::Continue);
    assert_eq!(machine.instruction_pointer, 2);
    let mut machine = machine_with_cell(3);
    assert_eq!(machine.step(&commands), Action::Continue);
    assert_eq!(machine.instruction_pointer, 1);
}

#[test]
fn a_backward_jump_is_taken_on_a_nonzero_cell_only() {
    let commands = vec![
        BFCommand::ForwardGoto(2),
        BFCommand::Decrement,
        BFCommand::BackwardGoto(0),
    ];
    let mut machine = machine_with_cell(3);
    machine.instruction_pointer = 2;
    assert_eq!(machine.step(&commands), Action::Continue);
    assert_eq!(machine.instruction_pointer, 0);
    let mut machine = machine_with_cell(0);
    machine.instruction_pointer = 2;
    assert_eq!(machine.step(&commands), Action::Continue);
    assert_eq!(machine.instruction_pointer, 3);
}

#[test]
fn a_machine_past_the_last_command_is_halted() {
    let commands = vec![BFCommand::Increment];
    let mut machine = Machine::new();
    assert!(!machine.is_halted(&commands));
    machine.step(&commands);
    assert!(machine.is_halted(&commands));
    assert_eq!(machine.step(&commands), Action::Halt);
    assert_eq!(machine.instruction_pointer, 1);
    assert_eq!(machine.data_buffer.get(0), 1);
    let commands: Vec<BFCommand> = vec![];
    let mut machine = Machine::new();
    assert!(machine.is_halted(&commands));
    assert_eq!(machine.step(&commands), Action::Halt);
}

#[test]
fn echo_gives_back_the_byte_it_read() {
    let run = interpret(compile(",."), vec![65], 100);
    assert_eq!(run.outcome, Outcome::Completed);
    assert_eq!(run.output, vec![65]);
    assert_eq!(run.machine.instruction_pointer, 2);
}

#[test]
fn the_clearing_loop_leaves_a_nonzero_cell_at_zero() {
    for value in [1u8, 2, 7, 200, 255] {
        let commands = compile("[-]");
        let mut machine = machine_with_cell(value);
        let mut steps = 0usize;
        while !machine.is_halted(&commands) {
            assert_eq!(machine.step(&commands), Action::Continue);
            steps += 1;
            assert!(steps <= 3 * 255);
        }
        assert_eq!(steps, 3 * value as usize);
        assert_eq!(machine.data_buffer.get(0), 0);
        assert_eq!(machine.instruction_pointer, 3);
        assert_eq!(machine.data_pointer, 0);
    }
}

#[test]
fn the_clearing_loop_on_a_zero_cell_runs_no_iteration() {
    let commands = compile("[-]");
    let mut machine = Machine::new();
    assert_eq!(machine.step(&commands), Action::Continue);
    assert_eq!(machine.instruction_pointer, 2);
    assert_eq!(machine.step(&commands), Action::Continue);
    assert_eq!(machine.instruction_pointer, 3);
    assert!(machine.is_halted(&commands));
    assert_eq!(machine.data_buffer.get(0), 0);

    let run = interpret(compile("[-]"), vec![], 2);
    assert_eq!(run.outcome, Outcome::Completed);
    assert_eq!(run.machine.data_buffer.get(0), 0);
}

#[test]
fn the_clearing_loop_after_three_increments() {
    let run = interpret(compile("+++[-]"), vec![], 3 + 3 * 3);
    assert_eq!(run.outcome, Outcome::Completed);
    assert_eq!(run.machine.data_buffer.get(0), 0);
    assert_eq!(run.output, vec![]);
    let run = interpret(compile("+++[-]"), vec![], 3 + 3 * 3 - 1);
    assert_eq!(run.outcome, Outcome::StepLimit);
}

#[test]
fn a_read_without_input_aborts_the_run() {
    let run = interpret(compile("+.,."), vec![], 100);
    assert_eq!(run.outcome, Outcome::InputExhausted);
    assert_eq!(run.output, vec![1]);
    assert_eq!(run.machine.instruction_pointer, 2);
    assert_eq!(run.machine.data_buffer.get(0), 1);
}

#[test]
fn reads_take_the_input_in_order() {
    let run = interpret(compile(",>,>,<<.>.>."), vec![3, 1, 2, 9], 100);
    assert_eq!(run.outcome, Outcome::Completed);
    assert_eq!(run.output, vec![3, 1, 2]);
}

#[test]
fn a_program_that_does_not_halt_stops_at_the_step_limit() {
    let run = interpret(compile("+[]"), vec![], 1000);
    assert_eq!(run.outcome, Outcome::StepLimit);
    assert_eq!(run.machine.data_buffer.get(0), 1);
    assert_eq!(run.output, vec![]);
}

#[test]
fn a_program_that_halts_exactly_at_the_limit_is_completed() {
    let run = interpret(compile("+++"), vec![], 3);
    assert_eq!(run.outcome, Outcome::Completed);
    assert_eq!(run.machine.data_buffer.get(0), 3);
    let run = interpret(compile("+++"), vec![], 2);
    assert_eq!(run.outcome, Outcome::StepLimit);
    assert_eq!(run.machine.data_buffer.get(0), 2);
    let run = interpret(compile("+++"), vec![], 0);
    assert_eq!(run.outcome, Outcome::StepLimit);
    assert_eq!(run.machine.instruction_pointer, 0);
}

#[test]
fn an_empty_command_sequence_completes_at_once() {
    let run = interpret(vec![], vec![1, 2], 0);
    assert_eq!(run.outcome, Outcome::Completed);
    assert_eq!(run.output, vec![]);
}

#[test]
fn cell_arithmetic_wraps_in_a_whole_run() {
    let run = interpret(compile("-.+."), vec![], 10);
    assert_eq!(run.outcome, Outcome::Completed);
    assert_eq!(run.output, vec![255, 0]);
}

#[test]
fn moving_left_at_the_start_is_ignored_in_a_whole_run() {
    let run = interpret(compile("<<+>++<."), vec![], 20);
    assert_eq!(run.outcome, Outcome::Completed);
    assert_eq!(run.output, vec![1]);
    assert_eq!(run.machine.data_pointer, 0);
    assert_eq!(run.machine.data_buffer.get(1), 2);
}

#[test]
fn a_loop_moves_a_value_to_the_next_cell() {
    let run = interpret(compile(",[->+<]>."), vec![5], 1000);
    assert_eq!(run.outcome, Outcome::Completed);
    assert_eq!(run.output, vec![5]);
    assert_eq!(run.machine.data_buffer.get(0), 0);
}

#[test]
fn hello_world() {
    let code = "++++++++[>++++[>++>+++>+++>+<<<<-]>+>+>->>+[<]<-]>>.>---.+++++++..+++.>>.<-.<.+++.------.--------.>>+.>++.";
    let run = interpret(compile(code), vec![], 100_000);
    assert_eq!(run.outcome, Outcome::Completed);
    assert_eq!(run.output, b"Hello World!\n".to_vec());
}

#[test]
fn one_command_sequence_drives_several_runs() {
    let commands = compile(",+.");
    let first = interpret(commands.clone(), vec![1], 10);
    let second = interpret(commands, vec![10], 10);
    assert_eq!(first.output, vec![2]);
    assert_eq!(second.output, vec![11]);
}
