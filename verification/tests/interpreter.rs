use brainfuck::interpreter::{
    read_byte, run, write_byte, Error, Machine, Memory, Settings, StepOutcome, DEFAULT_MAX_MEMORY,
};
use brainfuck::parser::parse;

fn go(source: &str, input: Vec<u8>, max_steps: usize) -> Result<Vec<u8>, Error> {
    let program = parse(source).expect("source assembles");
    let settings = Settings { max_memory: 1024, max_steps: Some(max_steps) };
    run(&program, &settings, &input)
}

#[test]
fn default_settings() {
    let s = Settings::default();
    assert_eq!(s.max_memory, DEFAULT_MAX_MEMORY);
    assert_eq!(s.max_steps, None);
}

#[test]
fn memory_starts_zeroed() {
    let mut m = Memory::new(4);
    assert_eq!(m.get_cell(), 0);
}

#[test]
fn memory_set_then_get() {
    let mut m = Memory::new(4);
    m.set_cell(42);
    assert_eq!(m.get_cell(), 42);
}

#[test]
fn memory_increment_wraps_at_256() {
    let mut m = Memory::new(1);
    m.set_cell(255);
    m.add_cell(1);
    assert_eq!(m.get_cell(), 0);
}

#[test]
fn memory_decrement_wraps_below_zero() {
    let mut m = Memory::new(1);
    m.add_cell(-1);
    assert_eq!(m.get_cell(), 255);
}

#[test]
fn memory_moves_within_bounds_never_fail() {
    let mut m = Memory::new(3);
    assert_eq!(m.move_ptr(2), Ok(()));
    assert_eq!(m.move_ptr(-2), Ok(()));
    assert_eq!(m.move_ptr(1), Ok(()));
}

#[test]
fn memory_move_past_end_fails() {
    let mut m = Memory::new(3);
    assert_eq!(m.move_ptr(3), Err(Error::MemoryOutOfBounds));
}

#[test]
fn memory_move_below_zero_fails() {
    let mut m = Memory::new(3);
    assert_eq!(m.move_ptr(-1), Err(Error::MemoryOutOfBounds));
}

#[test]
fn read_byte_returns_next_byte() {
    let input = vec![0x41, 0x42];
    let mut pos = 0;
    assert_eq!(read_byte(&input, &mut pos), Ok(0x41));
    assert_eq!(pos, 1);
}

#[test]
fn read_byte_past_end_yields_zero() {
    let input = Vec::new();
    let mut pos = 0;
    assert_eq!(read_byte(&input, &mut pos), Ok(0));
    assert_eq!(pos, 0);
}

#[test]
fn write_byte_appends() {
    let mut output = vec![1];
    assert_eq!(write_byte(&mut output, 2), Ok(()));
    assert_eq!(output, vec![1, 2]);
}

#[test]
fn run_empty_program() {
    assert_eq!(go("", vec![], 10), Ok(vec![]));
}

#[test]
fn run_increment_then_write() {
    assert_eq!(go("+.", vec![], 10), Ok(vec![0x01]));
}

#[test]
fn run_two_increments_then_write() {
    assert_eq!(go("++.", vec![], 10), Ok(vec![0x02]));
}

#[test]
fn run_copies_input_to_output() {
    assert_eq!(go(",.", vec![0x41], 10), Ok(vec![0x41]));
}

#[test]
fn run_read_past_end_of_input_yields_zero() {
    assert_eq!(go("+,.", vec![], 10), Ok(vec![0x00]));
}

#[test]
fn run_clear_loop_zeroes_cell() {
    assert_eq!(go(",[-].", vec![7], 64), Ok(vec![0x00]));
}

#[test]
fn run_wraps_cell_arithmetic() {
    // 0 - 1 wraps to 255, then + 1 wraps back to 0.
    assert_eq!(go("-.+.", vec![], 10), Ok(vec![0xFF, 0x00]));
}

#[test]
fn run_loop_moves_value_to_next_cell() {
    assert_eq!(go("++[->+<]>.", vec![], 64), Ok(vec![0x02]));
}

#[test]
fn run_move_left_of_zero_fails() {
    assert_eq!(go("<", vec![], 10), Err(Error::MemoryOutOfBounds));
}

#[test]
fn run_move_past_tape_end_fails() {
    let program = parse(">").expect("source assembles");
    let settings = Settings { max_memory: 1, max_steps: Some(10) };
    assert_eq!(run(&program, &settings, &vec![]), Err(Error::MemoryOutOfBounds));
}

#[test]
fn run_step_ceiling_below_need_aborts() {
    assert_eq!(go("+++.", vec![], 3), Err(Error::StepLimitExceeded));
}

#[test]
fn run_step_ceiling_at_need_completes() {
    assert_eq!(go("+++.", vec![], 4), Ok(vec![0x03]));
}

#[test]
fn unmatched_open_never_reaches_the_engine() {
    assert!(parse("[").is_err());
}

#[test]
fn machine_steps_drive_a_run_to_completion() {
    let program = parse("++[->+<]>.").expect("source assembles");
    let input = Vec::new();
    let mut machine = Machine::new(64);
    let mut executed = 0u64;
    loop {
        match machine.step(&program, &input) {
            StepOutcome::Running => {
                executed += 1;
            },
            StepOutcome::Done => break,
            StepOutcome::Failed(e) => panic!("unexpected failure: {:?}", e),
        }
    }
    assert!(executed > 0);
    assert_eq!(machine.into_output(), vec![0x02]);
}

#[test]
fn machine_reports_faults_and_stops() {
    let program = parse("<").expect("source assembles");
    let input = Vec::new();
    let mut machine = Machine::new(8);
    assert_eq!(machine.step(&program, &input), StepOutcome::Failed(Error::MemoryOutOfBounds));
    assert!(!machine.halted(&program));
}
