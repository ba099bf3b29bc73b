//! Execution engine: runs an assembled program against a bounded tape of
//! wrapping byte cells, consuming bytes from an input buffer and collecting
//! the bytes the program writes.

use crate::parser::Instruction;
use vstd::pervasive::VecAdditionalExecFns;
use vstd::prelude::*;

verus! {

/// A failure of the execution engine. Any of these ends the run at once; the
/// output already produced stays produced.
#[derive(Clone, Debug, PartialEq, Eq)]
pub enum Error {
    /// The tape cursor was about to leave `[0, tape size)`.
    MemoryOutOfBounds,
    /// The input collaborator failed for a reason other than end of input.
    ReadError(String),
    /// The output collaborator failed.
    WriteError(String),
    /// The configured step ceiling was exceeded before the program finished.
    StepLimitExceeded,
}

/// Resource limits for one run: the tape size in cells, and an optional
/// ceiling on the number of executed instructions (`None` leaves the run
/// unbounded).
#[derive(Clone, Copy, Debug, PartialEq, Eq, Structural)]
pub struct Settings {
    pub max_memory: usize,
    pub max_steps: Option<usize>,
}

/// The default tape size, in cells.
pub const DEFAULT_MAX_MEMORY: usize = 65536;

impl Default for Settings {
    /// A tape of `DEFAULT_MAX_MEMORY` cells and no step ceiling.
    fn default() -> (s: Settings)
        ensures
            s.max_memory == DEFAULT_MAX_MEMORY,
            s.max_steps is None,
    {
        Settings { max_memory: DEFAULT_MAX_MEMORY, max_steps: None }
    }
}

/// Eight-bit wrapping addition: cell arithmetic is modulo 256.
pub open spec fn add_wrap(c: u8, d: u8) -> u8 {
    ((c + d) % 256) as u8
}

/// The bounded tape: a fixed number of byte cells, all starting at zero, and
/// a cursor that is always a valid index.
pub struct Memory {
    cells: Vec<u8>,
    ptr: usize,
}

impl View for Memory {
    type V = Seq<u8>;

    /// The cells of the tape.
    closed spec fn view(&self) -> Seq<u8> {
        self.cells@
    }
}

impl Memory {
    /// The index of the active cell.
    pub closed spec fn cursor(&self) -> int {
        self.ptr as int
    }

    /// The tape invariant: the cursor is a valid index.
    pub open spec fn wf(&self) -> bool {
        0 <= self.cursor() < self@.len()
    }

    /// A fresh tape of `size` zeroed cells with the cursor on cell 0.
    pub fn new(size: usize) -> (m: Memory)
        requires
            size >= 1,
        ensures
            m.wf(),
            m@ == Seq::new(size as nat, |i: int| 0u8),
            m.cursor() == 0,
    {
        let cells: Vec<u8> = vec![0u8; size];
        proof {
            assert(cells@ =~= Seq::new(size as nat, |i: int| 0u8));
        }
        Memory { cells, ptr: 0 }
    }

    /// Move the cursor by `offset` cells. A move that would leave
    /// `[0, tape size)` is rejected with `MemoryOutOfBounds` and leaves the
    /// tape untouched; a move that stays inside never fails.
    pub fn move_ptr(&mut self, offset: isize) -> (r: Result<(), Error>)
        requires
            old(self).wf(),
        ensures
            final(self).wf(),
            final(self)@ == old(self)@,
            if 0 <= old(self).cursor() + offset < old(self)@.len() {
                r == Ok::<(), Error>(()) && final(self).cursor() == old(self).cursor() + offset
            } else {
                r == Err::<(), Error>(Error::MemoryOutOfBounds) && final(self).cursor() == old(
                    self,
                ).cursor()
            },
    {
        if offset >= 0 {
            let off = offset as usize;
            if off < self.cells.len() - self.ptr {
                self.ptr = self.ptr + off;
                Ok(())
            } else {
                Err(Error::MemoryOutOfBounds)
            }
        } else {
            let mag = (-(offset + 1)) as usize + 1;
            if mag <= self.ptr {
                self.ptr = self.ptr - mag;
                Ok(())
            } else {
                Err(Error::MemoryOutOfBounds)
            }
        }
    }

    /// Add `val` to the active cell with eight-bit wrapping arithmetic
    /// (255 + 1 wraps to 0, 0 - 1 wraps to 255). Never fails.
    pub fn add_cell(&mut self, val: i8)
        requires
            old(self).wf(),
        ensures
            final(self).wf(),
            final(self)@ == old(self)@.update(
                old(self).cursor(),
                add_wrap(old(self)@[old(self).cursor()], val as u8),
            ),
            final(self).cursor() == old(self).cursor(),
    {
        let c = self.cells[self.ptr];
        let v = val as u8;
        let sum: u16 = c as u16 + v as u16;
        let nc: u8 = if sum >= 256 {
            (sum - 256) as u8
        } else {
            sum as u8
        };
        self.cells.set(self.ptr, nc);
    }

    /// The value of the active cell.
    pub fn get_cell(&mut self) -> (r: u8)
        requires
            old(self).wf(),
        ensures
            *final(self) == *old(self),
            r == old(self)@[old(self).cursor()],
    {
        self.cells[self.ptr]
    }

    /// Overwrite the active cell with `val`.
    pub fn set_cell(&mut self, val: u8)
        requires
            old(self).wf(),
        ensures
            final(self).wf(),
            final(self)@ == old(self)@.update(old(self).cursor(), val),
            final(self).cursor() == old(self).cursor(),
    {
        self.cells.set(self.ptr, val);
    }
}

/// The byte an input buffer yields at `pos`: past its end it yields 0.
pub open spec fn byte_at(input: Seq<u8>, pos: int) -> u8 {
    if 0 <= pos < input.len() {
        input[pos]
    } else {
        0
    }
}

/// Pull the next byte from the input buffer. Past the end of the input this
/// yields byte 0 without advancing and without failing.
pub fn read_byte(input: &Vec<u8>, pos: &mut usize) -> (r: Result<u8, Error>)
    ensures
        r == Ok::<u8, Error>(byte_at(input@, *old(pos) as int)),
        *final(pos) as int == if *old(pos) < input@.len() {
            *old(pos) + 1
        } else {
            *old(pos) as int
        },
{
    if *pos < input.len() {
        let b = input[*pos];
        *pos = *pos + 1;
        Ok(b)
    } else {
        Ok(0)
    }
}

/// Emit one byte to the output buffer. Never fails.
pub fn write_byte(output: &mut Vec<u8>, byte: u8) -> (r: Result<(), Error>)
    ensures
        r == Ok::<(), Error>(()),
        final(output)@ == old(output)@.push(byte),
{
    output.push(byte);
    Ok(())
}

/// The whole state of a run, as mathematics: the tape and its cursor, the
/// instruction pointer, the position in the input buffer, and the output
/// written so far.
pub ghost struct ExecState {
    pub tape: Seq<u8>,
    pub ptr: int,
    pub ip: int,
    pub in_pos: int,
    pub out: Seq<u8>,
}

/// Where a run stands: still going, finished cleanly with its output, or
/// stopped by a fault.
pub ghost enum Status {
    Running(ExecState),
    Done(Seq<u8>),
    Failed(Error),
}

/// The initial state: a zeroed tape of `mem` cells, everything else at 0.
pub open spec fn init_state(mem: nat) -> ExecState {
    ExecState {
        tape: Seq::new(mem, |i: int| 0u8),
        ptr: 0,
        ip: 0,
        in_pos: 0,
        out: Seq::empty(),
    }
}

/// The effect of the instruction under `s.ip`, which must be in bounds.
pub open spec fn step1(prog: Seq<Instruction>, input: Seq<u8>, s: ExecState) -> Status
    recommends
        0 <= s.ip < prog.len(),
        0 <= s.ptr < s.tape.len(),
{
    let ip1 = s.ip + 1;
    match prog[s.ip] {
        Instruction::IncCell => Status::Running(
            ExecState { tape: s.tape.update(s.ptr, add_wrap(s.tape[s.ptr], 1)), ip: ip1, ..s },
        ),
        Instruction::DecCell => Status::Running(
            ExecState { tape: s.tape.update(s.ptr, add_wrap(s.tape[s.ptr], 255)), ip: ip1, ..s },
        ),
        Instruction::IncPtr => if s.ptr + 1 < s.tape.len() {
            Status::Running(ExecState { ptr: s.ptr + 1, ip: ip1, ..s })
        } else {
            Status::Failed(Error::MemoryOutOfBounds)
        },
        Instruction::DecPtr => if s.ptr >= 1 {
            Status::Running(ExecState { ptr: s.ptr - 1, ip: ip1, ..s })
        } else {
            Status::Failed(Error::MemoryOutOfBounds)
        },
        Instruction::JumpIfZero(t) => Status::Running(
            ExecState { ip: if s.tape[s.ptr] == 0 { t as int } else { ip1 }, ..s },
        ),
        Instruction::JumpIfNotZero(t) => Status::Running(
            ExecState { ip: if s.tape[s.ptr] != 0 { t as int } else { ip1 }, ..s },
        ),
        Instruction::Read => Status::Running(
            ExecState {
                tape: s.tape.update(s.ptr, byte_at(input, s.in_pos)),
                in_pos: if s.in_pos < input.len() { s.in_pos + 1 } else { s.in_pos },
                ip: ip1,
                ..s
            },
        ),
        Instruction::Write => Status::Running(
            ExecState { out: s.out.push(s.tape[s.ptr]), ip: ip1, ..s },
        ),
    }
}

/// One fetch-decode-execute cycle. A run whose instruction pointer has left
/// the program is done; a done or failed run stays as it is.
pub open spec fn step_status(prog: Seq<Instruction>, input: Seq<u8>, st: Status) -> Status {
    match st {
        Status::Running(s) => if s.ip < 0 || s.ip >= prog.len() {
            Status::Done(s.out)
        } else {
            step1(prog, input, s)
        },
        _ => st,
    }
}

/// Where a run stands after `n` cycles from state `s0`.
pub open spec fn run_n(prog: Seq<Instruction>, input: Seq<u8>, s0: ExecState, n: nat) -> Status
    decreases n,
{
    if n == 0 {
        Status::Running(s0)
    } else {
        step_status(prog, input, run_n(prog, input, s0, (n - 1) as nat))
    }
}

/// What a run limited to `m` executed instructions returns: the program's own
/// outcome if it finishes (or faults) within the ceiling, and
/// `StepLimitExceeded` if instruction `m + 1` would have to execute.
pub open spec fn outcome_bounded(
    prog: Seq<Instruction>,
    input: Seq<u8>,
    mem: nat,
    m: nat,
) -> Result<Seq<u8>, Error> {
    match run_n(prog, input, init_state(mem), m) {
        Status::Done(out) => Ok(out),
        Status::Failed(e) => Err(e),
        Status::Running(s) => if s.ip >= prog.len() {
            Ok(s.out)
        } else {
            Err(Error::StepLimitExceeded)
        },
    }
}

/// Once a run is done or failed, more cycles change nothing.
pub proof fn lemma_run_n_stable(
    prog: Seq<Instruction>,
    input: Seq<u8>,
    s0: ExecState,
    a: nat,
    b: nat,
)
    requires
        a <= b,
        !(run_n(prog, input, s0, a) is Running),
    ensures
        run_n(prog, input, s0, b) == run_n(prog, input, s0, a),
    decreases b,
{
    if b > a {
        lemma_run_n_stable(prog, input, s0, a, (b - 1) as nat);
    }
}

/// Cycles compose: a run that stands at `s1` after `a` cycles goes on from
/// `s1` for the next `b`.
pub proof fn lemma_run_n_compose(
    prog: Seq<Instruction>,
    input: Seq<u8>,
    s0: ExecState,
    a: nat,
    b: nat,
    s1: ExecState,
)
    requires
        run_n(prog, input, s0, a) == Status::Running(s1),
    ensures
        run_n(prog, input, s0, a + b) == run_n(prog, input, s1, b),
    decreases b,
{
    if b > 0 {
        lemma_run_n_compose(prog, input, s0, a, (b - 1) as nat, s1);
        assert(run_n(prog, input, s0, a + b) == step_status(
            prog,
            input,
            run_n(prog, input, s0, a + (b - 1) as nat),
        ));
    }
}

/// The result a step of `Machine::step` reports: the machine can go on, has
/// finished cleanly, or has stopped on a fault.
#[derive(Clone, Debug, PartialEq, Eq)]
pub enum StepOutcome {
    Running,
    Done,
    Failed(Error),
}

/// An execution engine in mid-run: the tape, the instruction pointer, the
/// position in the input buffer, and the output collected so far. One
/// `step` call executes one instruction; a driver that owns the real input
/// and output streams can run the machine for as long as it likes.
pub struct Machine {
    memory: Memory,
    ip: usize,
    in_pos: usize,
    output: Vec<u8>,
}

impl Machine {
    /// The machine's state, as mathematics.
    pub closed spec fn abs(&self) -> ExecState {
        ExecState {
            tape: self.memory@,
            ptr: self.memory.cursor(),
            ip: self.ip as int,
            in_pos: self.in_pos as int,
            out: self.output@,
        }
    }

    /// The machine invariant: the tape cursor is a valid index.
    pub open spec fn wf(&self) -> bool {
        0 <= self.abs().ptr < self.abs().tape.len()
    }

    /// A machine at the initial state over a zeroed tape of `max_memory`
    /// cells.
    pub fn new(max_memory: usize) -> (m: Machine)
        requires
            max_memory >= 1,
        ensures
            m.wf(),
            m.abs() == init_state(max_memory as nat),
    {
        Machine { memory: Memory::new(max_memory), ip: 0, in_pos: 0, output: Vec::new() }
    }

    /// Whether the instruction pointer has run past the end of `program`,
    /// which is how a run terminates successfully.
    pub fn halted(&self, program: &Vec<Instruction>) -> (b: bool)
        ensures
            b == (self.abs().ip >= program@.len()),
    {
        self.ip >= program.len()
    }

    /// The output written so far.
    pub fn into_output(self) -> (out: Vec<u8>)
        ensures
            out@ == self.abs().out,
    {
        self.output
    }

    /// Execute one instruction of `program`, reading from the input buffer.
    /// The report and the new state are exactly those of one cycle of the
    /// specification semantics; on `Done` and on `Failed` the machine does
    /// not change.
    pub fn step(&mut self, program: &Vec<Instruction>, input: &Vec<u8>) -> (r: StepOutcome)
        requires
            old(self).wf(),
        ensures
            final(self).wf(),
            match r {
                StepOutcome::Running => step_status(
                    program@,
                    input@,
                    Status::Running(old(self).abs()),
                ) == Status::Running(final(self).abs()),
                StepOutcome::Done => step_status(program@, input@, Status::Running(old(self).abs()))
                    == Status::Done(final(self).abs().out) && final(self).abs() == old(self).abs(),
                StepOutcome::Failed(e) => step_status(
                    program@,
                    input@,
                    Status::Running(old(self).abs()),
                ) == Status::Failed(e) && final(self).abs() == old(self).abs(),
            },
    {
        if self.ip >= program.len() {
            return StepOutcome::Done;
        }
        let ghost pre = self.abs();
        let instr = program[self.ip];
        let ip1 = self.ip + 1;
        match instr {
            Instruction::IncCell => {
                self.memory.add_cell(1);
                self.ip = ip1;
                StepOutcome::Running
            },
            Instruction::DecCell => {
                self.memory.add_cell(-1);
                self.ip = ip1;
                proof {
                    assert((-1i8) as u8 == 255u8) by (bit_vector);
                    assert(step1(program@, input@, pre) == Status::Running(self.abs()));
                }
                StepOutcome::Running
            },
            Instruction::IncPtr => {
                match self.memory.move_ptr(1) {
                    Ok(()) => {
                        self.ip = ip1;
                        StepOutcome::Running
                    },
                    Err(e) => StepOutcome::Failed(e),
                }
            },
            Instruction::DecPtr => {
                match self.memory.move_ptr(-1) {
                    Ok(()) => {
                        self.ip = ip1;
                        StepOutcome::Running
                    },
                    Err(e) => StepOutcome::Failed(e),
                }
            },
            Instruction::JumpIfZero(t) => {
                if self.memory.get_cell() == 0 {
                    self.ip = t;
                } else {
                    self.ip = ip1;
                }
                StepOutcome::Running
            },
            Instruction::JumpIfNotZero(t) => {
                if self.memory.get_cell() != 0 {
                    self.ip = t;
                } else {
                    self.ip = ip1;
                }
                StepOutcome::Running
            },
            Instruction::Read => {
                let mut p = self.in_pos;
                let b = match read_byte(input, &mut p) {
                    Ok(b) => b,
                    Err(e) => {
                        return StepOutcome::Failed(e);
                    },
                };
                self.in_pos = p;
                self.memory.set_cell(b);
                self.ip = ip1;
                StepOutcome::Running
            },
            Instruction::Write => {
                let b = self.memory.get_cell();
                match write_byte(&mut self.output, b) {
                    Ok(()) => {},
                    Err(e) => {
                        return StepOutcome::Failed(e);
                    },
                }
                self.ip = ip1;
                StepOutcome::Running
            },
        }
    }
}

/// The executable outcome agrees with the specification-level one.
pub open spec fn run_results_match(
    r: Result<Vec<u8>, Error>,
    s: Result<Seq<u8>, Error>,
) -> bool {
    match r {
        Ok(v) => s is Ok && v@ == s->Ok_0,
        Err(e) => s is Err && e == s->Err_0,
    }
}

/// Run `program` to completion under a step ceiling, reading from the input
/// buffer and returning the bytes the program wrote. The outcome is exactly
/// the one the specification semantics gives for that ceiling. A run without
/// a ceiling is driven by calling `Machine::step` until it reports an end,
/// since a verified loop must be shown to terminate.
pub fn run(program: &Vec<Instruction>, settings: &Settings, input: &Vec<u8>) -> (r: Result<
    Vec<u8>,
    Error,
>)
    requires
        settings.max_memory >= 1,
        settings.max_steps is Some,
    ensures
        run_results_match(
            r,
            outcome_bounded(
                program@,
                input@,
                settings.max_memory as nat,
                settings.max_steps->0 as nat,
            ),
        ),
{
    let m = settings.max_steps.unwrap();
    let ghost init = init_state(settings.max_memory as nat);
    let mut machine = Machine::new(settings.max_memory);
    let mut steps: usize = 0;
    while steps < m
        invariant
            machine.wf(),
            steps <= m,
            run_n(program@, input@, init, steps as nat) == Status::Running(machine.abs()),
            init == init_state(settings.max_memory as nat),
            settings.max_steps == Some(m),
        decreases m - steps,
    {
        match machine.step(program, input) {
            StepOutcome::Running => {
                proof {
                    assert(run_n(program@, input@, init, (steps + 1) as nat) == step_status(
                        program@,
                        input@,
                        run_n(program@, input@, init, steps as nat),
                    ));
                }
                steps = steps + 1;
            },
            StepOutcome::Done => {
                proof {
                    assert(run_n(program@, input@, init, (steps + 1) as nat) == Status::Done(
                        machine.abs().out,
                    ));
                    lemma_run_n_stable(program@, input@, init, (steps + 1) as nat, m as nat);
                }
                return Ok(machine.into_output());
            },
            StepOutcome::Failed(e) => {
                proof {
                    assert(run_n(program@, input@, init, (steps + 1) as nat) == Status::Failed(e));
                    lemma_run_n_stable(program@, input@, init, (steps + 1) as nat, m as nat);
                }
                return Err(e);
            },
        }
    }
    if machine.halted(program) {
        Ok(machine.into_output())
    } else {
        Err(Error::StepLimitExceeded)
    }
}

/// The cell-clearing loop `[-]`, run on a cell holding `v >= 1`, terminates
/// and zeroes the cell: after exactly `3 * v` executed instructions (`v`
/// passes of its three-instruction body) the machine stands one past the
/// program, and one more cycle ends the run, with nothing read or written.
pub proof fn lemma_clear_loop(prog: Seq<Instruction>, input: Seq<u8>, s: ExecState, v: u8)
    requires
        prog == seq![
            Instruction::JumpIfZero(2),
            Instruction::DecCell,
            Instruction::JumpIfNotZero(0),
        ],
        s.ip == 0,
        0 <= s.ptr < s.tape.len(),
        s.tape[s.ptr] == v,
        v >= 1,
    ensures
        run_n(prog, input, s, (3 * v) as nat) == Status::Running(
            ExecState { tape: s.tape.update(s.ptr, 0u8), ip: 3, ..s },
        ),
        run_n(prog, input, s, (3 * v + 1) as nat) == Status::Done(s.out),
    decreases v,
{
    let s1 = ExecState { ip: 1, ..s };
    let s2 = ExecState { tape: s.tape.update(s.ptr, add_wrap(v, 255)), ip: 2, ..s };
    assert(add_wrap(v, 255) == (v - 1) as u8);
    assert(run_n(prog, input, s, 0) == Status::Running(s));
    assert(run_n(prog, input, s, 1) == step_status(prog, input, run_n(prog, input, s, 0)));
    assert(run_n(prog, input, s, 1) == Status::Running(s1));
    assert(run_n(prog, input, s, 2) == step_status(prog, input, run_n(prog, input, s, 1)));
    assert(run_n(prog, input, s, 2) == Status::Running(s2));
    assert(run_n(prog, input, s, 3) == step_status(prog, input, run_n(prog, input, s, 2)));
    if v == 1 {
        let s3 = ExecState { tape: s.tape.update(s.ptr, 0u8), ip: 3, ..s };
        assert(run_n(prog, input, s, 3) == Status::Running(s3));
        assert(run_n(prog, input, s, 4) == step_status(prog, input, run_n(prog, input, s, 3)));
    } else {
        let s3 = ExecState { tape: s.tape.update(s.ptr, (v - 1) as u8), ip: 0, ..s };
        assert(run_n(prog, input, s, 3) == Status::Running(s3));
        lemma_clear_loop(prog, input, s3, (v - 1) as u8);
        assert(s3.tape.update(s3.ptr, 0u8) =~= s.tape.update(s.ptr, 0u8));
        lemma_run_n_compose(prog, input, s, 3, (3 * (v - 1)) as nat, s3);
        assert(3 + 3 * ((v - 1) as u8) == 3 * v);
        lemma_run_n_compose(prog, input, s, 3, (3 * (v - 1) + 1) as nat, s3);
    }
}

/// A step ceiling lower than what a program needs aborts the run: if after
/// `n` cycles the run is still mid-program, then any ceiling `m <= n` makes
/// the bounded outcome the step-limit error rather than a completion.
pub proof fn lemma_step_ceiling(
    prog: Seq<Instruction>,
    input: Seq<u8>,
    mem: nat,
    m: nat,
    n: nat,
    s: ExecState,
)
    requires
        m <= n,
        run_n(prog, input, init_state(mem), n) == Status::Running(s),
        s.ip < prog.len(),
    ensures
        outcome_bounded(prog, input, mem, m) == Err::<Seq<u8>, Error>(Error::StepLimitExceeded),
{
    let init = init_state(mem);
    let r_m = run_n(prog, input, init, m);
    if !(r_m is Running) {
        lemma_run_n_stable(prog, input, init, m, n);
        assert(false);
    }
    let sm = r_m->Running_0;
    if sm.ip >= prog.len() {
        if m == n {
            assert(false);
        } else {
            assert(run_n(prog, input, init, (m + 1) as nat) == step_status(prog, input, r_m));
            lemma_run_n_stable(prog, input, init, (m + 1) as nat, n);
            assert(false);
        }
    }
}

} // verus!
