//! Single-pass assembler: turns source text into a flat instruction sequence
//! with the `[`/`]` loop brackets resolved into absolute jump targets.
//!
//! Every character other than the eight recognized symbols is ignored.
//! Positions in diagnostics are counted with 1-indexed lines and 1-indexed
//! columns (a newline resets the column to 0, and each other character
//! advances it by one before it is reported). An unmatched `]` is reported at
//! its own position; an unmatched `[` is reported at end of input.

use vstd::pervasive::VecAdditionalExecFns;
use vstd::prelude::*;
use vstd::string::StrSliceExecFns;

verus! {

/// One instruction of an assembled program.
///
/// The `usize` carried by the two jump variants is an absolute index into the
/// instruction sequence: the `JumpIfZero` emitted for a `[` points at its
/// matching `JumpIfNotZero`, and that `JumpIfNotZero` points back at the
/// `JumpIfZero`, so either endpoint of a loop can reach the other directly.
#[derive(Clone, Copy, Debug, PartialEq, Eq, Structural)]
pub enum Instruction {
    IncCell,
    DecCell,
    IncPtr,
    DecPtr,
    JumpIfZero(usize),
    JumpIfNotZero(usize),
    Read,
    Write,
}

/// An assembly failure, carrying the line and column it was detected at.
#[derive(Clone, Copy, Debug, PartialEq, Eq, Structural)]
pub enum Error {
    UnmatchedOpenLoop(usize, usize),
    UnmatchedCloseLoop(usize, usize),
}

/// The assembler, one consumed character at a time: `code` is the instruction
/// sequence built so far, `stack` holds the indices of the `JumpIfZero`
/// placeholders whose closing `]` has not been seen yet, and `line`/`col`
/// track the position just consumed.
pub open spec fn parse_rec(
    s: Seq<char>,
    i: int,
    code: Seq<Instruction>,
    stack: Seq<usize>,
    line: usize,
    col: usize,
) -> Result<Seq<Instruction>, Error>
    decreases s.len() - i,
{
    if i < 0 || i >= s.len() {
        if stack.len() == 0 {
            Ok(code)
        } else {
            Err(Error::UnmatchedOpenLoop(line, col))
        }
    } else {
        let c = s[i];
        let line2 = if c == '\n' { (line + 1) as usize } else { line };
        let col2 = if c == '\n' { 0usize } else { (col + 1) as usize };
        if c == '>' {
            parse_rec(s, i + 1, code.push(Instruction::IncPtr), stack, line2, col2)
        } else if c == '<' {
            parse_rec(s, i + 1, code.push(Instruction::DecPtr), stack, line2, col2)
        } else if c == '+' {
            parse_rec(s, i + 1, code.push(Instruction::IncCell), stack, line2, col2)
        } else if c == '-' {
            parse_rec(s, i + 1, code.push(Instruction::DecCell), stack, line2, col2)
        } else if c == '.' {
            parse_rec(s, i + 1, code.push(Instruction::Write), stack, line2, col2)
        } else if c == ',' {
            parse_rec(s, i + 1, code.push(Instruction::Read), stack, line2, col2)
        } else if c == '[' {
            parse_rec(
                s,
                i + 1,
                code.push(Instruction::JumpIfZero(0)),
                stack.push(code.len() as usize),
                line2,
                col2,
            )
        } else if c == ']' {
            if stack.len() == 0 {
                Err(Error::UnmatchedCloseLoop(line2, col2))
            } else {
                let open = stack.last();
                parse_rec(
                    s,
                    i + 1,
                    code.update(open as int, Instruction::JumpIfZero(code.len() as usize)).push(
                        Instruction::JumpIfNotZero(open),
                    ),
                    stack.drop_last(),
                    line2,
                    col2,
                )
            }
        } else {
            parse_rec(s, i + 1, code, stack, line2, col2)
        }
    }
}

/// What `parse` returns on a given source text.
pub open spec fn parse_spec(s: Seq<char>) -> Result<Seq<Instruction>, Error> {
    parse_rec(s, 0, Seq::empty(), Seq::empty(), 1, 0)
}

/// The executable result agrees with the specification-level one.
pub open spec fn parse_results_match(
    r: Result<Vec<Instruction>, Error>,
    s: Result<Seq<Instruction>, Error>,
) -> bool {
    match r {
        Ok(v) => s is Ok && v@ == s->Ok_0,
        Err(e) => s is Err && e == s->Err_0,
    }
}

/// Assemble source text into an instruction sequence with resolved jump
/// targets, or report the first unmatched bracket.
pub fn parse(source: &str) -> (r: Result<Vec<Instruction>, Error>)
    requires
        source@.len() < usize::MAX,
    ensures
        parse_results_match(r, parse_spec(source@)),
{
    let n = source.unicode_len();
    let mut code: Vec<Instruction> = Vec::new();
    let mut stack: Vec<usize> = Vec::new();
    let mut line: usize = 1;
    let mut col: usize = 0;
    let mut i: usize = 0;
    while i < n
        invariant
            n == source@.len(),
            n < usize::MAX,
            i <= n,
            line <= 1 + i,
            col <= i,
            parse_spec(source@) == parse_rec(source@, i as int, code@, stack@, line, col),
            forall|k: int| 0 <= k < stack@.len() ==> (stack@[k] as int) < code@.len(),
        decreases n - i,
    {
        let ghost line0 = line;
        let ghost col0 = col;
        let c = source.get_char(i);
        if c == '\n' {
            line = line + 1;
            col = 0;
        } else {
            col = col + 1;
        }
        match c {
            '>' => {
                code.push(Instruction::IncPtr);
            },
            '<' => {
                code.push(Instruction::DecPtr);
            },
            '+' => {
                code.push(Instruction::IncCell);
            },
            '-' => {
                code.push(Instruction::DecCell);
            },
            '.' => {
                code.push(Instruction::Write);
            },
            ',' => {
                code.push(Instruction::Read);
            },
            '[' => {
                stack.push(code.len());
                code.push(Instruction::JumpIfZero(0));
            },
            ']' => {
                if stack.len() == 0 {
                    proof {
                        assert(parse_rec(source@, i as int, code@, stack@, line0, col0)
                            == Err::<Seq<Instruction>, Error>(Error::UnmatchedCloseLoop(line, col)));
                    }
                    return Err(Error::UnmatchedCloseLoop(line, col));
                }
                let open = stack[stack.len() - 1];
                stack.pop();
                let l = code.len();
                code.set(open, Instruction::JumpIfZero(l));
                code.push(Instruction::JumpIfNotZero(open));
            },
            _ => {},
        }
        i = i + 1;
    }
    if stack.len() > 0 {
        return Err(Error::UnmatchedOpenLoop(line, col));
    }
    Ok(code)
}

/// The jump targets at index `i` are resolved and symmetric: a `JumpIfZero`
/// points at a `JumpIfNotZero` that points back at it, and the other way
/// round.
pub open spec fn wf_at(code: Seq<Instruction>, i: int) -> bool {
    match code[i] {
        Instruction::JumpIfZero(t) => (t as int) < code.len() && code[t as int]
            == Instruction::JumpIfNotZero(i as usize),
        Instruction::JumpIfNotZero(t) => (t as int) < code.len() && code[t as int]
            == Instruction::JumpIfZero(i as usize),
        _ => true,
    }
}

/// Every jump target in `code` is a valid index, and the loop pairs link each
/// other bidirectionally.
pub open spec fn wf_program(code: Seq<Instruction>) -> bool {
    forall|i: int| 0 <= i < code.len() ==> wf_at(code, i)
}

/// The invariant the assembler keeps mid-scan: pending `[` positions on the
/// stack are valid indices of `JumpIfZero` placeholders, in strictly
/// increasing order, and every instruction not on the stack is already
/// resolved, with a partner that is not on the stack either.
pub open spec fn resolved_at(code: Seq<Instruction>, stack: Seq<usize>, i: int) -> bool {
    match code[i] {
        Instruction::JumpIfZero(t) => (t as int) < code.len() && code[t as int]
            == Instruction::JumpIfNotZero(i as usize) && !stack.contains(t),
        Instruction::JumpIfNotZero(t) => (t as int) < code.len() && code[t as int]
            == Instruction::JumpIfZero(i as usize) && !stack.contains(t),
        _ => true,
    }
}

pub open spec fn assembler_inv(code: Seq<Instruction>, stack: Seq<usize>) -> bool {
    &&& forall|k: int|
        0 <= k < stack.len() ==> (stack[k] as int) < code.len() && code[stack[k] as int]
            is JumpIfZero
    &&& forall|k1: int, k2: int| 0 <= k1 < k2 < stack.len() ==> stack[k1] < stack[k2]
    &&& forall|i: int|
        0 <= i < code.len() && !stack.contains(i as usize) ==> resolved_at(code, stack, i)
}

/// What a pushed sequence contains: the old elements and the new one.
proof fn lemma_contains_push(stack: Seq<usize>, x: usize, y: usize)
    ensures
        stack.push(x).contains(y) <==> (stack.contains(y) || y == x),
{
    if stack.contains(y) {
        let k = choose|k: int| 0 <= k < stack.len() && stack[k] == y;
        assert(stack.push(x)[k] == y);
    }
    assert(stack.push(x)[stack.len() as int] == x);
    if stack.push(x).contains(y) && y != x {
        let k = choose|k: int| 0 <= k < stack.push(x).len() && stack.push(x)[k] == y;
        assert(stack[k] == y);
    }
}

/// Appending a non-jump instruction keeps the assembler invariant.
proof fn lemma_inv_push_plain(code: Seq<Instruction>, stack: Seq<usize>, instr: Instruction)
    requires
        assembler_inv(code, stack),
        !(instr is JumpIfZero),
        !(instr is JumpIfNotZero),
    ensures
        assembler_inv(code.push(instr), stack),
{
    let code2 = code.push(instr);
    assert forall|i: int| 0 <= i < code2.len() && !stack.contains(i as usize) implies resolved_at(
        code2,
        stack,
        i,
    ) by {
        if i < code.len() {
            assert(resolved_at(code, stack, i));
        }
    }
}

/// Opening a loop: pushing the placeholder `JumpIfZero` and recording its
/// index keeps the assembler invariant.
proof fn lemma_inv_push_open(code: Seq<Instruction>, stack: Seq<usize>)
    requires
        assembler_inv(code, stack),
        code.len() < usize::MAX,
    ensures
        assembler_inv(
            code.push(Instruction::JumpIfZero(0)),
            stack.push(code.len() as usize),
        ),
{
    let lu = code.len() as usize;
    let code2 = code.push(Instruction::JumpIfZero(0));
    let stack2 = stack.push(lu);
    assert forall|k: int|
        0 <= k < stack2.len() implies (stack2[k] as int) < code2.len() && code2[stack2[k] as int]
        is JumpIfZero by {
        if k < stack.len() {
            assert((stack[k] as int) < code.len());
        }
    }
    assert forall|i: int|
        0 <= i < code2.len() && !stack2.contains(i as usize) implies resolved_at(
        code2,
        stack2,
        i,
    ) by {
        lemma_contains_push(stack, lu, i as usize);
        if i < code.len() {
            assert(!stack.contains(i as usize));
            assert(resolved_at(code, stack, i));
            match code[i] {
                Instruction::JumpIfZero(t) => {
                    lemma_contains_push(stack, lu, t);
                },
                Instruction::JumpIfNotZero(t) => {
                    lemma_contains_push(stack, lu, t);
                },
                _ => {},
            }
        } else {
            assert(stack2.contains(lu)) by {
                lemma_contains_push(stack, lu, lu);
            }
        }
    }
}

/// Closing a loop: patching the pending `JumpIfZero` and appending its
/// `JumpIfNotZero` partner keeps the assembler invariant.
proof fn lemma_inv_close(code: Seq<Instruction>, stack: Seq<usize>)
    requires
        assembler_inv(code, stack),
        stack.len() > 0,
        code.len() < usize::MAX,
    ensures
        assembler_inv(
            code.update(
                stack.last() as int,
                Instruction::JumpIfZero(code.len() as usize),
            ).push(Instruction::JumpIfNotZero(stack.last())),
            stack.drop_last(),
        ),
{
    let open = stack.last();
    let lu = code.len() as usize;
    let code2 = code.update(open as int, Instruction::JumpIfZero(lu)).push(
        Instruction::JumpIfNotZero(open),
    );
    let stack2 = stack.drop_last();
    assert(stack =~= stack2.push(open));
    assert forall|k: int| 0 <= k < stack2.len() implies stack2[k] < open by {
        assert(stack[k] == stack2[k]);
    }
    assert forall|k: int|
        0 <= k < stack2.len() implies (stack2[k] as int) < code2.len() && code2[stack2[k] as int]
        is JumpIfZero by {
        assert(stack[k] == stack2[k]);
        assert((stack[k] as int) < code.len());
        assert(stack2[k] < open);
    }
    assert forall|i: int|
        0 <= i < code2.len() && !stack2.contains(i as usize) implies resolved_at(
        code2,
        stack2,
        i,
    ) by {
        if i == open as int {
            assert(code2[i] == Instruction::JumpIfZero(lu));
            assert(code2[lu as int] == Instruction::JumpIfNotZero(open));
            assert(!stack2.contains(lu));
        } else if i == code.len() {
            assert(code2[i] == Instruction::JumpIfNotZero(open));
            assert(code2[open as int] == Instruction::JumpIfZero(lu));
            assert(!stack2.contains(open));
        } else {
            assert(!stack.contains(i as usize)) by {
                lemma_contains_push(stack2, open, i as usize);
            }
            assert(resolved_at(code, stack, i));
            assert(code2[i] == code[i]);
            match code[i] {
                Instruction::JumpIfZero(t) => {
                    assert(t != open);
                    assert(code2[t as int] == code[t as int]);
                    assert(!stack2.contains(t)) by {
                        lemma_contains_push(stack2, open, t);
                    }
                },
                Instruction::JumpIfNotZero(t) => {
                    assert(t != open);
                    assert(code2[t as int] == code[t as int]);
                    assert(!stack2.contains(t)) by {
                        lemma_contains_push(stack2, open, t);
                    }
                },
                _ => {},
            }
        }
    }
}

/// Induction behind `lemma_parse_wf`: from any mid-scan state that satisfies
/// the assembler invariant, a successful scan ends with a well-formed
/// program.
proof fn lemma_parse_rec_wf(
    s: Seq<char>,
    i: int,
    code: Seq<Instruction>,
    stack: Seq<usize>,
    line: usize,
    col: usize,
)
    requires
        0 <= i <= s.len(),
        s.len() < usize::MAX,
        code.len() <= i,
        assembler_inv(code, stack),
        parse_rec(s, i, code, stack, line, col) is Ok,
    ensures
        wf_program(parse_rec(s, i, code, stack, line, col)->Ok_0),
    decreases s.len() - i,
{
    if i >= s.len() {
        assert(stack.len() == 0);
        assert forall|j: int| 0 <= j < code.len() implies wf_at(code, j) by {
            assert(!stack.contains(j as usize));
            assert(resolved_at(code, stack, j));
        }
    } else {
        let c = s[i];
        let line2 = if c == '\n' { (line + 1) as usize } else { line };
        let col2 = if c == '\n' { 0usize } else { (col + 1) as usize };
        if c == '>' {
            lemma_inv_push_plain(code, stack, Instruction::IncPtr);
            lemma_parse_rec_wf(s, i + 1, code.push(Instruction::IncPtr), stack, line2, col2);
        } else if c == '<' {
            lemma_inv_push_plain(code, stack, Instruction::DecPtr);
            lemma_parse_rec_wf(s, i + 1, code.push(Instruction::DecPtr), stack, line2, col2);
        } else if c == '+' {
            lemma_inv_push_plain(code, stack, Instruction::IncCell);
            lemma_parse_rec_wf(s, i + 1, code.push(Instruction::IncCell), stack, line2, col2);
        } else if c == '-' {
            lemma_inv_push_plain(code, stack, Instruction::DecCell);
            lemma_parse_rec_wf(s, i + 1, code.push(Instruction::DecCell), stack, line2, col2);
        } else if c == '.' {
            lemma_inv_push_plain(code, stack, Instruction::Write);
            lemma_parse_rec_wf(s, i + 1, code.push(Instruction::Write), stack, line2, col2);
        } else if c == ',' {
            lemma_inv_push_plain(code, stack, Instruction::Read);
            lemma_parse_rec_wf(s, i + 1, code.push(Instruction::Read), stack, line2, col2);
        } else if c == '[' {
            lemma_inv_push_open(code, stack);
            lemma_parse_rec_wf(
                s,
                i + 1,
                code.push(Instruction::JumpIfZero(0)),
                stack.push(code.len() as usize),
                line2,
                col2,
            );
        } else if c == ']' {
            assert(stack.len() > 0);
            lemma_inv_close(code, stack);
            lemma_parse_rec_wf(
                s,
                i + 1,
                code.update(
                    stack.last() as int,
                    Instruction::JumpIfZero(code.len() as usize),
                ).push(Instruction::JumpIfNotZero(stack.last())),
                stack.drop_last(),
                line2,
                col2,
            );
        } else {
            lemma_parse_rec_wf(s, i + 1, code, stack, line2, col2);
        }
    }
}

/// A program the assembler accepts has a symmetric jump-target graph: every
/// jump target is a valid index, the target of each `JumpIfZero` is a
/// `JumpIfNotZero` whose own target is the original's index, and the other
/// way round.
pub proof fn lemma_parse_wf(s: Seq<char>)
    requires
        s.len() < usize::MAX,
    ensures
        parse_spec(s) is Ok ==> wf_program(parse_spec(s)->Ok_0),
{
    if parse_spec(s) is Ok {
        lemma_parse_rec_wf(s, 0, Seq::empty(), Seq::empty(), 1, 0);
    }
}

/// How a character moves the bracket depth.
pub open spec fn bracket_delta(c: char) -> int {
    if c == '[' {
        1
    } else if c == ']' {
        -1
    } else {
        0
    }
}

/// The bracket depth after the first `n` characters: the number of `[` minus
/// the number of `]` among them.
pub open spec fn net(s: Seq<char>, n: int) -> int
    decreases n,
{
    if n <= 0 {
        0
    } else {
        net(s, n - 1) + bracket_delta(s[n - 1])
    }
}

/// No prefix of the first `n` characters closes a bracket that was not open.
pub open spec fn prefixes_ok(s: Seq<char>, n: int) -> bool {
    forall|k: int| 0 <= k <= n ==> net(s, k) >= 0
}

/// The brackets of `s` are balanced and properly nested.
pub open spec fn balanced(s: Seq<char>) -> bool {
    prefixes_ok(s, s.len() as int) && net(s, s.len() as int) == 0
}

/// Induction behind `lemma_parse_classifies`: mid-scan, the pending-loop
/// stack is exactly as deep as the bracket depth so far, and the scan's
/// outcome is decided by how the depth behaves over the rest.
proof fn lemma_parse_rec_class(
    s: Seq<char>,
    i: int,
    code: Seq<Instruction>,
    stack: Seq<usize>,
    line: usize,
    col: usize,
)
    requires
        0 <= i <= s.len(),
        stack.len() == net(s, i),
        prefixes_ok(s, i),
    ensures
        (parse_rec(s, i, code, stack, line, col) is Ok) <==> balanced(s),
        (parse_rec(s, i, code, stack, line, col) matches Err(e) && e is UnmatchedCloseLoop)
            <==> !prefixes_ok(s, s.len() as int),
        (parse_rec(s, i, code, stack, line, col) matches Err(e) && e is UnmatchedOpenLoop)
            <==> (prefixes_ok(s, s.len() as int) && net(s, s.len() as int) > 0),
    decreases s.len() - i,
{
    if i >= s.len() {
        assert(net(s, i) >= 0);
    } else {
        let c = s[i];
        let line2 = if c == '\n' { (line + 1) as usize } else { line };
        let col2 = if c == '\n' { 0usize } else { (col + 1) as usize };
        assert(net(s, i + 1) == net(s, i) + bracket_delta(c));
        if c == ']' && stack.len() == 0 {
            assert(net(s, i + 1) == -1);
            assert(!prefixes_ok(s, s.len() as int));
        } else {
            assert forall|k: int| 0 <= k <= i + 1 implies net(s, k) >= 0 by {
                if k <= i {
                    assert(net(s, k) >= 0);
                }
            }
            if c == '>' {
                lemma_parse_rec_class(
                    s,
                    i + 1,
                    code.push(Instruction::IncPtr),
                    stack,
                    line2,
                    col2,
                );
            } else if c == '<' {
                lemma_parse_rec_class(
                    s,
                    i + 1,
                    code.push(Instruction::DecPtr),
                    stack,
                    line2,
                    col2,
                );
            } else if c == '+' {
                lemma_parse_rec_class(
                    s,
                    i + 1,
                    code.push(Instruction::IncCell),
                    stack,
                    line2,
                    col2,
                );
            } else if c == '-' {
                lemma_parse_rec_class(
                    s,
                    i + 1,
                    code.push(Instruction::DecCell),
                    stack,
                    line2,
                    col2,
                );
            } else if c == '.' {
                lemma_parse_rec_class(
                    s,
                    i + 1,
                    code.push(Instruction::Write),
                    stack,
                    line2,
                    col2,
                );
            } else if c == ',' {
                lemma_parse_rec_class(s, i + 1, code.push(Instruction::Read), stack, line2, col2);
            } else if c == '[' {
                lemma_parse_rec_class(
                    s,
                    i + 1,
                    code.push(Instruction::JumpIfZero(0)),
                    stack.push(code.len() as usize),
                    line2,
                    col2,
                );
            } else if c == ']' {
                lemma_parse_rec_class(
                    s,
                    i + 1,
                    code.update(
                        stack.last() as int,
                        Instruction::JumpIfZero(code.len() as usize),
                    ).push(Instruction::JumpIfNotZero(stack.last())),
                    stack.drop_last(),
                    line2,
                    col2,
                );
            } else {
                lemma_parse_rec_class(s, i + 1, code, stack, line2, col2);
            }
        }
    }
}

/// The assembler's outcome, classified by the source's brackets alone:
/// it succeeds exactly on balanced, properly nested sources; it fails with
/// `UnmatchedCloseLoop` exactly when some prefix closes a bracket that was
/// not open; and it fails with `UnmatchedOpenLoop` exactly when no prefix
/// does so but brackets stay open at the end.
pub proof fn lemma_parse_classifies(s: Seq<char>)
    ensures
        (parse_spec(s) is Ok) <==> balanced(s),
        (parse_spec(s) matches Err(e) && e is UnmatchedCloseLoop) <==> !prefixes_ok(
            s,
            s.len() as int,
        ),
        (parse_spec(s) matches Err(e) && e is UnmatchedOpenLoop) <==> (prefixes_ok(
            s,
            s.len() as int,
        ) && net(s, s.len() as int) > 0),
{
    lemma_parse_rec_class(s, 0, Seq::empty(), Seq::empty(), 1, 0);
}

} // verus!
