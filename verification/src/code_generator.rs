//! Emission of WebAssembly text from the intermediate representation.

use crate::bf_ops::{
    encloses, jump_depth, jumps_matched, jumps_nested, jumps_paired, BfOp, BfOpKind,
};
use crate::constructs::{constructs_nested, lemma_emitted_constructs_nest};
use crate::decimal::{decimal_text, push_decimal};
use vstd::prelude::*;
use vstd::string::StringExecFns;

verus! {

/// Declaration of the scratch local that a data transfer uses.
pub const LOCAL_DECL: &'static str = "(local $mvDataTemp i32)";

/// Pushes the cell pointer.
pub const GET_INDEX: &'static str = "global.get $index";

/// Pops into the cell pointer.
pub const SET_INDEX: &'static str = "global.set $index";

/// Loads the byte at the address on top of the stack.
pub const LOAD: &'static str = "i32.load8_u";

/// Stores a byte; the store keeps the low eight bits, which is the cell's
/// wraparound arithmetic.
pub const STORE: &'static str = "i32.store8";

/// Adds the two values on top of the stack.
pub const ADD: &'static str = "i32.add";

/// Subtracts the value on top of the stack from the one below it.
pub const SUB: &'static str = "i32.sub";

/// Opens a block that runs if the value on top of the stack is not zero.
pub const IF: &'static str = "if";

/// Closes the innermost open block or loop.
pub const END: &'static str = "end";

/// Pushes zero.
pub const CONST_ZERO: &'static str = "i32.const 0";

/// Pops into the scratch local.
pub const SET_TEMP: &'static str = "local.set $mvDataTemp";

/// Pushes the scratch local.
pub const GET_TEMP: &'static str = "local.get $mvDataTemp";

/// Reads one byte of input into the current cell.
pub const CALL_READ: &'static str = "call $read_one_byte";

/// Writes the current cell as one byte of output.
pub const CALL_WRITE: &'static str = "call $write_one_byte";

/// What comes before the number in a constant instruction.
pub const CONST_PREFIX: &'static str = "i32.const ";

/// What comes before the label's number in a loop header.
pub const LOOP_PREFIX: &'static str = "loop $loop_";

/// What comes before the label's number in a branch to a loop head.
pub const BR_PREFIX: &'static str = "br $loop_";

/// What comes before the body of the entry procedure: the imports of the
/// two host capabilities, one page of memory, the cell pointer starting
/// above the staging area for I/O, the two trampolines and the header of
/// the entry procedure.
pub const MODULE_HEAD: &'static str = r#"
(module
    (import "wasi_unstable" "fd_read" (func $fd_read (param i32 i32 i32 i32) (result i32)))

    (import "wasi_unstable" "fd_write" (func $fd_write (param i32 i32 i32 i32) (result i32)))

    (memory $mem 1)
    (export "memory" (memory $mem))
    (global $index (mut i32) (i32.const 8))

    (func $write_one_byte
        i32.const 0
        global.get $index
        i32.store8
        (i32.store8 (i32.const 4) (i32.const 1))
        (call $fd_write
            (i32.const 1)
            (i32.const 0)
            (i32.const 1)
            (i32.const 30012)
        )
        drop
    )

    (func $read_one_byte
        i32.const 0
        global.get $index
        i32.store8
        (i32.store8 (i32.const 4) (i32.const 1))
        (call $fd_read
            (i32.const 0)
            (i32.const 0)
            (i32.const 1)
            (i32.const 30012)
        )
        drop
    )

    (func $main (export "_start")
"#;

/// Indentation of the first line of the body.
pub const BODY_INDENT: &'static str = "        ";

/// What stands between two lines of the body.
pub const LINE_BREAK: &'static str = "\n        ";

/// What closes the entry procedure and the module.
pub const MODULE_TAIL: &'static str = "\n    )\n)\n";

/// The instruction that pushes the constant `n`.
pub open spec fn const_line(n: int) -> Seq<char> {
    CONST_PREFIX@ + decimal_text(n)
}

/// The header of the loop construct labelled `label`.
pub open spec fn loop_line(label: nat) -> Seq<char> {
    LOOP_PREFIX@ + decimal_text(label as int)
}

/// The branch back to the head of the loop labelled `label`.
pub open spec fn br_line(label: nat) -> Seq<char> {
    BR_PREFIX@ + decimal_text(label as int)
}

/// `count` copies of `line`; none when `count` is not positive.
pub open spec fn repeated(line: Seq<char>, count: int) -> Seq<Seq<char>> {
    Seq::new(
        if count > 0 {
            count as nat
        } else {
            0
        },
        |i: int| line,
    )
}

/// The lines emitted for one operation.
///
/// `label` is the fresh label for an operation that opens a loop construct
/// and the label of the construct being closed for a jump-if-not-zero; the
/// other kinds do not use it.
pub open spec fn op_lines(op: BfOp, label: nat) -> Seq<Seq<char>> {
    let n = op.argument as int;
    match op.kind {
        BfOpKind::IncData => seq![GET_INDEX@, GET_INDEX@, LOAD@, const_line(n), ADD@, STORE@],
        BfOpKind::DecData => seq![GET_INDEX@, GET_INDEX@, LOAD@, const_line(n), SUB@, STORE@],
        BfOpKind::IncPtr => seq![GET_INDEX@, const_line(n), ADD@, SET_INDEX@],
        BfOpKind::DecPtr => seq![GET_INDEX@, const_line(n), SUB@, SET_INDEX@],
        BfOpKind::JumpIfDataZero => seq![loop_line(label), GET_INDEX@, LOAD@, IF@],
        BfOpKind::JumpIfDataNotZero => seq![
            GET_INDEX@,
            LOAD@,
            IF@,
            br_line(label),
            END@,
            END@,
            END@,
        ],
        BfOpKind::LoopSetToZero => seq![GET_INDEX@, CONST_ZERO@, STORE@],
        BfOpKind::LoopMovePtr => seq![
            loop_line(label),
            GET_INDEX@,
            LOAD@,
            IF@,
            GET_INDEX@,
            const_line(n),
            ADD@,
            SET_INDEX@,
            br_line(label),
            END@,
            END@,
        ],
        BfOpKind::LoopMoveData => seq![
            GET_INDEX@,
            LOAD@,
            IF@,
            GET_INDEX@,
            const_line(n),
            ADD@,
            SET_TEMP@,
            GET_TEMP@,
            GET_INDEX@,
            LOAD@,
            GET_TEMP@,
            LOAD@,
            ADD@,
            STORE@,
            GET_INDEX@,
            CONST_ZERO@,
            STORE@,
            END@,
        ],
        BfOpKind::ReadStdin => repeated(CALL_READ@, n),
        BfOpKind::WriteStdout => repeated(CALL_WRITE@, n),
    }
}

/// Whether an operation of this kind takes a fresh label when it is emitted.
pub open spec fn issues_label(kind: BfOpKind) -> bool {
    kind == BfOpKind::JumpIfDataZero || kind == BfOpKind::LoopMovePtr
}

/// How many labels the first `n` operations take.
pub open spec fn labels_issued(ops: Seq<BfOp>, n: int) -> nat
    decreases n,
{
    if n <= 0 {
        0
    } else if issues_label(ops[n - 1].kind) {
        labels_issued(ops, n - 1) + 1
    } else {
        labels_issued(ops, n - 1)
    }
}

/// The labels of the loop constructs that are open after the first `n`
/// operations, outermost first.
pub open spec fn open_labels(ops: Seq<BfOp>, n: int) -> Seq<nat>
    decreases n,
{
    if n <= 0 {
        Seq::empty()
    } else if ops[n - 1].kind == BfOpKind::JumpIfDataZero {
        open_labels(ops, n - 1).push(labels_issued(ops, n - 1))
    } else if ops[n - 1].kind == BfOpKind::JumpIfDataNotZero {
        open_labels(ops, n - 1).drop_last()
    } else {
        open_labels(ops, n - 1)
    }
}

/// The label that the operation at index `i` is emitted with.
pub open spec fn label_at(ops: Seq<BfOp>, i: int) -> nat {
    if ops[i].kind == BfOpKind::JumpIfDataNotZero {
        open_labels(ops, i).last()
    } else {
        labels_issued(ops, i)
    }
}

/// The lines emitted for the first `n` operations.
pub open spec fn body_lines(ops: Seq<BfOp>, n: int) -> Seq<Seq<char>>
    decreases n,
{
    if n <= 0 {
        Seq::empty()
    } else {
        body_lines(ops, n - 1) + op_lines(ops[n - 1], label_at(ops, n - 1))
    }
}

/// The body of the entry procedure: the declaration of the scratch local,
/// then the lines of every operation in order.
pub open spec fn main_lines(ops: Seq<BfOp>) -> Seq<Seq<char>> {
    seq![LOCAL_DECL@] + body_lines(ops, ops.len() as int)
}

/// The count of issued labels never shrinks along the operations.
pub proof fn lemma_labels_issued_monotonic(ops: Seq<BfOp>, m: int, n: int)
    requires
        0 <= m <= n,
    ensures
        labels_issued(ops, m) <= labels_issued(ops, n) <= labels_issued(ops, m) + (n - m),
    decreases n,
{
    if m < n {
        lemma_labels_issued_monotonic(ops, m, n - 1);
    }
}

/// As many labels are open as the jump depth says, wherever the depth has
/// not gone below zero before.
pub proof fn lemma_open_labels_len(ops: Seq<BfOp>, n: int)
    requires
        0 <= n,
        forall|m: int| 0 <= m <= n ==> jump_depth(ops, m) >= 0,
    ensures
        open_labels(ops, n).len() == jump_depth(ops, n),
    decreases n,
{
    if n > 0 {
        lemma_open_labels_len(ops, n - 1);
    }
}

/// The label of a loop stays on the stack, where the jump-if-zero at `open`
/// put it, for as long as the loop is open.
pub proof fn lemma_label_stays_open(ops: Seq<BfOp>, open: int, n: int)
    requires
        0 <= open < n,
        ops[open].kind == BfOpKind::JumpIfDataZero,
        forall|m: int| 0 <= m <= n ==> jump_depth(ops, m) >= 0,
        forall|m: int| open < m <= n ==> #[trigger] jump_depth(ops, m) > jump_depth(ops, open),
    ensures
        open_labels(ops, n).len() == jump_depth(ops, n),
        open_labels(ops, n)[jump_depth(ops, open)] == labels_issued(ops, open),
    decreases n,
{
    lemma_open_labels_len(ops, n);
    lemma_open_labels_len(ops, n - 1);
    if n > open + 1 {
        lemma_label_stays_open(ops, open, n - 1);
        assert(jump_depth(ops, n - 1) > jump_depth(ops, open));
        assert(jump_depth(ops, n) > jump_depth(ops, open));
    }
}

/// In a well-formed program the branch that a jump-if-not-zero emits goes
/// to the head of the loop that its partner opened: both are emitted with
/// the same label.
pub proof fn lemma_branch_targets_partner(ops: Seq<BfOp>, close: int)
    requires
        jumps_nested(ops),
        jumps_paired(ops),
        jumps_matched(ops),
        0 <= close < ops.len(),
        ops[close].kind == BfOpKind::JumpIfDataNotZero,
    ensures
        label_at(ops, close) == label_at(ops, ops[close].argument as int),
{
    let open = ops[close].argument as int;
    assert(ops[open].kind == BfOpKind::JumpIfDataZero);
    assert(ops[open].argument == close);
    assert(encloses(ops, open, close));
    lemma_label_stays_open(ops, open, close);
    assert(jump_depth(ops, close + 1) == jump_depth(ops, close) - 1);
}

/// Two operations that open a loop construct never share a label.
pub proof fn lemma_labels_differ(ops: Seq<BfOp>, i: int, j: int)
    requires
        0 <= i < j < ops.len(),
        issues_label(ops[i].kind),
        issues_label(ops[j].kind),
    ensures
        label_at(ops, i) < label_at(ops, j),
{
    lemma_labels_issued_monotonic(ops, i + 1, j);
}

/// Source of loop labels, with the labels of the constructs that are open.
pub struct LabelStack {
    index: u32,
    stack: Vec<u32>,
}

impl LabelStack {
    /// The label that the next `push` hands out.
    pub closed spec fn next_label(&self) -> nat {
        self.index as nat
    }

    /// The labels on the stack, bottom first.
    pub closed spec fn labels(&self) -> Seq<nat> {
        self.stack@.map_values(|l: u32| l as nat)
    }

    /// Labels on the stack grow from bottom to top and are all older than
    /// the next label, which fits the counter.
    pub open spec fn wf(&self) -> bool {
        &&& self.next_label() <= u32::MAX
        &&& forall|i: int| 0 <= i < self.labels().len() ==> self.labels()[i] < self.next_label()
        &&& forall|i: int, j: int|
            0 <= i < j < self.labels().len() ==> self.labels()[i] < self.labels()[j]
    }

    /// An empty stack whose first label is 0.
    pub fn new() -> (stack: Self)
        ensures
            stack.wf(),
            stack.next_label() == 0,
            stack.labels() == Seq::<nat>::empty(),
    {
        LabelStack { index: 0, stack: Vec::new() }
    }

    /// Takes a fresh label, pushes it and returns it.
    pub fn push(&mut self) -> (label: u32)
        requires
            old(self).wf(),
            old(self).next_label() < u32::MAX,
        ensures
            final(self).wf(),
            label == old(self).next_label(),
            final(self).next_label() == old(self).next_label() + 1,
            final(self).labels() == old(self).labels().push(label as nat),
    {
        let current = self.index;
        self.stack.push(current);
        self.index += 1;
        proof {
            assert(self.labels() =~= old(self).labels().push(current as nat));
        }
        current
    }

    /// Removes the label on top and returns it.
    pub fn pop(&mut self) -> (label: u32)
        requires
            old(self).wf(),
            old(self).labels().len() > 0,
        ensures
            final(self).wf(),
            label == old(self).labels().last(),
            final(self).next_label() == old(self).next_label(),
            final(self).labels() == old(self).labels().drop_last(),
    {
        let label = self.stack.pop().unwrap();
        proof {
            assert(self.labels() =~= old(self).labels().drop_last());
        }
        label
    }
}

/// Appends `text` as one more line.
fn emit(lines: &mut Vec<String>, text: &str)
    ensures
        final(lines).deep_view() == old(lines).deep_view().push(text@),
{
    lines.push(String::from_str(text));
}

/// Appends the line made of `prefix` and the decimal text of `n`.
fn emit_numbered(lines: &mut Vec<String>, prefix: &str, n: i64)
    ensures
        final(lines).deep_view() == old(lines).deep_view().push(prefix@ + decimal_text(n as int)),
{
    let mut line = String::from_str(prefix);
    push_decimal(&mut line, n);
    lines.push(line);
}

/// Appends `count` copies of `text`, none when `count` is not positive.
fn emit_repeated(lines: &mut Vec<String>, text: &str, count: i32)
    ensures
        final(lines).deep_view() == old(lines).deep_view() + repeated(text@, count as int),
{
    let mut done: i32 = 0;
    while done < count
        invariant
            0 <= done,
            count > 0 ==> done <= count,
            count <= 0 ==> done == 0,
            lines.deep_view() == old(lines).deep_view() + repeated(text@, done as int),
        decreases count - done,
    {
        emit(lines, text);
        done += 1;
    }
    proof {
        assert(repeated(text@, done as int) =~= repeated(text@, count as int));
    }
}

/// Emits a change of the current cell by `amount`: load the byte, apply
/// `operator`, store it back.
fn emit_cell_update(lines: &mut Vec<String>, amount: i32, operator: &str)
    ensures
        final(lines).deep_view() == old(lines).deep_view() + seq![
            GET_INDEX@,
            GET_INDEX@,
            LOAD@,
            const_line(amount as int),
            operator@,
            STORE@,
        ],
{
    emit(lines, GET_INDEX);
    emit(lines, GET_INDEX);
    emit(lines, LOAD);
    emit_numbered(lines, CONST_PREFIX, amount as i64);
    emit(lines, operator);
    emit(lines, STORE);
}

/// Emits a move of the cell pointer by `amount` in the direction of
/// `operator`.
fn emit_pointer_update(lines: &mut Vec<String>, amount: i32, operator: &str)
    ensures
        final(lines).deep_view() == old(lines).deep_view() + seq![
            GET_INDEX@,
            const_line(amount as int),
            operator@,
            SET_INDEX@,
        ],
{
    emit(lines, GET_INDEX);
    emit_numbered(lines, CONST_PREFIX, amount as i64);
    emit(lines, operator);
    emit(lines, SET_INDEX);
}

/// Emits the head of a general loop: the loop construct labelled `label`
/// and, inside it, the block guarded by the current cell.
fn emit_loop_open(lines: &mut Vec<String>, label: u32)
    ensures
        final(lines).deep_view() == old(lines).deep_view() + seq![
            loop_line(label as nat),
            GET_INDEX@,
            LOAD@,
            IF@,
        ],
{
    emit_numbered(lines, LOOP_PREFIX, label as i64);
    emit(lines, GET_INDEX);
    emit(lines, LOAD);
    emit(lines, IF);
}

/// Emits the tail of a general loop: branch back to `label` while the
/// current cell is not zero, then close the branch test, the guarded block
/// and the loop construct.
fn emit_loop_close(lines: &mut Vec<String>, label: u32)
    ensures
        final(lines).deep_view() == old(lines).deep_view() + seq![
            GET_INDEX@,
            LOAD@,
            IF@,
            br_line(label as nat),
            END@,
            END@,
            END@,
        ],
{
    emit(lines, GET_INDEX);
    emit(lines, LOAD);
    emit(lines, IF);
    emit_numbered(lines, BR_PREFIX, label as i64);
    emit(lines, END);
    emit(lines, END);
    emit(lines, END);
}

/// Emits the store of zero into the current cell.
fn emit_clear(lines: &mut Vec<String>)
    ensures
        final(lines).deep_view() == old(lines).deep_view() + seq![
            GET_INDEX@,
            CONST_ZERO@,
            STORE@,
        ],
{
    emit(lines, GET_INDEX);
    emit(lines, CONST_ZERO);
    emit(lines, STORE);
}

/// Emits a pointer scan: a loop construct of its own that moves the pointer
/// by `step` until it rests on a zero cell.
fn emit_scan(lines: &mut Vec<String>, step: i32, label: u32)
    ensures
        final(lines).deep_view() == old(lines).deep_view() + seq![
            loop_line(label as nat),
            GET_INDEX@,
            LOAD@,
            IF@,
            GET_INDEX@,
            const_line(step as int),
            ADD@,
            SET_INDEX@,
            br_line(label as nat),
            END@,
            END@,
        ],
{
    emit_numbered(lines, LOOP_PREFIX, label as i64);
    emit(lines, GET_INDEX);
    emit(lines, LOAD);
    emit(lines, IF);
    emit(lines, GET_INDEX);
    emit_numbered(lines, CONST_PREFIX, step as i64);
    emit(lines, ADD);
    emit(lines, SET_INDEX);
    emit_numbered(lines, BR_PREFIX, label as i64);
    emit(lines, END);
    emit(lines, END);
}

/// Emits a data transfer: if the current cell is not zero, add it into the
/// cell `offset` away and clear it. One guarded block, no loop.
fn emit_transfer(lines: &mut Vec<String>, offset: i32)
    ensures
        final(lines).deep_view() == old(lines).deep_view() + seq![
            GET_INDEX@,
            LOAD@,
            IF@,
            GET_INDEX@,
            const_line(offset as int),
            ADD@,
            SET_TEMP@,
            GET_TEMP@,
            GET_INDEX@,
            LOAD@,
            GET_TEMP@,
            LOAD@,
            ADD@,
            STORE@,
            GET_INDEX@,
            CONST_ZERO@,
            STORE@,
            END@,
        ],
{
    emit(lines, GET_INDEX);
    emit(lines, LOAD);
    emit(lines, IF);
    emit(lines, GET_INDEX);
    emit_numbered(lines, CONST_PREFIX, offset as i64);
    emit(lines, ADD);
    emit(lines, SET_TEMP);
    emit(lines, GET_TEMP);
    emit(lines, GET_INDEX);
    emit(lines, LOAD);
    emit(lines, GET_TEMP);
    emit(lines, LOAD);
    emit(lines, ADD);
    emit(lines, STORE);
    emit(lines, GET_INDEX);
    emit(lines, CONST_ZERO);
    emit(lines, STORE);
    emit(lines, END);
}

/// Emits the body of the entry procedure, one group of lines per operation.
///
/// A jump-if-zero opens a loop construct under a fresh label; its
/// jump-if-not-zero branches back to that label and closes the construct. A
/// pointer scan opens and closes a construct of its own.
pub fn generate_main(ops: &[BfOp]) -> (lines: Vec<String>)
    requires
        jumps_nested(ops@),
        labels_issued(ops@, ops@.len() as int) <= u32::MAX,
    ensures
        lines.deep_view() == main_lines(ops@),
        constructs_nested(lines.deep_view()),
{
    proof {
        lemma_emitted_constructs_nest(ops@);
    }
    let mut label_stack = LabelStack::new();
    let mut lines: Vec<String> = Vec::new();
    emit(&mut lines, LOCAL_DECL);
    let mut i: usize = 0;
    while i < ops.len()
        invariant
            i <= ops.len(),
            jumps_nested(ops@),
            labels_issued(ops@, ops@.len() as int) <= u32::MAX,
            label_stack.wf(),
            label_stack.next_label() == labels_issued(ops@, i as int),
            label_stack.labels() == open_labels(ops@, i as int),
            lines.deep_view() == seq![LOCAL_DECL@] + body_lines(ops@, i as int),
        decreases ops.len() - i,
    {
        let op = ops[i];
        let ghost before = lines.deep_view();
        proof {
            lemma_labels_issued_monotonic(ops@, i as int + 1, ops@.len() as int);
            lemma_open_labels_len(ops@, i as int);
            assert(jump_depth(ops@, i as int + 1) >= 0);
        }
        match op.kind {
            BfOpKind::IncData => emit_cell_update(&mut lines, op.argument, ADD),
            BfOpKind::DecData => emit_cell_update(&mut lines, op.argument, SUB),
            BfOpKind::IncPtr => emit_pointer_update(&mut lines, op.argument, ADD),
            BfOpKind::DecPtr => emit_pointer_update(&mut lines, op.argument, SUB),
            BfOpKind::JumpIfDataZero => {
                let current = label_stack.push();
                emit_loop_open(&mut lines, current);
            },
            BfOpKind::JumpIfDataNotZero => {
                let current = label_stack.pop();
                emit_loop_close(&mut lines, current);
            },
            BfOpKind::LoopSetToZero => emit_clear(&mut lines),
            BfOpKind::LoopMovePtr => {
                let current = label_stack.push();
                emit_scan(&mut lines, op.argument, current);
                label_stack.pop();
            },
            BfOpKind::LoopMoveData => emit_transfer(&mut lines, op.argument),
            BfOpKind::ReadStdin => emit_repeated(&mut lines, CALL_READ, op.argument),
            BfOpKind::WriteStdout => emit_repeated(&mut lines, CALL_WRITE, op.argument),
        }
        proof {
            assert(lines.deep_view() == before + op_lines(op, label_at(ops@, i as int)));
            assert(label_stack.labels() =~= open_labels(ops@, i as int + 1));
        }
        i += 1;
    }
    proof {
        // Every label that was pushed has been popped.
        lemma_open_labels_len(ops@, ops@.len() as int);
        assert(label_stack.labels().len() == 0);
    }
    lines
}

/// The first `n` of `lines`, with `separator` between each two.
pub open spec fn joined(lines: Seq<Seq<char>>, separator: Seq<char>, n: int) -> Seq<char>
    decreases n,
{
    if n <= 0 {
        Seq::empty()
    } else if n == 1 {
        lines[0]
    } else {
        joined(lines, separator, n - 1) + separator + lines[n - 1]
    }
}

/// The whole module for `ops`: the fixed head, the indented body of the
/// entry procedure, the fixed tail.
pub open spec fn wat_text(ops: Seq<BfOp>) -> Seq<char> {
    let body = main_lines(ops);
    MODULE_HEAD@ + BODY_INDENT@ + joined(body, LINE_BREAK@, body.len() as int) + MODULE_TAIL@
}

/// Generates the module text for `ops`.
pub fn generate_wat(ops: &[BfOp]) -> (text: String)
    requires
        jumps_nested(ops@),
        labels_issued(ops@, ops@.len() as int) <= u32::MAX,
    ensures
        text@ == wat_text(ops@),
{
    let main_body = generate_main(ops);
    let mut text = String::from_str(MODULE_HEAD);
    text.append(BODY_INDENT);
    let ghost lines = main_body.deep_view();
    let mut i: usize = 0;
    while i < main_body.len()
        invariant
            i <= main_body.len(),
            lines == main_body.deep_view(),
            text@ == MODULE_HEAD@ + BODY_INDENT@ + joined(lines, LINE_BREAK@, i as int),
        decreases main_body.len() - i,
    {
        if i > 0 {
            text.append(LINE_BREAK);
        }
        text.append(main_body[i].as_str());
        proof {
            assert(main_body[i as int]@ == lines[i as int]);
            assert(text@ =~= MODULE_HEAD@ + BODY_INDENT@ + joined(
                lines,
                LINE_BREAK@,
                i as int + 1,
            ));
        }
        i += 1;
    }
    text.append(MODULE_TAIL);
    text
}

} // verus!
