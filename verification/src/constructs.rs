//! The constructs of the emitted text: every loop and every guarded block
//! that opens is closed, in the order in which they were opened.

use crate::bf_ops::{jump_depth, jumps_nested, BfOp, BfOpKind};
use crate::code_generator::{
    body_lines, br_line, const_line, label_at, loop_line, main_lines, op_lines, ADD, CALL_READ,
    CALL_WRITE, CONST_ZERO, END, GET_INDEX, GET_TEMP, IF, LOAD, LOCAL_DECL, LOOP_PREFIX,
    SET_INDEX, SET_TEMP, STORE, SUB,
};
use vstd::prelude::*;

verus! {

/// Whether `line` opens a construct: the header of a loop, or `if`.
pub open spec fn opens_construct(line: Seq<char>) -> bool {
    line == IF@ || LOOP_PREFIX@.is_prefix_of(line)
}

/// Whether `line` closes a construct: `end`.
pub open spec fn closes_construct(line: Seq<char>) -> bool {
    line == END@
}

/// Whether `line` neither opens nor closes a construct.
pub open spec fn is_plain(line: Seq<char>) -> bool {
    !opens_construct(line) && !closes_construct(line)
}

/// Constructs opened minus constructs closed among the first `n` lines.
pub open spec fn construct_depth(lines: Seq<Seq<char>>, n: int) -> int
    decreases n,
{
    if n <= 0 {
        0
    } else if opens_construct(lines[n - 1]) {
        construct_depth(lines, n - 1) + 1
    } else if closes_construct(lines[n - 1]) {
        construct_depth(lines, n - 1) - 1
    } else {
        construct_depth(lines, n - 1)
    }
}

/// The constructs of `lines` nest: no `end` comes with nothing open, and
/// nothing stays open at the end.
pub open spec fn constructs_nested(lines: Seq<Seq<char>>) -> bool {
    &&& forall|n: int| 0 <= n <= lines.len() ==> construct_depth(lines, n) >= 0
    &&& construct_depth(lines, lines.len() as int) == 0
}

/// A line that begins with none of `i`, `l` and `e` is plain.
proof fn lemma_plain_by_first(line: Seq<char>)
    requires
        line.len() > 0,
        line[0] != 'i',
        line[0] != 'l',
        line[0] != 'e',
    ensures
        is_plain(line),
{
    reveal_strlit("if");
    reveal_strlit("end");
    reveal_strlit("loop $loop_");
    if LOOP_PREFIX@.is_prefix_of(line) {
        assert(line.subrange(0, LOOP_PREFIX@.len() as int)[0] == LOOP_PREFIX@[0]);
    }
}

/// A line that begins with `i3` is plain.
proof fn lemma_plain_by_i3(line: Seq<char>)
    requires
        line.len() > 1,
        line[0] == 'i',
        line[1] == '3',
    ensures
        is_plain(line),
{
    reveal_strlit("if");
    reveal_strlit("end");
    reveal_strlit("loop $loop_");
    if LOOP_PREFIX@.is_prefix_of(line) {
        assert(line.subrange(0, LOOP_PREFIX@.len() as int)[0] == LOOP_PREFIX@[0]);
    }
}

/// A line that begins with `loc` is plain.
proof fn lemma_plain_by_loc(line: Seq<char>)
    requires
        line.len() > 2,
        line[0] == 'l',
        line[2] == 'c',
    ensures
        is_plain(line),
{
    reveal_strlit("if");
    reveal_strlit("end");
    reveal_strlit("loop $loop_");
    if LOOP_PREFIX@.is_prefix_of(line) {
        assert(line.subrange(0, LOOP_PREFIX@.len() as int)[2] == LOOP_PREFIX@[2]);
    }
}

/// What each line of the emitted text does to the constructs: `if` and a
/// loop header open one, `end` closes one, every other line is plain.
pub proof fn lemma_lines_classified()
    ensures
        is_plain(LOCAL_DECL@),
        is_plain(GET_INDEX@),
        is_plain(SET_INDEX@),
        is_plain(LOAD@),
        is_plain(STORE@),
        is_plain(ADD@),
        is_plain(SUB@),
        is_plain(CONST_ZERO@),
        is_plain(SET_TEMP@),
        is_plain(GET_TEMP@),
        is_plain(CALL_READ@),
        is_plain(CALL_WRITE@),
        opens_construct(IF@),
        !closes_construct(IF@),
        closes_construct(END@),
        !opens_construct(END@),
        forall|n: int| is_plain(#[trigger] const_line(n)),
        forall|label: nat| is_plain(#[trigger] br_line(label)),
        forall|label: nat|
            opens_construct(#[trigger] loop_line(label)) && !closes_construct(loop_line(label)),
{
    reveal_strlit("(local $mvDataTemp i32)");
    reveal_strlit("global.get $index");
    reveal_strlit("global.set $index");
    reveal_strlit("i32.load8_u");
    reveal_strlit("i32.store8");
    reveal_strlit("i32.add");
    reveal_strlit("i32.sub");
    reveal_strlit("if");
    reveal_strlit("end");
    reveal_strlit("i32.const 0");
    reveal_strlit("local.set $mvDataTemp");
    reveal_strlit("local.get $mvDataTemp");
    reveal_strlit("call $read_one_byte");
    reveal_strlit("call $write_one_byte");
    reveal_strlit("i32.const ");
    reveal_strlit("loop $loop_");
    reveal_strlit("br $loop_");
    lemma_plain_by_first(LOCAL_DECL@);
    lemma_plain_by_first(GET_INDEX@);
    lemma_plain_by_first(SET_INDEX@);
    lemma_plain_by_i3(LOAD@);
    lemma_plain_by_i3(STORE@);
    lemma_plain_by_i3(ADD@);
    lemma_plain_by_i3(SUB@);
    lemma_plain_by_i3(CONST_ZERO@);
    lemma_plain_by_loc(SET_TEMP@);
    lemma_plain_by_loc(GET_TEMP@);
    lemma_plain_by_first(CALL_READ@);
    lemma_plain_by_first(CALL_WRITE@);
    if LOOP_PREFIX@.is_prefix_of(IF@) {
    }
    if LOOP_PREFIX@.is_prefix_of(END@) {
    }
    assert forall|n: int| is_plain(#[trigger] const_line(n)) by {
        lemma_plain_by_i3(const_line(n));
    }
    assert forall|label: nat| is_plain(#[trigger] br_line(label)) by {
        lemma_plain_by_first(br_line(label));
    }
    assert forall|label: nat|
        opens_construct(#[trigger] loop_line(label)) && !closes_construct(loop_line(label)) by {
        let line = loop_line(label);
        assert(line.subrange(0, LOOP_PREFIX@.len() as int) =~= LOOP_PREFIX@);
        assert(line[0] == 'l');
    }
}

/// Plain lines leave the construct depth where it was.
proof fn lemma_plain_lines(lines: Seq<Seq<char>>, n: int)
    requires
        0 <= n <= lines.len(),
        forall|i: int| 0 <= i < n ==> is_plain(lines[i]),
    ensures
        construct_depth(lines, n) == 0,
    decreases n,
{
    if n > 0 {
        lemma_plain_lines(lines, n - 1);
    }
}

/// The depth inside the first of two joined texts is that text's own.
proof fn lemma_depth_of_prefix(a: Seq<Seq<char>>, b: Seq<Seq<char>>, k: int)
    requires
        0 <= k <= a.len(),
    ensures
        construct_depth(a + b, k) == construct_depth(a, k),
    decreases k,
{
    if k > 0 {
        lemma_depth_of_prefix(a, b, k - 1);
        assert((a + b)[k - 1] == a[k - 1]);
    }
}

/// The depth inside the second of two joined texts is its own on top of the
/// depth that the first ends with.
proof fn lemma_depth_of_suffix(a: Seq<Seq<char>>, b: Seq<Seq<char>>, k: int)
    requires
        0 <= k <= b.len(),
    ensures
        construct_depth(a + b, a.len() + k) == construct_depth(a, a.len() as int) + construct_depth(
            b,
            k,
        ),
    decreases k,
{
    if k > 0 {
        lemma_depth_of_suffix(a, b, k - 1);
        assert((a + b)[a.len() + k - 1] == b[k - 1]);
    } else {
        lemma_depth_of_prefix(a, b, a.len() as int);
    }
}

/// What the lines of an operation of `kind` add to the construct depth: a
/// jump-if-zero leaves a loop and a guarded block open, a jump-if-not-zero
/// closes the two, every other operation closes what it opens.
pub open spec fn construct_delta(kind: BfOpKind) -> int {
    if kind == BfOpKind::JumpIfDataZero {
        2
    } else if kind == BfOpKind::JumpIfDataNotZero {
        -2
    } else {
        0
    }
}

/// The lines of one operation change the construct depth by what its kind
/// says, and on the way never take it lower than where they start or end.
pub proof fn lemma_op_constructs(op: BfOp, label: nat)
    ensures
        construct_depth(op_lines(op, label), op_lines(op, label).len() as int) == construct_delta(
            op.kind,
        ),
        forall|k: int|
            0 <= k <= op_lines(op, label).len() ==> #[trigger] construct_depth(
                op_lines(op, label),
                k,
            ) >= 0 || construct_depth(op_lines(op, label), k) >= construct_delta(op.kind),
{
    let lines = op_lines(op, label);
    lemma_lines_classified();
    match op.kind {
        BfOpKind::ReadStdin | BfOpKind::WriteStdout => {
            assert forall|k: int| 0 <= k <= lines.len() implies #[trigger] construct_depth(lines, k)
                == 0 by {
                lemma_plain_lines(lines, k);
            }
        },
        _ => {
            reveal_with_fuel(construct_depth, 20);
        },
    }
}

/// The lines of the first `n` operations leave twice as many constructs
/// open as there are loops open, and never close what is not open.
pub proof fn lemma_body_constructs(ops: Seq<BfOp>, n: int)
    requires
        0 <= n <= ops.len(),
        forall|m: int| 0 <= m <= n ==> jump_depth(ops, m) >= 0,
    ensures
        construct_depth(body_lines(ops, n), body_lines(ops, n).len() as int) == 2 * jump_depth(
            ops,
            n,
        ),
        forall|k: int|
            0 <= k <= body_lines(ops, n).len() ==> #[trigger] construct_depth(body_lines(ops, n), k)
                >= 0,
    decreases n,
{
    if n > 0 {
        lemma_body_constructs(ops, n - 1);
        let before = body_lines(ops, n - 1);
        let op = ops[n - 1];
        let group = op_lines(op, label_at(ops, n - 1));
        lemma_op_constructs(op, label_at(ops, n - 1));
        lemma_depth_of_suffix(before, group, group.len() as int);
        assert(jump_depth(ops, n) >= 0);
        assert(jump_depth(ops, n - 1) >= 0);
        assert forall|k: int| 0 <= k <= body_lines(ops, n).len() implies #[trigger] construct_depth(
            body_lines(ops, n),
            k,
        ) >= 0 by {
            if k <= before.len() {
                lemma_depth_of_prefix(before, group, k);
            } else {
                lemma_depth_of_suffix(before, group, k - before.len());
                assert(construct_depth(group, k - before.len()) >= 0 || construct_depth(
                    group,
                    k - before.len(),
                ) >= construct_delta(op.kind));
            }
        }
    }
}

/// The text emitted for a program whose jumps nest is itself nested: every
/// loop and every guarded block that a line opens is closed by an `end`,
/// and no `end` comes with nothing open.
pub proof fn lemma_emitted_constructs_nest(ops: Seq<BfOp>)
    requires
        jumps_nested(ops),
    ensures
        constructs_nested(main_lines(ops)),
{
    let first = seq![LOCAL_DECL@];
    let body = body_lines(ops, ops.len() as int);
    lemma_lines_classified();
    lemma_body_constructs(ops, ops.len() as int);
    lemma_plain_lines(first, 1);
    lemma_depth_of_suffix(first, body, body.len() as int);
    assert forall|k: int| 0 <= k <= main_lines(ops).len() implies construct_depth(
        main_lines(ops),
        k,
    ) >= 0 by {
        if k <= 1 {
            lemma_depth_of_prefix(first, body, k);
            lemma_plain_lines(first, k);
        } else {
            lemma_depth_of_suffix(first, body, k - 1);
        }
    }
}

} // verus!
