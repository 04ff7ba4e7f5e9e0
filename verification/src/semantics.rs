//! What operations mean on a tape of byte cells, and why a loop that is
//! reduced to one operation still means what the loop meant.
//!
//! The tape here has no ends and the pointer is a mathematical integer; the
//! emitted text runs in one page of memory with a 32-bit pointer.

use crate::bf_ops::{loop_reduction, BfOp, BfOpKind};
use vstd::prelude::*;

verus! {

/// A tape of byte cells, one at every integer position, and the position
/// of the pointer on it.
#[verifier::ext_equal]
pub struct Machine {
    pub pointer: int,
    pub cells: spec_fn(int) -> u8,
}

impl Machine {
    /// The cell at position `at`.
    pub open spec fn read(self, at: int) -> u8 {
        (self.cells)(at)
    }

    /// The cell under the pointer.
    pub open spec fn cell(self) -> u8 {
        self.read(self.pointer)
    }

    /// The machine with the pointer `by` cells further.
    pub open spec fn moved(self, by: int) -> Machine {
        Machine { pointer: self.pointer + by, ..self }
    }

    /// The machine with `value` stored under the pointer. A cell is a byte:
    /// the store keeps `value` modulo 256.
    pub open spec fn stored(self, value: int) -> Machine {
        Machine {
            cells: |at: int|
                if at == self.pointer {
                    (value % 256) as u8
                } else {
                    self.read(at)
                },
            ..self
        }
    }
}

/// The machine after a pointer move, a data change, a clear or a transfer.
///
/// A transfer, where the cell under the pointer is not zero, adds it into
/// the cell `argument` away and then clears it. The other kinds, which
/// jump, loop, read or write, are no part of a loop body that is reduced;
/// here they leave the machine as it is.
pub open spec fn apply(op: BfOp, m: Machine) -> Machine {
    match op.kind {
        BfOpKind::IncPtr => m.moved(op.argument as int),
        BfOpKind::DecPtr => m.moved(-op.argument),
        BfOpKind::IncData => m.stored(m.cell() + op.argument),
        BfOpKind::DecData => m.stored(m.cell() - op.argument),
        BfOpKind::LoopSetToZero => m.stored(0),
        BfOpKind::LoopMoveData => if m.cell() == 0 {
            m
        } else {
            let target = m.moved(op.argument as int);
            target.stored(target.cell() + m.cell()).moved(-op.argument).stored(0)
        },
        _ => m,
    }
}

/// The machine after the operations of `body`, in order.
pub open spec fn apply_all(body: Seq<BfOp>, m: Machine) -> Machine
    decreases body.len(),
{
    if body.len() == 0 {
        m
    } else {
        apply(body.last(), apply_all(body.drop_last(), m))
    }
}

/// The machine after `count` passes through `body`.
pub open spec fn passes(body: Seq<BfOp>, m: Machine, count: nat) -> Machine
    decreases count,
{
    if count == 0 {
        m
    } else {
        apply_all(body, passes(body, m, (count - 1) as nat))
    }
}

/// A loop around `body`, entered with machine `m`, ends after `count`
/// passes: the cell under the pointer is not zero before any of them and
/// zero after the last.
pub open spec fn loop_ends(body: Seq<BfOp>, m: Machine, count: nat) -> bool {
    &&& forall|j: nat| j < count ==> #[trigger] passes(body, m, j).cell() != 0
    &&& passes(body, m, count).cell() == 0
}

/// A scan by `step`, begun with machine `m`, ends after `count` moves: the
/// cells it passes are not zero, the cell it rests on is.
pub open spec fn scan_ends(m: Machine, step: int, count: nat) -> bool {
    &&& forall|j: nat| j < count ==> #[trigger] m.moved(j * step).cell() != 0
    &&& m.moved(count * step).cell() == 0
}

/// The operation `op`, which some loop was reduced to, takes machine `m`
/// to machine `after`.
///
/// A scan is a loop of its own and ends where its cell is zero, if it ends;
/// a clear or a transfer acts at once.
pub open spec fn reduced_op_gives(op: BfOp, m: Machine, after: Machine) -> bool {
    if op.kind == BfOpKind::LoopMovePtr {
        exists|count: nat| #[trigger]
            scan_ends(m, op.argument as int, count) && after == m.moved(count * op.argument)
    } else {
        after == apply(op, m)
    }
}

/// One operation is applied as itself.
proof fn lemma_apply_one(body: Seq<BfOp>, m: Machine)
    requires
        body.len() == 1,
    ensures
        apply_all(body, m) == apply(body[0], m),
{
    reveal_with_fuel(apply_all, 2);
}

/// Four operations are applied one after the other.
proof fn lemma_apply_four(body: Seq<BfOp>, m: Machine)
    requires
        body.len() == 4,
    ensures
        apply_all(body, m) == apply(body[3], apply(body[2], apply(body[1], apply(body[0], m)))),
{
    let three = body.drop_last();
    let two = three.drop_last();
    let one = two.drop_last();
    assert(three.last() == body[2]);
    assert(two.last() == body[1]);
    assert(one.last() == body[0]);
    lemma_apply_one(one, m);
    assert(apply_all(two, m) == apply(two.last(), apply_all(two.drop_last(), m)));
    assert(apply_all(three, m) == apply(three.last(), apply_all(three.drop_last(), m)));
}

/// Passes through one data operation change the cell under the pointer
/// and nothing else.
proof fn lemma_data_passes(body: Seq<BfOp>, m: Machine, count: nat)
    requires
        body.len() == 1,
        body[0].kind == BfOpKind::IncData || body[0].kind == BfOpKind::DecData,
    ensures
        passes(body, m, count) == m.stored(passes(body, m, count).cell() as int),
    decreases count,
{
    let after = passes(body, m, count);
    if count > 0 {
        let before = passes(body, m, (count - 1) as nat);
        lemma_data_passes(body, m, (count - 1) as nat);
        lemma_apply_one(body, before);
        assert(after.cells =~= m.stored(after.cell() as int).cells);
    } else {
        assert(m.cells =~= m.stored(m.cell() as int).cells);
    }
}

/// A loop around one data operation, if it ends, has cleared the cell
/// under the pointer and done nothing else.
pub proof fn lemma_clear_loop(body: Seq<BfOp>, m: Machine, count: nat)
    requires
        body.len() == 1,
        body[0].kind == BfOpKind::IncData || body[0].kind == BfOpKind::DecData,
        loop_ends(body, m, count),
    ensures
        passes(body, m, count) == m.stored(0),
{
    lemma_data_passes(body, m, count);
}

/// Passes through one pointer move by `step` move the pointer and leave the
/// cells alone.
proof fn lemma_move_passes(body: Seq<BfOp>, m: Machine, step: int, count: nat)
    requires
        body.len() == 1,
        apply(body[0], m.moved(0)) == m.moved(step),
        body[0].kind == BfOpKind::IncPtr || body[0].kind == BfOpKind::DecPtr,
    ensures
        passes(body, m, count) == m.moved(count * step),
    decreases count,
{
    if count > 0 {
        let before = passes(body, m, (count - 1) as nat);
        lemma_move_passes(body, m, step, (count - 1) as nat);
        lemma_apply_one(body, before);
        assert((count - 1) * step + step == count * step) by (nonlinear_arith);
        assert(apply(body[0], before) =~= m.moved(count * step));
    } else {
        assert(m.moved(0 * step) =~= m);
    }
}

/// A loop around one pointer move by `step` ends exactly where a scan by
/// `step` ends.
pub proof fn lemma_scan_loop(body: Seq<BfOp>, m: Machine, step: int, count: nat)
    requires
        body.len() == 1,
        body[0].kind == BfOpKind::IncPtr && step == body[0].argument || body[0].kind
            == BfOpKind::DecPtr && step == -body[0].argument,
    ensures
        passes(body, m, count) == m.moved(count * step),
        loop_ends(body, m, count) <==> scan_ends(m, step, count),
{
    assert(m.moved(0) =~= m);
    assert forall|j: nat| #[trigger] passes(body, m, j) == m.moved(j * step) by {
        lemma_move_passes(body, m, step, j);
    }
    if loop_ends(body, m, count) {
        assert forall|j: nat| j < count implies #[trigger] m.moved(j * step).cell() != 0 by {
            assert(passes(body, m, j).cell() != 0);
        }
    }
    if scan_ends(m, step, count) {
        assert forall|j: nat| j < count implies #[trigger] passes(body, m, j).cell() != 0 by {
            assert(m.moved(j * step).cell() != 0);
        }
    }
}

/// Whether `body` takes one from the cell under the pointer, gives one to
/// the cell `offset` away and comes back.
pub open spec fn is_transfer_body(body: Seq<BfOp>, offset: int) -> bool {
    &&& body.len() == 4
    &&& body[0] == BfOp { kind: BfOpKind::DecData, argument: 1 }
    &&& body[2] == BfOp { kind: BfOpKind::IncData, argument: 1 }
    &&& body[1].argument == body[3].argument
    &&& {
        ||| body[1].kind == BfOpKind::IncPtr && body[3].kind == BfOpKind::DecPtr && offset
            == body[1].argument
        ||| body[1].kind == BfOpKind::DecPtr && body[3].kind == BfOpKind::IncPtr && offset
            == -body[1].argument
    }
}

/// The machine in the middle of a transfer: `done` taken from the cell
/// under the pointer and given to the cell `offset` away.
pub open spec fn transferred(m: Machine, offset: int, done: int) -> Machine {
    Machine {
        cells: |at: int|
            if at == m.pointer {
                (m.cell() - done) as u8
            } else if at == m.pointer + offset {
                ((m.read(at) + done) % 256) as u8
            } else {
                m.read(at)
            },
        ..m
    }
}

/// Each pass through a transfer body moves one more from the cell under
/// the pointer to its target, as long as there is something left.
proof fn lemma_transfer_passes(body: Seq<BfOp>, m: Machine, offset: int, count: nat)
    requires
        is_transfer_body(body, offset),
        offset != 0,
        count <= m.cell(),
    ensures
        passes(body, m, count) == transferred(m, offset, count as int),
    decreases count,
{
    if count > 0 {
        let before = passes(body, m, (count - 1) as nat);
        lemma_transfer_passes(body, m, offset, (count - 1) as nat);
        lemma_apply_four(body, before);
        let taken = apply(body[0], before);
        let there = apply(body[1], taken);
        let given = apply(body[2], there);
        let back = apply(body[3], given);
        assert(there.pointer == m.pointer + offset);
        assert(back.pointer == m.pointer);
        assert(back.cells =~= transferred(m, offset, count as int).cells);
    } else {
        assert(m.cells =~= transferred(m, offset, 0).cells);
    }
}

/// A transfer loop always ends, after as many passes as the cell under the
/// pointer holds, and what it leaves is what the transfer operation gives
/// at once: the cell added into its target and cleared.
pub proof fn lemma_transfer_loop(body: Seq<BfOp>, m: Machine, offset: int)
    requires
        is_transfer_body(body, offset),
        offset != 0,
        i32::MIN <= offset <= i32::MAX,
    ensures
        loop_ends(body, m, m.cell() as nat),
        passes(body, m, m.cell() as nat) == apply(
            BfOp { kind: BfOpKind::LoopMoveData, argument: offset as i32 },
            m,
        ),
{
    let total = m.cell() as nat;
    assert forall|j: nat| j <= total implies #[trigger] passes(body, m, j) == transferred(
        m,
        offset,
        j as int,
    ) by {
        lemma_transfer_passes(body, m, offset, j);
    }
    assert(passes(body, m, total) == transferred(m, offset, total as int));
    let reduced = apply(BfOp { kind: BfOpKind::LoopMoveData, argument: offset as i32 }, m);
    assert(transferred(m, offset, total as int).cells =~= reduced.cells);
}

/// A loop ends after one number of passes only.
pub proof fn lemma_loop_ends_once(body: Seq<BfOp>, m: Machine, first: nat, second: nat)
    requires
        loop_ends(body, m, first),
        loop_ends(body, m, second),
    ensures
        first == second,
{
    if first < second {
        assert(passes(body, m, first).cell() != 0);
    } else if second < first {
        assert(passes(body, m, second).cell() != 0);
    }
}

/// A transfer body that goes nowhere leaves the machine as it was.
proof fn lemma_idle_passes(body: Seq<BfOp>, m: Machine, count: nat)
    requires
        is_transfer_body(body, 0),
    ensures
        passes(body, m, count) == m,
    decreases count,
{
    if count > 0 {
        lemma_idle_passes(body, m, (count - 1) as nat);
        lemma_apply_four(body, m);
        let taken = apply(body[0], m);
        let there = apply(body[1], taken);
        let given = apply(body[2], there);
        let back = apply(body[3], given);
        assert(there.pointer == m.pointer);
        assert(back.cells =~= m.cells);
    }
}

/// A loop that is reduced means what its reduction means: wherever the
/// loop from `loop_start` ends, after `count` passes through its body, the
/// operation it reduces to gives the same machine.
///
/// A reduced clear or transfer always ends. The loop need not: one that
/// changes its cell by an even amount never ends on an odd cell.
pub proof fn lemma_reduction_keeps_meaning(
    ops: Seq<BfOp>,
    loop_start: int,
    m: Machine,
    count: nat,
)
    requires
        0 <= loop_start < ops.len(),
        loop_reduction(ops, loop_start) is Some,
        i32::MIN <= loop_reduction(ops, loop_start)->Some_0.1 <= i32::MAX,
        loop_ends(ops.skip(loop_start + 1), m, count),
    ensures
        reduced_op_gives(
            BfOp {
                kind: loop_reduction(ops, loop_start)->Some_0.0,
                argument: loop_reduction(ops, loop_start)->Some_0.1 as i32,
            },
            m,
            passes(ops.skip(loop_start + 1), m, count),
        ),
{
    let body = ops.skip(loop_start + 1);
    let (kind, argument) = loop_reduction(ops, loop_start)->Some_0;
    let reduced = BfOp { kind, argument: argument as i32 };
    if body.len() == 1 {
        assert(body[0] == ops[loop_start + 1]);
        if kind == BfOpKind::LoopSetToZero {
            lemma_clear_loop(body, m, count);
        } else {
            lemma_scan_loop(body, m, argument, count);
            assert(scan_ends(m, reduced.argument as int, count));
        }
    } else {
        assert(body.len() == 4);
        assert(body[0] == ops[loop_start + 1]);
        assert(body[1] == ops[loop_start + 2]);
        assert(body[2] == ops[loop_start + 3]);
        assert(body[3] == ops[loop_start + 4]);
        assert(is_transfer_body(body, argument));
        if argument == 0 {
            lemma_idle_passes(body, m, count);
            assert(passes(body, m, 0) == m);
        } else {
            lemma_transfer_loop(body, m, argument);
            lemma_loop_ends_once(body, m, count, m.cell() as nat);
        }
    }
}

} // verus!
