//! What a translation under way keeps true, and why every step keeps it.

use crate::bf_ops::{
    brackets_nested, depth, encloses, is_run_kind, jump_depth, jumps_matched, jumps_paired,
    loop_reduction, optimized_loop, run_kind, runs_counted, scan, translation, unmatched,
    well_formed, BfOp, BfOpKind, Scan,
};
use vstd::prelude::*;

verus! {

/// The open loops of `s` are the brackets that the first `n` instructions
/// leave open: as many as the depth says, each at a `[` that nothing after
/// it has closed.
pub open spec fn brackets_tracked(s: Scan, insts: Seq<char>, n: int) -> bool {
    &&& forall|m: int| 0 <= m <= n ==> #[trigger] depth(insts, m) >= 0
    &&& s.starts.len() == depth(insts, n)
    &&& s.positions.len() == depth(insts, n)
    &&& forall|k: int|
        0 <= k < s.positions.len() ==> {
            let p = #[trigger] s.positions[k];
            &&& 0 <= p < n
            &&& insts[p] == '['
            &&& depth(insts, p) == k
        }
    &&& forall|k: int, q: int|
        0 <= k < s.positions.len() && s.positions[k] < q <= n ==> #[trigger] depth(insts, q)
            > #[trigger] depth(insts, s.positions[k])
}

/// What the operation at index `i` of a translation under way obeys after
/// `n` instructions: a jump-if-zero is open, with no target yet, or names
/// its partner, which ends its loop; a jump-if-not-zero names its partner;
/// a run counts between one and `n` instructions.
pub open spec fn op_tracked(s: Scan, i: int, n: int) -> bool {
    let op = s.ops[i];
    let partner = s.ops[op.argument as int];
    &&& op.kind == BfOpKind::JumpIfDataZero ==> {
        ||| op.argument == 0 && s.starts.contains(i)
        ||| {
            &&& i < op.argument < s.ops.len()
            &&& partner.kind == BfOpKind::JumpIfDataNotZero
            &&& partner.argument == i
            &&& encloses(s.ops, i, op.argument as int)
        }
    }
    &&& op.kind == BfOpKind::JumpIfDataNotZero ==> {
        &&& 0 <= op.argument < i
        &&& partner.kind == BfOpKind::JumpIfDataZero
        &&& partner.argument == i
    }
    &&& is_run_kind(op.kind) ==> 1 <= op.argument <= n
}

/// The operations of `s` are what a translation of the first `n`
/// instructions may hold: no more operations than instructions, the open
/// loops at jumps without a target, in order, each at its depth with
/// nothing after it back at that depth, and every operation as
/// `op_tracked` says. After a run instruction the last operation is that
/// run.
pub open spec fn ops_tracked(s: Scan, insts: Seq<char>, n: int) -> bool {
    &&& s.ops.len() <= n
    &&& forall|k: int|
        0 <= k < s.starts.len() ==> {
            let start = #[trigger] s.starts[k];
            &&& 0 <= start < s.ops.len()
            &&& s.ops[start].kind == BfOpKind::JumpIfDataZero
            &&& s.ops[start].argument == 0
            &&& jump_depth(s.ops, start) == k
        }
    &&& forall|j: int, k: int|
        0 <= j < k < s.starts.len() ==> #[trigger] s.starts[j] < #[trigger] s.starts[k]
    &&& forall|k: int, m: int|
        0 <= k < s.starts.len() && s.starts[k] < m <= s.ops.len() ==> #[trigger] jump_depth(
            s.ops,
            m,
        ) > #[trigger] jump_depth(s.ops, s.starts[k])
    &&& jump_depth(s.ops, s.ops.len() as int) == s.starts.len()
    &&& forall|m: int| 0 <= m <= s.ops.len() ==> #[trigger] jump_depth(s.ops, m) >= 0
    &&& forall|i: int| 0 <= i < s.ops.len() ==> #[trigger] op_tracked(s, i, n)
    &&& n > 0 && insts[n - 1] != '[' && insts[n - 1] != ']' ==> {
        &&& s.ops.len() > 0
        &&& s.ops.last().kind == run_kind(insts[n - 1])
    }
}

/// The jump depth of a prefix depends on the kinds in that prefix alone.
pub proof fn lemma_jump_depth_agrees(a: Seq<BfOp>, b: Seq<BfOp>, m: int)
    requires
        0 <= m <= a.len(),
        m <= b.len(),
        forall|i: int| 0 <= i < m ==> a[i].kind == b[i].kind,
    ensures
        jump_depth(a, m) == jump_depth(b, m),
    decreases m,
{
    if m > 0 {
        lemma_jump_depth_agrees(a, b, m - 1);
    }
}

/// Once a `]` has closed nothing, reading on changes nothing.
pub proof fn lemma_scan_stays_failed(insts: Seq<char>, m: int, n: int)
    requires
        0 <= m <= n,
        scan(insts, m) is Err,
    ensures
        scan(insts, n) == scan(insts, m),
    decreases n,
{
    if m < n {
        lemma_scan_stays_failed(insts, m, n - 1);
    }
}

/// The open loops follow the brackets: after `n` instructions either the
/// translation tracks them, or it stopped at a `]` that came at depth zero.
pub proof fn lemma_scan_brackets(insts: Seq<char>, n: int)
    requires
        0 <= n <= insts.len(),
    ensures
        match scan(insts, n) {
            Ok(s) => brackets_tracked(s, insts, n),
            Err(p) => {
                &&& 0 <= p < n
                &&& insts[p] == ']'
                &&& depth(insts, p) == 0
                &&& forall|m: int| 0 <= m <= p ==> #[trigger] depth(insts, m) >= 0
            },
        },
    decreases n,
{
    if n > 0 {
        lemma_scan_brackets(insts, n - 1);
        match scan(insts, n - 1) {
            Ok(s) => {
                let c = insts[n - 1];
                if c == '[' {
                    let t = s.open_loop(n - 1);
                    assert forall|k: int, q: int|
                        0 <= k < t.positions.len() && t.positions[k] < q <= n implies
                        #[trigger] depth(insts, q) > #[trigger] depth(insts, t.positions[k]) by {
                        if k < s.positions.len() {
                            assert(t.positions[k] == s.positions[k]);
                            if q < n {
                                assert(depth(insts, q) > depth(insts, s.positions[k]));
                            }
                        }
                    }
                    assert(brackets_tracked(t, insts, n));
                } else if c == ']' {
                    if s.starts.len() > 0 {
                        let t = s.close_loop();
                        assert forall|k: int, q: int|
                            0 <= k < t.positions.len() && t.positions[k] < q <= n implies
                            #[trigger] depth(insts, q) > #[trigger] depth(insts, t.positions[k]) by {
                            assert(t.positions[k] == s.positions[k]);
                            if q < n {
                                assert(depth(insts, q) > depth(insts, s.positions[k]));
                            }
                        }
                        assert(brackets_tracked(t, insts, n));
                    }
                } else {
                    let t = s.step(insts, n - 1)->Ok_0;
                    assert(t.positions == s.positions);
                    assert(t.starts == s.starts);
                    assert forall|k: int, q: int|
                        0 <= k < t.positions.len() && t.positions[k] < q <= n implies
                        #[trigger] depth(insts, q) > #[trigger] depth(insts, t.positions[k]) by {
                        if q < n {
                            assert(depth(insts, q) > depth(insts, s.positions[k]));
                        }
                    }
                    assert(brackets_tracked(t, insts, n));
                }
            },
            Err(p) => {},
        }
    }
}

/// A `[` keeps the operations tracked.
proof fn lemma_open_loop_tracked(s: Scan, insts: Seq<char>, n: int)
    requires
        0 < n <= insts.len(),
        ops_tracked(s, insts, n - 1),
        insts[n - 1] == '[',
    ensures
        ops_tracked(s.open_loop(n - 1), insts, n),
{
    let t = s.open_loop(n - 1);
    let len = s.ops.len() as int;
    assert forall|m: int| 0 <= m <= len implies jump_depth(t.ops, m) == jump_depth(s.ops, m) by {
        lemma_jump_depth_agrees(t.ops, s.ops, m);
    }
    assert forall|m: int| 0 <= m <= t.ops.len() implies #[trigger] jump_depth(t.ops, m) >= 0 by {
        if m <= len {
            assert(jump_depth(s.ops, m) >= 0);
        }
    }
    assert forall|k: int| 0 <= k < t.starts.len() implies {
        let start = #[trigger] t.starts[k];
        &&& 0 <= start < t.ops.len()
        &&& t.ops[start].kind == BfOpKind::JumpIfDataZero
        &&& t.ops[start].argument == 0
        &&& jump_depth(t.ops, start) == k
    } by {
        if k < s.starts.len() {
            assert(t.starts[k] == s.starts[k]);
        }
    }
    assert forall|i: int| 0 <= i < t.ops.len() implies #[trigger] op_tracked(t, i, n) by {
        if i < len {
            assert(op_tracked(s, i, n - 1));
            if s.ops[i].kind == BfOpKind::JumpIfDataZero && s.ops[i].argument == 0 {
                let k = choose|k: int| 0 <= k < s.starts.len() && s.starts[k] == i;
                assert(t.starts[k] == i);
            }
        } else {
            assert(t.starts[t.starts.len() - 1] == i);
        }
    }
}

/// A run instruction that starts a run keeps the operations tracked.
proof fn lemma_start_run_tracked(s: Scan, insts: Seq<char>, n: int)
    requires
        0 < n <= insts.len(),
        ops_tracked(s, insts, n - 1),
        insts[n - 1] != '[',
        insts[n - 1] != ']',
    ensures
        ops_tracked(s.start_run(insts[n - 1]), insts, n),
{
    let t = s.start_run(insts[n - 1]);
    let len = s.ops.len() as int;
    assert forall|m: int| 0 <= m <= len implies jump_depth(t.ops, m) == jump_depth(s.ops, m) by {
        lemma_jump_depth_agrees(t.ops, s.ops, m);
    }
    assert forall|m: int| 0 <= m <= t.ops.len() implies #[trigger] jump_depth(t.ops, m) >= 0 by {
        if m <= len {
            assert(jump_depth(s.ops, m) >= 0);
        }
    }
    assert forall|k: int| 0 <= k < t.starts.len() implies {
        let start = #[trigger] t.starts[k];
        &&& 0 <= start < t.ops.len()
        &&& t.ops[start].kind == BfOpKind::JumpIfDataZero
        &&& t.ops[start].argument == 0
        &&& jump_depth(t.ops, start) == k
    } by {
        assert(t.starts[k] == s.starts[k]);
    }
    assert forall|i: int| 0 <= i < t.ops.len() implies #[trigger] op_tracked(t, i, n) by {
        if i < len {
            assert(op_tracked(s, i, n - 1));
        }
    }
}

/// A run instruction that repeats the one before it keeps the operations
/// tracked, as long as the count fits.
proof fn lemma_extend_run_tracked(s: Scan, insts: Seq<char>, n: int)
    requires
        1 < n <= insts.len(),
        n <= i32::MAX,
        ops_tracked(s, insts, n - 1),
        insts[n - 1] != '[',
        insts[n - 1] != ']',
        insts[n - 2] == insts[n - 1],
    ensures
        ops_tracked(s.extend_run(), insts, n),
{
    let t = s.extend_run();
    let len = s.ops.len() as int;
    assert(op_tracked(s, len - 1, n - 1));
    assert(is_run_kind(s.ops[len - 1].kind));
    assert forall|m: int| 0 <= m <= len implies #[trigger] jump_depth(t.ops, m) == jump_depth(
        s.ops,
        m,
    ) by {
        lemma_jump_depth_agrees(t.ops, s.ops, m);
    }
    assert forall|m: int| 0 <= m <= t.ops.len() implies #[trigger] jump_depth(t.ops, m) >= 0 by {
        assert(jump_depth(s.ops, m) >= 0);
    }
    assert forall|k: int| 0 <= k < t.starts.len() implies {
        let start = #[trigger] t.starts[k];
        &&& 0 <= start < t.ops.len()
        &&& t.ops[start].kind == BfOpKind::JumpIfDataZero
        &&& t.ops[start].argument == 0
        &&& jump_depth(t.ops, start) == k
    } by {
        assert(t.starts[k] == s.starts[k]);
    }
    assert forall|i: int| 0 <= i < t.ops.len() implies #[trigger] op_tracked(t, i, n) by {
        assert(op_tracked(s, i, n - 1));
    }
}

/// The body of a loop that is reduced holds runs only.
proof fn lemma_reduced_body_is_runs(ops: Seq<BfOp>, start: int, j: int)
    requires
        0 <= start < j < ops.len(),
        loop_reduction(ops, start) is Some,
    ensures
        is_run_kind(ops[j].kind),
{
}

/// A `]` that closes a loop keeps the operations tracked.
proof fn lemma_close_loop_tracked(s: Scan, insts: Seq<char>, n: int)
    requires
        0 < n <= insts.len(),
        n <= i32::MAX,
        ops_tracked(s, insts, n - 1),
        insts[n - 1] == ']',
        s.starts.len() > 0,
    ensures
        ops_tracked(s.close_loop(), insts, n),
{
    let t = s.close_loop();
    let len = s.ops.len() as int;
    let top = s.starts.len() - 1;
    let start = s.starts[top];
    assert(s.starts.last() == start);
    let kept: int = if optimized_loop(s.ops, start).len() == 0 {
        len
    } else {
        start
    };
    assert(t.ops.len() == kept + 1);
    assert forall|i: int| 0 <= i < kept implies #[trigger] t.ops[i].kind == s.ops[i].kind by {}
    assert forall|m: int| 0 <= m <= kept implies jump_depth(t.ops, m) == jump_depth(s.ops, m) by {
        lemma_jump_depth_agrees(t.ops, s.ops, m);
    }
    assert(jump_depth(t.ops, kept + 1) == top);
    assert forall|m: int| 0 <= m <= t.ops.len() implies #[trigger] jump_depth(t.ops, m) >= 0 by {
        if m <= kept {
            assert(jump_depth(s.ops, m) >= 0);
        }
    }
    assert forall|k: int| 0 <= k < t.starts.len() implies {
        let open = #[trigger] t.starts[k];
        &&& 0 <= open < t.ops.len()
        &&& t.ops[open].kind == BfOpKind::JumpIfDataZero
        &&& t.ops[open].argument == 0
        &&& jump_depth(t.ops, open) == k
    } by {
        assert(t.starts[k] == s.starts[k]);
        assert(s.starts[k] < s.starts[top]);
    }
    assert forall|i: int| 0 <= i < t.ops.len() implies #[trigger] op_tracked(t, i, n) by {
        if i < kept && i != start {
            assert(op_tracked(s, i, n - 1));
            let op = s.ops[i];
            assert(t.ops[i] == op);
            if op.kind == BfOpKind::JumpIfDataZero {
                if op.argument == 0 {
                    let k = choose|k: int| 0 <= k < s.starts.len() && s.starts[k] == i;
                    assert(t.starts[k] == i);
                } else {
                    let j = op.argument as int;
                    if kept == start && j > start {
                        lemma_reduced_body_is_runs(s.ops, start, j);
                    }
                    assert(t.ops[j] == s.ops[j]);
                }
            }
            if op.kind == BfOpKind::JumpIfDataNotZero {
                assert(t.ops[op.argument as int] == s.ops[op.argument as int]);
            }
        }
    }
}

/// The operations of a translation under way stay tracked, whatever it
/// reads.
pub proof fn lemma_scan_ops(insts: Seq<char>, n: int)
    requires
        0 <= n <= insts.len(),
        n <= i32::MAX,
    ensures
        scan(insts, n) matches Ok(s) ==> ops_tracked(s, insts, n),
    decreases n,
{
    if n > 0 {
        lemma_scan_ops(insts, n - 1);
        match scan(insts, n - 1) {
            Ok(s) => {
                let c = insts[n - 1];
                if c == '[' {
                    lemma_open_loop_tracked(s, insts, n);
                } else if c == ']' {
                    if s.starts.len() > 0 {
                        lemma_close_loop_tracked(s, insts, n);
                    }
                } else if n > 1 && insts[n - 2] == c {
                    lemma_extend_run_tracked(s, insts, n);
                } else {
                    lemma_start_run_tracked(s, insts, n);
                }
            },
            Err(p) => {},
        }
    }
}

/// A translation succeeds on the instruction streams whose brackets nest,
/// and on no others.
pub proof fn lemma_translation_iff_nested(insts: Seq<char>)
    ensures
        translation(insts) is Ok <==> brackets_nested(insts),
{
    let n = insts.len() as int;
    lemma_scan_brackets(insts, n);
    match scan(insts, n) {
        Ok(s) => {},
        Err(p) => {
            assert(depth(insts, p + 1) == depth(insts, p) - 1);
        },
    }
}

/// Where a translation fails, the position it names is that of a bracket
/// without partner.
pub proof fn lemma_mismatch_position(insts: Seq<char>)
    ensures
        translation(insts) matches Err(p) ==> unmatched(insts, p),
{
    let n = insts.len() as int;
    lemma_scan_brackets(insts, n);
    match scan(insts, n) {
        Ok(s) => {
            if s.starts.len() > 0 {
                let k = s.positions.len() - 1;
                let p = s.positions[k];
                assert(s.positions.last() == p);
                assert forall|q: int| p < q <= insts.len() implies #[trigger] depth(insts, q)
                    > depth(insts, p) by {
                    assert(depth(insts, q) > depth(insts, s.positions[k]));
                }
            }
        },
        Err(p) => {},
    }
}

/// With no loop left open, every tracked jump names its partner.
proof fn lemma_tracked_jumps_paired(s: Scan, insts: Seq<char>, n: int)
    requires
        ops_tracked(s, insts, n),
        s.starts.len() == 0,
    ensures
        jumps_paired(s.ops),
{
    assert forall|i: int| 0 <= i < s.ops.len() implies {
        let op = #[trigger] s.ops[i];
        let partner = s.ops[op.argument as int];
        &&& op.kind == BfOpKind::JumpIfDataZero ==> {
            &&& i < op.argument < s.ops.len()
            &&& partner.kind == BfOpKind::JumpIfDataNotZero
            &&& partner.argument == i
        }
        &&& op.kind == BfOpKind::JumpIfDataNotZero ==> {
            &&& 0 <= op.argument < i
            &&& partner.kind == BfOpKind::JumpIfDataZero
            &&& partner.argument == i
        }
    } by {
        assert(op_tracked(s, i, n));
    }
}

/// With no loop left open, the partner of every tracked jump-if-zero ends
/// its loop.
proof fn lemma_tracked_jumps_matched(s: Scan, insts: Seq<char>, n: int)
    requires
        ops_tracked(s, insts, n),
        s.starts.len() == 0,
    ensures
        jumps_matched(s.ops),
{
    assert forall|i: int|
        0 <= i < s.ops.len() && (#[trigger] s.ops[i]).kind
            == BfOpKind::JumpIfDataZero implies encloses(s.ops, i, s.ops[i].argument as int) by {
        assert(op_tracked(s, i, n));
    }
}

/// Every tracked run counts at least one instruction.
proof fn lemma_tracked_runs_counted(s: Scan, insts: Seq<char>, n: int)
    requires
        ops_tracked(s, insts, n),
    ensures
        runs_counted(s.ops),
{
    assert forall|i: int|
        0 <= i < s.ops.len() && is_run_kind(#[trigger] s.ops[i].kind) implies s.ops[i].argument
        >= 1 by {
        assert(op_tracked(s, i, n));
    }
}

/// What a translation yields is well formed, and holds no more operations
/// than there were instructions.
pub proof fn lemma_translation_well_formed(insts: Seq<char>)
    requires
        insts.len() <= i32::MAX,
    ensures
        translation(insts) matches Ok(ops) ==> well_formed(ops) && ops.len() <= insts.len(),
{
    let n = insts.len() as int;
    lemma_scan_ops(insts, n);
    if translation(insts) is Ok {
        let s = scan(insts, n)->Ok_0;
        lemma_tracked_jumps_paired(s, insts, n);
        lemma_tracked_jumps_matched(s, insts, n);
        lemma_tracked_runs_counted(s, insts, n);
    }
}

/// A run of `count` equal run instructions, begun where the instruction
/// before is another, becomes one operation that counts them all.
pub proof fn lemma_scan_run(insts: Seq<char>, pc: int, count: int)
    requires
        0 <= pc,
        1 <= count,
        pc + count <= insts.len(),
        count <= i32::MAX,
        scan(insts, pc) is Ok,
        insts[pc] != '[',
        insts[pc] != ']',
        pc > 0 ==> insts[pc - 1] != insts[pc],
        forall|j: int| pc <= j < pc + count ==> insts[j] == insts[pc],
    ensures
        scan(insts, pc + count) == Ok::<Scan, int>(
            Scan {
                ops: scan(insts, pc)->Ok_0.ops.push(
                    BfOp { kind: run_kind(insts[pc]), argument: count as i32 },
                ),
                ..scan(insts, pc)->Ok_0
            },
        ),
    decreases count,
{
    let s = scan(insts, pc)->Ok_0;
    if count == 1 {
        assert(scan(insts, pc + 1) == s.step(insts, pc));
    } else {
        lemma_scan_run(insts, pc, count - 1);
        let before = scan(insts, pc + count - 1)->Ok_0;
        assert(scan(insts, pc + count) == before.step(insts, pc + count - 1));
        assert(insts[pc + count - 1] == insts[pc]);
        assert(insts[pc + count - 2] == insts[pc]);
        assert(before.extend_run().ops =~= s.ops.push(
            BfOp { kind: run_kind(insts[pc]), argument: count as i32 },
        ));
    }
}

/// How many of the first `n` instructions are `c`.
pub open spec fn occurrences(insts: Seq<char>, c: char, n: int) -> nat
    decreases n,
{
    if n <= 0 {
        0
    } else if insts[n - 1] == c {
        occurrences(insts, c, n - 1) + 1
    } else {
        occurrences(insts, c, n - 1)
    }
}

/// The depth after `n` instructions is the number of `[` among them less
/// the number of `]`.
pub proof fn lemma_depth_counts(insts: Seq<char>, n: int)
    ensures
        depth(insts, n) == occurrences(insts, '[', n) - occurrences(insts, ']', n),
    decreases n,
{
    if n > 0 {
        lemma_depth_counts(insts, n - 1);
    }
}

/// Where the brackets nest there are as many `[` as `]`.
pub proof fn lemma_nested_brackets_balance(insts: Seq<char>)
    requires
        brackets_nested(insts),
    ensures
        occurrences(insts, '[', insts.len() as int) == occurrences(insts, ']', insts.len() as int),
{
    lemma_depth_counts(insts, insts.len() as int);
}

/// The instruction streams that translate are those whose brackets nest,
/// and they have as many `[` as `]`; every other stream fails to translate,
/// with the position of a bracket that has no partner.
pub proof fn lemma_translation_balance(insts: Seq<char>)
    ensures
        translation(insts) is Ok <==> brackets_nested(insts),
        translation(insts) is Ok ==> occurrences(insts, '[', insts.len() as int) == occurrences(
            insts,
            ']',
            insts.len() as int,
        ),
        translation(insts) matches Err(p) ==> unmatched(insts, p),
{
    lemma_translation_iff_nested(insts);
    lemma_mismatch_position(insts);
    if brackets_nested(insts) {
        lemma_nested_brackets_balance(insts);
    }
}

} // verus!
