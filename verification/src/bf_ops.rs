//! Instruction stream, intermediate representation and the translation
//! between them.

use crate::decimal::{digits, push_digits};
use crate::invariants::{
    lemma_mismatch_position, lemma_scan_brackets, lemma_scan_ops, lemma_scan_run,
    lemma_scan_stays_failed, lemma_translation_iff_nested, lemma_translation_well_formed,
    op_tracked,
};
use vstd::prelude::*;
use vstd::string::StringExecFns;

verus! {

/// What an operation of the intermediate representation does.
#[derive(Debug, Clone, Copy, PartialEq, Eq, Structural)]
pub enum BfOpKind {
    IncPtr,
    DecPtr,
    IncData,
    DecData,
    ReadStdin,
    WriteStdout,
    LoopSetToZero,
    LoopMovePtr,
    LoopMoveData,
    JumpIfDataZero,
    JumpIfDataNotZero,
}

/// One operation of the intermediate representation.
///
/// The meaning of `argument` depends on `kind`: a repeat count, a relative
/// offset, or for the two jumps the index of the paired jump.
#[derive(Debug, Clone, Copy, PartialEq, Eq, Structural)]
pub struct BfOp {
    pub kind: BfOpKind,
    pub argument: i32,
}

/// Why a source text does not compile.
#[derive(Debug, Clone, Copy, PartialEq, Eq, Structural)]
pub enum CompileError {
    /// A `[` that is never closed or a `]` that closes nothing. `position`
    /// is the index of that bracket in the instruction stream.
    MismatchedLoop { position: usize },
}

/// How the message of a mismatched loop begins.
pub const MISMATCH_PREFIX: &'static str =
    "mismatched loop: no partner for the bracket at instruction ";

impl CompileError {
    /// The message for this error: what went wrong, and where.
    pub open spec fn text(self) -> Seq<char> {
        match self {
            CompileError::MismatchedLoop { position } => MISMATCH_PREFIX@ + digits(position as nat),
        }
    }

    /// Renders the message for this error.
    pub fn message(&self) -> (message: String)
        ensures
            message@ == self.text(),
    {
        match self {
            CompileError::MismatchedLoop { position } => {
                let mut message = String::from_str(MISMATCH_PREFIX);
                push_digits(&mut message, *position as u64);
                message
            },
        }
    }
}

/// Whether `c` is one of the eight instruction characters.
pub open spec fn is_instruction(c: char) -> bool {
    c == '>' || c == '<' || c == '+' || c == '-' || c == '.' || c == ',' || c == '[' || c == ']'
}

/// Decides whether `c` belongs to the instruction alphabet.
pub fn is_token(c: char) -> (r: bool)
    ensures
        r == is_instruction(c),
{
    c == '>' || c == '<' || c == '+' || c == '-' || c == '.' || c == ',' || c == '[' || c == ']'
}

/// The instruction stream of `source`: its instruction characters in the
/// order in which they occur, everything else dropped.
pub open spec fn instructions(source: Seq<char>) -> Seq<char> {
    source.filter(|c: char| is_instruction(c))
}

/// Reads the instruction stream off `source`.
pub fn parse_to_char(source: &str) -> (res: Vec<char>)
    ensures
        res@ == instructions(source@),
{
    let mut res: Vec<char> = Vec::new();
    for c in it: source.chars()
        invariant
            it.seq() == source@,
            res@ == instructions(source@.take(it.index() as int)),
    {
        proof {
            let seen = source@.take(it.index() as int + 1);
            assert(seen.drop_last() =~= source@.take(it.index() as int));
            reveal(Seq::filter);
        }
        if is_token(c) {
            res.push(c);
        }
    }
    proof {
        assert(source@.take(source@.len() as int) =~= source@);
    }
    res
}

/// An instruction stream holds instructions only, and no more characters
/// than its source.
pub proof fn lemma_instructions_are_instructions(source: Seq<char>)
    ensures
        instructions(source).len() <= source.len(),
        forall|i: int|
            0 <= i < instructions(source).len() ==> is_instruction(
                #[trigger] instructions(source)[i],
            ),
{
    let keep = |c: char| is_instruction(c);
    source.lemma_filter_len(keep);
    assert forall|i: int| 0 <= i < instructions(source).len() implies is_instruction(
        #[trigger] instructions(source)[i],
    ) by {
        source.lemma_filter_pred(keep, i);
    }
}

/// Text without instructions has the empty instruction stream.
pub proof fn lemma_noise_has_no_instructions(noise: Seq<char>)
    requires
        forall|k: int| 0 <= k < noise.len() ==> !is_instruction(noise[k]),
    ensures
        instructions(noise) == Seq::<char>::empty(),
    decreases noise.len(),
{
    reveal(Seq::filter);
    if noise.len() > 0 {
        lemma_noise_has_no_instructions(noise.drop_last());
    }
}

/// Characters that are no instructions, put anywhere into a source, change
/// neither its instruction stream nor, therefore, what it translates to.
pub proof fn lemma_noise_is_ignored(source: Seq<char>, at: int, noise: Seq<char>)
    requires
        0 <= at <= source.len(),
        forall|k: int| 0 <= k < noise.len() ==> !is_instruction(noise[k]),
    ensures
        instructions(source.take(at) + noise + source.skip(at)) == instructions(source),
        translation(instructions(source.take(at) + noise + source.skip(at))) == translation(
            instructions(source),
        ),
{
    let keep = |c: char| is_instruction(c);
    let head = source.take(at);
    let tail = source.skip(at);
    lemma_noise_has_no_instructions(noise);
    Seq::filter_distributes_over_add(head + noise, tail, keep);
    Seq::filter_distributes_over_add(head, noise, keep);
    Seq::filter_distributes_over_add(head, tail, keep);
    assert(head + tail =~= source);
    assert(head.filter(keep) + noise.filter(keep) =~= head.filter(keep));
}

/// Lexing what was lexed changes nothing: an instruction stream is its own
/// instruction stream.
pub proof fn lemma_instructions_idempotent(source: Seq<char>)
    ensures
        instructions(instructions(source)) == instructions(source),
    decreases source.len(),
{
    reveal(Seq::filter);
    if source.len() > 0 {
        let rest = source.drop_last();
        lemma_instructions_idempotent(rest);
        if is_instruction(source.last()) {
            let kept = instructions(rest).push(source.last());
            assert(kept.drop_last() =~= instructions(rest));
            assert(instructions(source) == kept);
            assert(instructions(kept) == instructions(kept.drop_last()).push(kept.last()));
        }
    }
}

/// The single operation that a just-closed loop reduces to, as its kind and
/// its argument, where the loop has one of the recognized shapes.
///
/// The loop is the suffix of `ops` from `loop_start`, whose first operation
/// is the loop's jump-if-zero. A body of one data operation clears the
/// cell; a body of one pointer move scans by that move; a body that takes 1
/// from the cell, moves by N, adds 1 and moves back by N transfers the cell
/// over N. Nothing else is reduced.
pub open spec fn loop_reduction(ops: Seq<BfOp>, loop_start: int) -> Option<(BfOpKind, int)> {
    let size = ops.len() - loop_start;
    if size == 2 {
        let only = ops[loop_start + 1];
        match only.kind {
            BfOpKind::IncData | BfOpKind::DecData => Some((BfOpKind::LoopSetToZero, 0)),
            BfOpKind::IncPtr => Some((BfOpKind::LoopMovePtr, only.argument as int)),
            BfOpKind::DecPtr => Some((BfOpKind::LoopMovePtr, -only.argument)),
            _ => None,
        }
    } else if size == 5 {
        let take = ops[loop_start + 1];
        let away = ops[loop_start + 2];
        let give = ops[loop_start + 3];
        let back = ops[loop_start + 4];
        if take.kind == BfOpKind::DecData && give.kind == BfOpKind::IncData && take.argument == 1
            && give.argument == 1 && away.argument == back.argument {
            if away.kind == BfOpKind::IncPtr && back.kind == BfOpKind::DecPtr {
                Some((BfOpKind::LoopMoveData, away.argument as int))
            } else if away.kind == BfOpKind::DecPtr && back.kind == BfOpKind::IncPtr {
                Some((BfOpKind::LoopMoveData, -away.argument))
            } else {
                None
            }
        } else {
            None
        }
    } else {
        None
    }
}

/// The argument of the reduced operation, if there is one, fits the
/// operation's argument field.
pub open spec fn reduction_fits(ops: Seq<BfOp>, loop_start: int) -> bool {
    loop_reduction(ops, loop_start) matches Some((_, argument)) ==> i32::MIN <= argument
        <= i32::MAX
}

/// What replaces a just-closed loop: the one reduced operation, or nothing
/// where the loop keeps its pair of jumps.
pub open spec fn optimized_loop(ops: Seq<BfOp>, loop_start: int) -> Seq<BfOp> {
    match loop_reduction(ops, loop_start) {
        Some((kind, argument)) => seq![(BfOp { kind, argument: argument as i32 })],
        None => Seq::empty(),
    }
}

/// Looks at the loop that was just closed, which is `ops` from
/// `loop_start` on, and returns the operation to put in its place, or
/// nothing if the loop has none of the recognized shapes.
pub fn optimize_loop(ops: &[BfOp], loop_start: usize) -> (res: Vec<BfOp>)
    requires
        loop_start <= ops@.len(),
        reduction_fits(ops@, loop_start as int),
    ensures
        res@ == optimized_loop(ops@, loop_start as int),
{
    let mut res: Vec<BfOp> = Vec::new();
    let loop_size = ops.len() - loop_start;
    if loop_size == 2 {
        let repeated_op = ops[loop_start + 1];
        match repeated_op.kind {
            BfOpKind::IncData | BfOpKind::DecData => {
                res.push(BfOp { kind: BfOpKind::LoopSetToZero, argument: 0 });
            },
            BfOpKind::IncPtr => {
                res.push(BfOp { kind: BfOpKind::LoopMovePtr, argument: repeated_op.argument });
            },
            BfOpKind::DecPtr => {
                res.push(BfOp { kind: BfOpKind::LoopMovePtr, argument: -repeated_op.argument });
            },
            _ => {},
        }
    } else if loop_size == 5 {
        let take = ops[loop_start + 1];
        let away = ops[loop_start + 2];
        let give = ops[loop_start + 3];
        let back = ops[loop_start + 4];
        if take.kind == BfOpKind::DecData && give.kind == BfOpKind::IncData && take.argument == 1
            && give.argument == 1 && away.argument == back.argument {
            if away.kind == BfOpKind::IncPtr && back.kind == BfOpKind::DecPtr {
                res.push(BfOp { kind: BfOpKind::LoopMoveData, argument: away.argument });
            } else if away.kind == BfOpKind::DecPtr && back.kind == BfOpKind::IncPtr {
                res.push(BfOp { kind: BfOpKind::LoopMoveData, argument: -away.argument });
            }
        }
    }
    res
}

/// Jump-if-zero operations minus jump-if-not-zero operations among the first
/// `n` operations: the number of loop constructs open after them.
pub open spec fn jump_depth(ops: Seq<BfOp>, n: int) -> int
    decreases n,
{
    if n <= 0 {
        0
    } else if ops[n - 1].kind == BfOpKind::JumpIfDataZero {
        jump_depth(ops, n - 1) + 1
    } else if ops[n - 1].kind == BfOpKind::JumpIfDataNotZero {
        jump_depth(ops, n - 1) - 1
    } else {
        jump_depth(ops, n - 1)
    }
}

/// The jumps of `ops` nest: no jump-if-not-zero comes without an open
/// jump-if-zero before it, and none stays open at the end.
pub open spec fn jumps_nested(ops: Seq<BfOp>) -> bool {
    &&& forall|n: int| 0 <= n <= ops.len() ==> jump_depth(ops, n) >= 0
    &&& jump_depth(ops, ops.len() as int) == 0
}

/// Decides whether the jumps of `ops` nest, which is what emitting them as
/// structured loops asks for.
pub fn jumps_are_nested(ops: &[BfOp]) -> (nested: bool)
    ensures
        nested == jumps_nested(ops@),
{
    let mut open: usize = 0;
    let mut i: usize = 0;
    while i < ops.len()
        invariant
            i <= ops.len(),
            open == jump_depth(ops@, i as int),
            open <= i,
            forall|n: int| 0 <= n <= i ==> jump_depth(ops@, n) >= 0,
        decreases ops.len() - i,
    {
        match ops[i].kind {
            BfOpKind::JumpIfDataZero => {
                open += 1;
            },
            BfOpKind::JumpIfDataNotZero => {
                if open == 0 {
                    assert(jump_depth(ops@, i + 1) < 0);
                    return false;
                }
                open -= 1;
            },
            _ => {},
        }
        i += 1;
    }
    open == 0
}

/// Every jump names its partner: a jump-if-zero the jump-if-not-zero that
/// comes after it and names it back, a jump-if-not-zero the jump-if-zero
/// that comes before it and names it back. So each jump-if-zero has exactly
/// one jump-if-not-zero whose argument is its index.
pub open spec fn jumps_paired(ops: Seq<BfOp>) -> bool {
    forall|i: int|
        0 <= i < ops.len() ==> {
            let op = #[trigger] ops[i];
            let partner = ops[op.argument as int];
            &&& op.kind == BfOpKind::JumpIfDataZero ==> {
                &&& i < op.argument < ops.len()
                &&& partner.kind == BfOpKind::JumpIfDataNotZero
                &&& partner.argument == i
            }
            &&& op.kind == BfOpKind::JumpIfDataNotZero ==> {
                &&& 0 <= op.argument < i
                &&& partner.kind == BfOpKind::JumpIfDataZero
                &&& partner.argument == i
            }
        }
}

/// The jump-if-not-zero at `close` ends the loop that the jump-if-zero at
/// `open` begins: between the two the jump depth stays above what it was
/// before `open`, and after `close` it is back there.
pub open spec fn encloses(ops: Seq<BfOp>, open: int, close: int) -> bool {
    &&& 0 <= open < close < ops.len()
    &&& forall|m: int| open < m <= close ==> #[trigger] jump_depth(ops, m) > jump_depth(ops, open)
    &&& jump_depth(ops, close + 1) == jump_depth(ops, open)
}

/// The partner that a jump-if-zero names is the jump-if-not-zero that ends
/// its loop, not one of a loop inside or around it.
pub open spec fn jumps_matched(ops: Seq<BfOp>) -> bool {
    forall|i: int|
        0 <= i < ops.len() && (#[trigger] ops[i]).kind == BfOpKind::JumpIfDataZero ==> encloses(
            ops,
            i,
            ops[i].argument as int,
        )
}

/// Whether operations of this kind stand for a run of one instruction.
pub open spec fn is_run_kind(kind: BfOpKind) -> bool {
    kind == BfOpKind::IncPtr || kind == BfOpKind::DecPtr || kind == BfOpKind::IncData || kind
        == BfOpKind::DecData || kind == BfOpKind::ReadStdin || kind == BfOpKind::WriteStdout
}

/// Every run counts at least one instruction.
pub open spec fn runs_counted(ops: Seq<BfOp>) -> bool {
    forall|i: int|
        0 <= i < ops.len() && is_run_kind(#[trigger] ops[i].kind) ==> ops[i].argument >= 1
}

/// What holds of every translated program: its jumps nest, each names its
/// partner, which is the one that ends its loop, and every run counts at
/// least one instruction.
pub open spec fn well_formed(ops: Seq<BfOp>) -> bool {
    &&& jumps_nested(ops)
    &&& jumps_paired(ops)
    &&& jumps_matched(ops)
    &&& runs_counted(ops)
}

/// The kind of operation that a run of `c` becomes.
pub open spec fn run_kind(c: char) -> BfOpKind {
    if c == '>' {
        BfOpKind::IncPtr
    } else if c == '<' {
        BfOpKind::DecPtr
    } else if c == '+' {
        BfOpKind::IncData
    } else if c == '-' {
        BfOpKind::DecData
    } else if c == ',' {
        BfOpKind::ReadStdin
    } else {
        BfOpKind::WriteStdout
    }
}

/// A translation under way: what has been built from a prefix of the
/// instruction stream.
pub struct Scan {
    /// The operations so far.
    pub ops: Seq<BfOp>,
    /// For each loop that is open, outermost first, the index in `ops` of
    /// its jump-if-zero.
    pub starts: Seq<int>,
    /// For each loop that is open, outermost first, the index in the
    /// instruction stream of its `[`.
    pub positions: Seq<int>,
}

impl Scan {
    /// Nothing read, nothing built.
    pub open spec fn initial() -> Scan {
        Scan { ops: Seq::empty(), starts: Seq::empty(), positions: Seq::empty() }
    }

    /// After a `[` at `position`: a jump-if-zero whose target is not known
    /// yet, and one more open loop.
    pub open spec fn open_loop(self, position: int) -> Scan {
        Scan {
            ops: self.ops.push(BfOp { kind: BfOpKind::JumpIfDataZero, argument: 0 }),
            starts: self.starts.push(self.ops.len() as int),
            positions: self.positions.push(position),
        }
    }

    /// After a `]` that closes the innermost open loop. A loop of a
    /// recognized shape gives way to its reduced operation; any other gets
    /// its jump-if-not-zero, and each of the two jumps the other's index.
    pub open spec fn close_loop(self) -> Scan {
        let start = self.starts.last();
        let replacement = optimized_loop(self.ops, start);
        Scan {
            ops: if replacement.len() == 0 {
                self.ops.update(
                    start,
                    BfOp { kind: BfOpKind::JumpIfDataZero, argument: self.ops.len() as i32 },
                ).push(BfOp { kind: BfOpKind::JumpIfDataNotZero, argument: start as i32 })
            } else {
                self.ops.take(start) + replacement
            },
            starts: self.starts.drop_last(),
            positions: self.positions.drop_last(),
        }
    }

    /// After a run instruction `c` that does not repeat the instruction
    /// before it: a new operation that counts one.
    pub open spec fn start_run(self, c: char) -> Scan {
        Scan { ops: self.ops.push(BfOp { kind: run_kind(c), argument: 1 }), ..self }
    }

    /// After a run instruction that repeats the one before it: the last
    /// operation counts one more.
    pub open spec fn extend_run(self) -> Scan {
        let last = self.ops.last();
        Scan {
            ops: self.ops.update(
                self.ops.len() - 1,
                BfOp { kind: last.kind, argument: (last.argument + 1) as i32 },
            ),
            ..self
        }
    }

    /// After the instruction at `pc`, or the index `pc` itself where that
    /// instruction is a `]` with no loop open.
    pub open spec fn step(self, insts: Seq<char>, pc: int) -> Result<Scan, int> {
        let c = insts[pc];
        if c == '[' {
            Ok(self.open_loop(pc))
        } else if c == ']' {
            if self.starts.len() == 0 {
                Err(pc)
            } else {
                Ok(self.close_loop())
            }
        } else if pc > 0 && insts[pc - 1] == c {
            Ok(self.extend_run())
        } else {
            Ok(self.start_run(c))
        }
    }
}

/// The translation of the first `n` instructions, or the index of the first
/// `]` among them that closes nothing.
pub open spec fn scan(insts: Seq<char>, n: int) -> Result<Scan, int>
    decreases n,
{
    if n <= 0 {
        Ok(Scan::initial())
    } else {
        match scan(insts, n - 1) {
            Ok(s) => s.step(insts, n - 1),
            Err(position) => Err(position),
        }
    }
}

/// The operations that `insts` translates to, or the index of the bracket
/// that has no partner: the first `]` that closes nothing, else the
/// innermost `[` that is still open at the end.
pub open spec fn translation(insts: Seq<char>) -> Result<Seq<BfOp>, int> {
    match scan(insts, insts.len() as int) {
        Ok(s) => if s.starts.len() > 0 {
            Err(s.positions.last())
        } else {
            Ok(s.ops)
        },
        Err(position) => Err(position),
    }
}

/// Opening brackets minus closing brackets among the first `n`
/// instructions.
pub open spec fn depth(insts: Seq<char>, n: int) -> int
    decreases n,
{
    if n <= 0 {
        0
    } else if insts[n - 1] == '[' {
        depth(insts, n - 1) + 1
    } else if insts[n - 1] == ']' {
        depth(insts, n - 1) - 1
    } else {
        depth(insts, n - 1)
    }
}

/// The brackets of `insts` nest: no `]` comes without an open `[` before
/// it, and no `[` stays open at the end.
pub open spec fn brackets_nested(insts: Seq<char>) -> bool {
    &&& forall|n: int| 0 <= n <= insts.len() ==> depth(insts, n) >= 0
    &&& depth(insts, insts.len() as int) == 0
}

/// The bracket at `p` has no partner: it is a `]` with no loop open, or a
/// `[` that nothing up to the end closes. No `]` before it goes unmatched.
pub open spec fn unmatched(insts: Seq<char>, p: int) -> bool {
    &&& 0 <= p < insts.len()
    &&& forall|m: int| 0 <= m <= p ==> #[trigger] depth(insts, m) >= 0
    &&& {
        ||| insts[p] == ']' && depth(insts, p) == 0
        ||| insts[p] == '[' && forall|q: int|
            p < q <= insts.len() ==> #[trigger] depth(insts, q) > depth(insts, p)
    }
}

/// The indices in `v` as mathematical integers.
pub open spec fn indices(v: Seq<usize>) -> Seq<int> {
    v.map_values(|i: usize| i as int)
}

/// Translates an instruction stream into operations.
///
/// A run of equal instructions becomes one operation that counts them. A
/// loop becomes the operation it reduces to, or a pair of jumps that name
/// each other. Brackets that do not nest are an error, which names the
/// position of the first `]` that closes nothing, or else of the innermost
/// `[` that is never closed.
pub fn translate(insts: &[char]) -> (res: Result<Vec<BfOp>, CompileError>)
    requires
        insts@.len() <= i32::MAX,
        forall|i: int| 0 <= i < insts@.len() ==> is_instruction(insts@[i]),
    ensures
        match res {
            Ok(ops) => translation(insts@) == Ok::<Seq<BfOp>, int>(ops@),
            Err(CompileError::MismatchedLoop { position }) => translation(insts@) == Err::<
                Seq<BfOp>,
                int,
            >(position as int),
        },
        res is Ok <==> brackets_nested(insts@),
        res matches Ok(ops) ==> well_formed(ops@) && ops@.len() <= insts@.len(),
        res matches Err(CompileError::MismatchedLoop { position }) ==> unmatched(
            insts@,
            position as int,
        ),
{
    let mut res: Vec<BfOp> = Vec::new();
    let mut loop_stack: Vec<usize> = Vec::new();
    let mut open_positions: Vec<usize> = Vec::new();
    let mut pc: usize = 0;
    let program_size = insts.len();
    proof {
        assert(indices(loop_stack@) =~= Seq::<int>::empty());
        assert(indices(open_positions@) =~= Seq::<int>::empty());
    }
    while pc < program_size
        invariant
            program_size == insts@.len(),
            program_size <= i32::MAX,
            pc <= program_size,
            0 < pc < program_size && insts@[pc as int] != '[' && insts@[pc as int] != ']'
                ==> insts@[pc - 1] != insts@[pc as int],
            scan(insts@, pc as int) == Ok::<Scan, int>(
                Scan {
                    ops: res@,
                    starts: indices(loop_stack@),
                    positions: indices(open_positions@),
                },
            ),
        decreases program_size - pc,
    {
        let inst = insts[pc];
        let ghost s = scan(insts@, pc as int)->Ok_0;
        proof {
            lemma_scan_ops(insts@, pc as int);
            lemma_scan_brackets(insts@, pc as int);
            assert(scan(insts@, pc + 1) == s.step(insts@, pc as int));
        }
        if inst == '[' {
            loop_stack.push(res.len());
            open_positions.push(pc);
            res.push(BfOp { kind: BfOpKind::JumpIfDataZero, argument: 0 });
            proof {
                let t = s.open_loop(pc as int);
                assert(indices(loop_stack@) =~= t.starts);
                assert(indices(open_positions@) =~= t.positions);
            }
            pc += 1;
        } else if inst == ']' {
            if loop_stack.len() == 0 {
                proof {
                    lemma_scan_stays_failed(insts@, pc + 1, program_size as int);
                    lemma_translation_iff_nested(insts@);
                    lemma_mismatch_position(insts@);
                }
                return Err(CompileError::MismatchedLoop { position: pc });
            }
            let offset = loop_stack.pop().unwrap();
            open_positions.pop();
            proof {
                assert(s.starts.last() == offset);
                assert(s.starts[s.starts.len() - 1] == offset);
                assert forall|j: int| offset < j < res@.len() && loop_reduction(
                    res@,
                    offset as int,
                ) is Some implies 1 <= (#[trigger] res@[j]).argument by {
                    assert(op_tracked(s, j, pc as int));
                }
            }
            let mut optimized_ops = optimize_loop(res.as_slice(), offset);
            if optimized_ops.len() == 0 {
                let target = res.len();
                res.set(offset, BfOp { kind: BfOpKind::JumpIfDataZero, argument: target as i32 });
                res.push(BfOp { kind: BfOpKind::JumpIfDataNotZero, argument: offset as i32 });
            } else {
                res.truncate(offset);
                res.append(&mut optimized_ops);
            }
            proof {
                let t = s.close_loop();
                assert(res@ =~= t.ops);
                assert(indices(loop_stack@) =~= t.starts);
                assert(indices(open_positions@) =~= t.positions);
            }
            pc += 1;
        } else {
            let mut num_repeats: usize = 1;
            while pc + num_repeats < program_size && insts[pc + num_repeats] == inst
                invariant
                    program_size == insts@.len(),
                    pc < program_size,
                    1 <= num_repeats,
                    pc + num_repeats <= program_size,
                    forall|j: int| pc <= j < pc + num_repeats ==> insts@[j] == inst,
                decreases program_size - pc - num_repeats,
            {
                num_repeats += 1;
            }
            let kind = if inst == '>' {
                BfOpKind::IncPtr
            } else if inst == '<' {
                BfOpKind::DecPtr
            } else if inst == '+' {
                BfOpKind::IncData
            } else if inst == '-' {
                BfOpKind::DecData
            } else if inst == ',' {
                BfOpKind::ReadStdin
            } else {
                BfOpKind::WriteStdout
            };
            proof {
                lemma_scan_run(insts@, pc as int, num_repeats as int);
            }
            res.push(BfOp { kind, argument: num_repeats as i32 });
            pc += num_repeats;
        }
    }
    proof {
        lemma_translation_iff_nested(insts@);
        lemma_translation_well_formed(insts@);
        lemma_mismatch_position(insts@);
        lemma_scan_brackets(insts@, pc as int);
    }
    if loop_stack.len() > 0 {
        let position = open_positions[open_positions.len() - 1];
        Err(CompileError::MismatchedLoop { position })
    } else {
        Ok(res)
    }
}

/// Lexes and translates `source`. Characters that are no instructions are
/// skipped; positions in an error count instructions only.
pub fn parse(source: &str) -> (res: Result<Vec<BfOp>, CompileError>)
    requires
        instructions(source@).len() <= i32::MAX,
    ensures
        match res {
            Ok(ops) => translation(instructions(source@)) == Ok::<Seq<BfOp>, int>(ops@),
            Err(CompileError::MismatchedLoop { position }) => translation(instructions(source@))
                == Err::<Seq<BfOp>, int>(position as int),
        },
        res is Ok <==> brackets_nested(instructions(source@)),
        res matches Ok(ops) ==> well_formed(ops@) && ops@.len() <= instructions(source@).len(),
        res matches Err(CompileError::MismatchedLoop { position }) ==> unmatched(
            instructions(source@),
            position as int,
        ),
{
    let insts = parse_to_char(source);
    proof {
        lemma_instructions_are_instructions(source@);
    }
    translate(insts.as_slice())
}

} // verus!
