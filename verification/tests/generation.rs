use bf2wasm::bf_ops::{BfOp, BfOpKind};
use bf2wasm::code_generator::{generate_main, generate_wat, LabelStack};
use bf2wasm::compile;
use bf2wasm::decimal::decimal;

fn op(kind: BfOpKind, argument: i32) -> BfOp {
    BfOp { kind, argument }
}

/// The lines for `ops` after the declaration of the scratch local.
fn body(ops: &[BfOp]) -> Vec<String> {
    let lines = generate_main(ops);
    assert_eq!(lines[0], "(local $mvDataTemp i32)");
    lines[1..].to_vec()
}

const HEAD: &str = r#"
(module
    (import "wasi_unstable" "fd_read" (func $fd_read (param i32 i32 i32 i32) (result i32)))

    (import "wasi_unstable" "fd_write" (func $fd_write (param i32 i32 i32 i32) (result i32)))

    (memory $mem 1)
    (export "memory" (memory $mem))
    (global $index (mut i32) (i32.const 8))

    (func $write_one_byte
        i32.const 0
        global.get $index
        i32.store8
        (i32.store8 (i32.const 4) (i32.const 1))
        (call $fd_write
            (i32.const 1)
            (i32.const 0)
            (i32.const 1)
            (i32.const 30012)
        )
        drop
    )

    (func $read_one_byte
        i32.const 0
        global.get $index
        i32.store8
        (i32.store8 (i32.const 4) (i32.const 1))
        (call $fd_read
            (i32.const 0)
            (i32.const 0)
            (i32.const 1)
            (i32.const 30012)
        )
        drop
    )

    (func $main (export "_start")
"#;

#[test]
fn decimal_of_small_numbers() {
    assert_eq!(decimal(0), "0");
    assert_eq!(decimal(7), "7");
    assert_eq!(decimal(10), "10");
    assert_eq!(decimal(-1), "-1");
    assert_eq!(decimal(1905), "1905");
    assert_eq!(decimal(-40020), "-40020");
}

#[test]
fn decimal_of_the_largest_numbers() {
    assert_eq!(decimal(i32::MAX as i64), "2147483647");
    assert_eq!(decimal(i32::MIN as i64), "-2147483648");
    assert_eq!(decimal(u32::MAX as i64), "4294967295");
    assert_eq!(decimal(i64::MAX), "9223372036854775807");
    assert_eq!(decimal(i64::MIN), "-9223372036854775808");
}

#[test]
fn decimal_agrees_with_the_standard_rendering() {
    let mut n: i64 = -3;
    for _ in 0..60 {
        assert_eq!(decimal(n), n.to_string());
        assert_eq!(decimal(-n), (-n).to_string());
        n = n * 2 - 1;
    }
}

#[test]
fn label_stack_hands_out_increasing_labels() {
    let mut stack = LabelStack::new();
    assert_eq!(stack.push(), 0);
    assert_eq!(stack.push(), 1);
    assert_eq!(stack.pop(), 1);
    assert_eq!(stack.push(), 2);
    assert_eq!(stack.push(), 3);
    assert_eq!(stack.pop(), 3);
    assert_eq!(stack.pop(), 2);
    assert_eq!(stack.pop(), 0);
    assert_eq!(stack.push(), 4);
}

#[test]
fn empty_program_declares_the_scratch_local_only() {
    assert_eq!(generate_main(&[]), vec!["(local $mvDataTemp i32)"]);
}

#[test]
fn data_operations_load_change_and_store() {
    assert_eq!(
        body(&[op(BfOpKind::IncData, 3)]),
        vec![
            "global.get $index",
            "global.get $index",
            "i32.load8_u",
            "i32.const 3",
            "i32.add",
            "i32.store8",
        ]
    );
    assert_eq!(
        body(&[op(BfOpKind::DecData, 300)]),
        vec![
            "global.get $index",
            "global.get $index",
            "i32.load8_u",
            "i32.const 300",
            "i32.sub",
            "i32.store8",
        ]
    );
}

#[test]
fn pointer_operations_change_the_pointer() {
    assert_eq!(
        body(&[op(BfOpKind::IncPtr, 12)]),
        vec!["global.get $index", "i32.const 12", "i32.add", "global.set $index"]
    );
    assert_eq!(
        body(&[op(BfOpKind::DecPtr, 1)]),
        vec!["global.get $index", "i32.const 1", "i32.sub", "global.set $index"]
    );
}

#[test]
fn io_operations_call_the_trampoline_once_per_byte() {
    assert_eq!(
        body(&[op(BfOpKind::ReadStdin, 3)]),
        vec!["call $read_one_byte", "call $read_one_byte", "call $read_one_byte"]
    );
    assert_eq!(
        body(&[op(BfOpKind::WriteStdout, 2)]),
        vec!["call $write_one_byte", "call $write_one_byte"]
    );
}

#[test]
fn io_operations_without_a_positive_count_emit_nothing() {
    assert_eq!(body(&[op(BfOpKind::ReadStdin, 0)]), Vec::<String>::new());
    assert_eq!(body(&[op(BfOpKind::WriteStdout, -4)]), Vec::<String>::new());
}

#[test]
fn set_to_zero_stores_zero() {
    assert_eq!(
        body(&[op(BfOpKind::LoopSetToZero, 0)]),
        vec!["global.get $index", "i32.const 0", "i32.store8"]
    );
}

#[test]
fn pointer_scan_is_a_loop_of_its_own() {
    assert_eq!(
        body(&[op(BfOpKind::LoopMovePtr, -2)]),
        vec![
            "loop $loop_0",
            "global.get $index",
            "i32.load8_u",
            "if",
            "global.get $index",
            "i32.const -2",
            "i32.add",
            "global.set $index",
            "br $loop_0",
            "end",
            "end",
        ]
    );
}

#[test]
fn transfer_is_one_guarded_block() {
    assert_eq!(
        body(&[op(BfOpKind::LoopMoveData, 2)]),
        vec![
            "global.get $index",
            "i32.load8_u",
            "if",
            "global.get $index",
            "i32.const 2",
            "i32.add",
            "local.set $mvDataTemp",
            "local.get $mvDataTemp",
            "global.get $index",
            "i32.load8_u",
            "local.get $mvDataTemp",
            "i32.load8_u",
            "i32.add",
            "i32.store8",
            "global.get $index",
            "i32.const 0",
            "i32.store8",
            "end",
        ]
    );
}

#[test]
fn jump_pair_opens_and_closes_a_loop() {
    assert_eq!(
        body(&[op(BfOpKind::JumpIfDataZero, 1), op(BfOpKind::JumpIfDataNotZero, 0)]),
        vec![
            "loop $loop_0",
            "global.get $index",
            "i32.load8_u",
            "if",
            "global.get $index",
            "i32.load8_u",
            "if",
            "br $loop_0",
            "end",
            "end",
            "end",
        ]
    );
}

/// The labels of the loop headers and of the branches in `lines`, in order.
fn labels(lines: &[String]) -> Vec<String> {
    lines
        .iter()
        .filter(|l| l.starts_with("loop ") || l.starts_with("br "))
        .cloned()
        .collect()
}

#[test]
fn nested_loops_branch_to_their_own_heads() {
    let ops = [
        op(BfOpKind::JumpIfDataZero, 5),
        op(BfOpKind::JumpIfDataZero, 3),
        op(BfOpKind::WriteStdout, 1),
        op(BfOpKind::JumpIfDataNotZero, 1),
        op(BfOpKind::LoopMovePtr, 1),
        op(BfOpKind::JumpIfDataNotZero, 0),
        op(BfOpKind::JumpIfDataZero, 8),
        op(BfOpKind::ReadStdin, 1),
        op(BfOpKind::JumpIfDataNotZero, 6),
    ];
    assert_eq!(
        labels(&generate_main(&ops)),
        vec![
            "loop $loop_0",
            "loop $loop_1",
            "br $loop_1",
            "loop $loop_2",
            "br $loop_2",
            "br $loop_0",
            "loop $loop_3",
            "br $loop_3",
        ]
    );
}

#[test]
fn labels_do_not_depend_on_jump_arguments() {
    let ops = [
        op(BfOpKind::JumpIfDataZero, 0),
        op(BfOpKind::JumpIfDataZero, 77),
        op(BfOpKind::JumpIfDataNotZero, -5),
        op(BfOpKind::JumpIfDataNotZero, 9),
    ];
    assert_eq!(
        labels(&generate_main(&ops)),
        vec!["loop $loop_0", "loop $loop_1", "br $loop_1", "br $loop_0"]
    );
}

#[test]
fn every_construct_that_opens_is_closed() {
    let ops = bf2wasm::bf_ops::parse("++[>+[>,.<-]<[->+>+<<]>>[.[-]]]<[[.]][>]").unwrap();
    let mut open = 0usize;
    for line in generate_main(&ops) {
        if line.starts_with("loop ") || line == "if" {
            open += 1;
        } else if line == "end" {
            assert!(open > 0);
            open -= 1;
        }
    }
    assert_eq!(open, 0);
}

#[test]
fn module_of_the_empty_program() {
    assert_eq!(
        generate_wat(&[]),
        format!("{}        (local $mvDataTemp i32)\n    )\n)\n", HEAD)
    );
}

#[test]
fn module_indents_every_line_of_the_body() {
    let expected = format!(
        "{}{}\n    )\n)\n",
        HEAD,
        [
            "        (local $mvDataTemp i32)",
            "        global.get $index",
            "        global.get $index",
            "        i32.load8_u",
            "        i32.const 3",
            "        i32.add",
            "        i32.store8",
            "        call $write_one_byte",
        ]
        .join("\n")
    );
    assert_eq!(
        generate_wat(&[op(BfOpKind::IncData, 3), op(BfOpKind::WriteStdout, 1)]),
        expected
    );
}

#[test]
fn compile_goes_from_source_to_module() {
    let expected = format!(
        "{}{}\n    )\n)\n",
        HEAD,
        [
            "        (local $mvDataTemp i32)",
            "        call $read_one_byte",
            "        global.get $index",
            "        i32.const 0",
            "        i32.store8",
            "        call $write_one_byte",
        ]
        .join("\n")
    );
    assert_eq!(compile("read , clear [-] write .").unwrap(), expected);
}

#[test]
fn compile_is_what_parse_and_generate_give() {
    let source = "++[>+[>,.<-]<[->+>+<<]>>[.[-]]]<[[.]][>]";
    let ops = bf2wasm::bf_ops::parse(source).unwrap();
    assert_eq!(compile(source).unwrap(), generate_wat(&ops));
}

#[test]
fn compile_reports_a_mismatched_loop() {
    assert_eq!(
        compile("+[>+"),
        Err(bf2wasm::bf_ops::CompileError::MismatchedLoop { position: 1 })
    );
    assert_eq!(
        compile("+]>+"),
        Err(bf2wasm::bf_ops::CompileError::MismatchedLoop { position: 1 })
    );
}

#[test]
fn compile_ignores_noise() {
    assert_eq!(compile("+ + [ - ]\n.").unwrap(), compile("++[-].").unwrap());
}
