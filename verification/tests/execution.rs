use bf2wasm::compile;

/// Runs `source` as the language defines it: a tape of byte cells that wrap
/// around, a pointer that starts on the first cell, input that leaves the
/// cell alone once it has run out.
fn interpret(source: &str, input: &[u8]) -> Vec<u8> {
    let code: Vec<char> = source.chars().collect();
    let mut tape = vec![0u8; 30_000];
    let mut pointer = 0usize;
    let mut next_input = 0usize;
    let mut output = Vec::new();
    let mut pc = 0usize;
    let mut steps = 0u64;
    while pc < code.len() {
        steps += 1;
        assert!(steps < 50_000_000, "the program does not stop");
        match code[pc] {
            '>' => pointer += 1,
            '<' => pointer -= 1,
            '+' => tape[pointer] = tape[pointer].wrapping_add(1),
            '-' => tape[pointer] = tape[pointer].wrapping_sub(1),
            '.' => output.push(tape[pointer]),
            ',' => {
                if next_input < input.len() {
                    tape[pointer] = input[next_input];
                    next_input += 1;
                }
            }
            '[' if tape[pointer] == 0 => {
                let mut depth = 1;
                while depth > 0 {
                    pc += 1;
                    match code[pc] {
                        '[' => depth += 1,
                        ']' => depth -= 1,
                        _ => {}
                    }
                }
            }
            ']' if tape[pointer] != 0 => {
                let mut depth = 1;
                while depth > 0 {
                    pc -= 1;
                    match code[pc] {
                        ']' => depth += 1,
                        '[' => depth -= 1,
                        _ => {}
                    }
                }
            }
            _ => {}
        }
        pc += 1;
    }
    output
}

/// The instructions of the entry procedure in the text of a module.
fn entry_body(module: &str) -> Vec<String> {
    let lines: Vec<&str> = module.lines().collect();
    let header = lines
        .iter()
        .position(|line| line.trim() == "(func $main (export \"_start\")")
        .expect("the module has an entry procedure");
    assert_eq!(lines[lines.len() - 2], "    )");
    assert_eq!(lines[lines.len() - 1], ")");
    let body: Vec<String> = lines[header + 1..lines.len() - 2]
        .iter()
        .map(|line| {
            assert!(line.starts_with("        "), "{:?}", line);
            line.trim().to_string()
        })
        .collect();
    assert_eq!(body[0], "(local $mvDataTemp i32)");
    body[1..].to_vec()
}

/// The index of the `end` that closes the construct opened at `at`.
fn closing_end(body: &[String], at: usize) -> usize {
    let mut depth = 0usize;
    for (i, line) in body.iter().enumerate().skip(at) {
        if line.starts_with("loop ") || line == "if" {
            depth += 1;
        } else if line == "end" {
            depth -= 1;
            if depth == 0 {
                return i;
            }
        }
    }
    panic!("the construct at {} is never closed", at);
}

/// Runs the entry procedure of `module` on a stack machine with one page of
/// byte memory, the cell pointer in a global that starts at 8, and the two
/// trampolines moving one byte between the current cell and the host.
fn execute(module: &str, input: &[u8]) -> Vec<u8> {
    let body = entry_body(module);
    let mut memory = vec![0u8; 65_536];
    let mut index: u32 = 8;
    let mut temp: u32 = 0;
    let mut stack: Vec<u32> = Vec::new();
    // Open constructs: the label and the header's index for a loop, nothing
    // for a guarded block.
    let mut frames: Vec<Option<(String, usize)>> = Vec::new();
    let mut next_input = 0usize;
    let mut output = Vec::new();
    let mut pc = 0usize;
    let mut steps = 0u64;
    while pc < body.len() {
        steps += 1;
        assert!(steps < 200_000_000, "the module does not stop");
        let line = body[pc].as_str();
        if line == "global.get $index" {
            stack.push(index);
        } else if line == "global.set $index" {
            index = stack.pop().unwrap();
        } else if line == "local.get $mvDataTemp" {
            stack.push(temp);
        } else if line == "local.set $mvDataTemp" {
            temp = stack.pop().unwrap();
        } else if line == "i32.load8_u" {
            let address = stack.pop().unwrap() as usize;
            stack.push(memory[address] as u32);
        } else if line == "i32.store8" {
            let value = stack.pop().unwrap();
            let address = stack.pop().unwrap() as usize;
            memory[address] = value as u8;
        } else if line == "i32.add" {
            let right = stack.pop().unwrap();
            let left = stack.pop().unwrap();
            stack.push(left.wrapping_add(right));
        } else if line == "i32.sub" {
            let right = stack.pop().unwrap();
            let left = stack.pop().unwrap();
            stack.push(left.wrapping_sub(right));
        } else if let Some(number) = line.strip_prefix("i32.const ") {
            stack.push(number.parse::<i32>().unwrap() as u32);
        } else if line == "call $read_one_byte" {
            if next_input < input.len() {
                memory[index as usize] = input[next_input];
                next_input += 1;
            }
        } else if line == "call $write_one_byte" {
            output.push(memory[index as usize]);
        } else if let Some(label) = line.strip_prefix("loop ") {
            frames.push(Some((label.to_string(), pc)));
        } else if line == "if" {
            if stack.pop().unwrap() != 0 {
                frames.push(None);
            } else {
                pc = closing_end(&body, pc);
            }
        } else if let Some(label) = line.strip_prefix("br ") {
            loop {
                match frames.last() {
                    Some(Some((open, header))) if open == label => {
                        pc = *header;
                        break;
                    }
                    Some(_) => {
                        frames.pop();
                    }
                    None => panic!("branch to {} outside of it", label),
                }
            }
        } else if line == "end" {
            frames.pop().expect("an end closes an open construct");
        } else {
            panic!("unknown instruction {:?}", line);
        }
        pc += 1;
    }
    assert!(stack.is_empty());
    assert!(frames.is_empty());
    output
}

/// Compiles and executes `source`, and holds the output against the
/// interpreter's.
fn output_of(source: &str, input: &[u8]) -> Vec<u8> {
    let module = compile(source).unwrap();
    let output = execute(&module, input);
    assert_eq!(output, interpret(source, input), "{}", source);
    output
}

#[test]
fn three_increments_write_byte_three() {
    assert_eq!(output_of("+++.", b""), vec![3]);
}

#[test]
fn cells_wrap_around() {
    assert_eq!(output_of("-.", b""), vec![255]);
    assert_eq!(output_of("-++.", b""), vec![1]);
    let many = format!("{}.", "+".repeat(259));
    assert_eq!(output_of(&many, b""), vec![3]);
}

#[test]
fn hello_world_is_written() {
    let source = "++++++++[>++++[>++>+++>+++>+<<<<-]>+>+>->>+[<]<-]>>.>---.+++++++..+++.\
                  >>.<-.<.+++.------.--------.>>+.>++.";
    assert_eq!(output_of(source, b""), b"Hello World!\n");
}

#[test]
fn input_is_echoed_until_a_zero_byte() {
    assert_eq!(output_of(",[.,]", b"tape\0rest"), b"tape");
}

#[test]
fn input_is_reversed() {
    assert_eq!(output_of(">,[>,]<[.<]", b"stressed\0"), b"desserts");
}

#[test]
fn clear_loop_clears() {
    assert_eq!(output_of("+++++[-].", b""), vec![0]);
    assert_eq!(output_of(",[+].", b"\x07"), vec![0]);
    assert_eq!(output_of("[-].", b""), vec![0]);
}

#[test]
fn transfer_adds_the_cell_to_its_target() {
    assert_eq!(output_of("+++++>>++<<[->>+<<].>>.", b""), vec![0, 7]);
    assert_eq!(output_of(">>>,<<<,>>>[-<<<+>>>].<<<.", b"\x28\x02"), vec![0, 42]);
    assert_eq!(output_of(">[-<+>]<.", b""), vec![0]);
    assert_eq!(output_of(",>,<[->+<]>.", b"\xc8\x64"), vec![44]);
}

#[test]
fn pointer_scan_stops_on_a_zero_cell() {
    assert_eq!(output_of("+>+>+>>+<<<<[>]<.>>+.", b""), vec![1, 2]);
    assert_eq!(output_of(">>+>+>+[<]>.>>+.", b""), vec![1, 2]);
    assert_eq!(output_of("+>>+>>+>>>+<<<<<<<[>>]>.", b""), vec![1]);
    assert_eq!(output_of("+>>+>>+>>>+<<<<<<<[>>].", b""), vec![0]);
}

#[test]
fn general_loops_multiply() {
    assert_eq!(output_of("++++++[>+++++++<-]>.", b""), vec![42]);
    assert_eq!(output_of("+++[>++++[>++<-]<-]>>.", b""), vec![24]);
}

#[test]
fn loops_on_a_zero_cell_are_skipped() {
    assert_eq!(output_of("[.]+.", b""), vec![1]);
    assert_eq!(output_of("[[.]-]>[>]>[->+<]+.", b""), vec![1]);
}

#[test]
fn noise_does_not_change_what_runs() {
    let plain = output_of("++[>+++<-]>.", b"");
    assert_eq!(output_of("two ++ times [ > three +++ < - ] > is six .\n", b""), plain);
    assert_eq!(plain, vec![6]);
}

/// Runs `source` like `interpret`, but gives up on a program that leaves
/// the tape or runs for more than `limit` steps.
fn interpret_within(source: &str, input: &[u8], limit: u64) -> Option<Vec<u8>> {
    let code: Vec<char> = source.chars().collect();
    let mut tape = vec![0u8; 30_000];
    let mut pointer = 0usize;
    let mut next_input = 0usize;
    let mut output = Vec::new();
    let mut pc = 0usize;
    let mut steps = 0u64;
    while pc < code.len() {
        steps += 1;
        if steps > limit {
            return None;
        }
        match code[pc] {
            '>' => {
                pointer += 1;
                if pointer >= tape.len() {
                    return None;
                }
            }
            '<' => {
                if pointer == 0 {
                    return None;
                }
                pointer -= 1;
            }
            '+' => tape[pointer] = tape[pointer].wrapping_add(1),
            '-' => tape[pointer] = tape[pointer].wrapping_sub(1),
            '.' => output.push(tape[pointer]),
            ',' => {
                if next_input < input.len() {
                    tape[pointer] = input[next_input];
                    next_input += 1;
                }
            }
            '[' if tape[pointer] == 0 => {
                let mut depth = 1;
                while depth > 0 {
                    pc += 1;
                    match code[pc] {
                        '[' => depth += 1,
                        ']' => depth -= 1,
                        _ => {}
                    }
                }
            }
            ']' if tape[pointer] != 0 => {
                let mut depth = 1;
                while depth > 0 {
                    pc -= 1;
                    match code[pc] {
                        ']' => depth += 1,
                        '[' => depth -= 1,
                        _ => {}
                    }
                }
            }
            _ => {}
        }
        pc += 1;
    }
    Some(output)
}

/// A source of numbers that is the same in every run.
struct Numbers(u64);

impl Numbers {
    fn next(&mut self, below: u64) -> u64 {
        self.0 = self.0.wrapping_mul(6364136223846793005).wrapping_add(1442695040888963407);
        (self.0 >> 33) % below
    }
}

/// A program of about `length` instructions whose brackets nest.
fn some_program(numbers: &mut Numbers, length: usize) -> String {
    let mut program = String::new();
    let mut open = 0usize;
    // Start away from the left end of the tape, on cells that hold something.
    program.push_str(">>>>+>++>+++<<");
    while program.len() < length {
        match numbers.next(16) {
            0..=2 => program.push('+'),
            3..=5 => program.push('-'),
            6..=7 => program.push('>'),
            8..=9 => program.push('<'),
            10 => program.push('.'),
            11 => program.push(','),
            12..=13 if open < 3 => {
                program.push('[');
                open += 1;
            }
            14..=15 if open > 0 => {
                program.push(']');
                open -= 1;
            }
            _ => program.push('.'),
        }
    }
    for _ in 0..open {
        program.push(']');
    }
    program.push('.');
    program
}

#[test]
fn generated_programs_run_as_interpreted() {
    let mut numbers = Numbers(2024);
    let input = b"\x03\x01\x00\x05\x02\x07";
    let mut compared = 0;
    for round in 0..4000 {
        let program = some_program(&mut numbers, 14 + round % 30);
        if let Some(expected) = interpret_within(&program, input, 20_000) {
            let module = compile(&program).unwrap();
            assert_eq!(execute(&module, input), expected, "{}", program);
            compared += 1;
        }
    }
    assert!(compared > 1000, "only {} programs ended", compared);
}
