use rshyeong::{HyeongReadStack, HyeongWriteStack, Parser, Processor, StackManager};

fn run_program(source: &str, input: &str) -> (isize, String, String) {
    let stdin = HyeongReadStack::new(input.as_bytes().to_vec());
    let stdout = HyeongWriteStack::new();
    let stderr = HyeongWriteStack::new();
    let stacks = StackManager::from_stacks(stdin, stdout, stderr);
    let parser = Parser::new(source);
    let mut processor = Processor::with_stack_manager(parser, stacks);
    let code = processor.run(1_000_000).expect("program did not halt in time");
    (code, processor.output().clone(), processor.error_output().clone())
}

/// Pushes the character's code as magnitude dots behind a push
/// syllable, then moves it onto the given stream stack.
fn print_char_seq(src: &mut String, c: char, stream: usize) {
    src.push('\u{d615}');
    for _ in 0..(c as u32) {
        src.push('.');
    }
    src.push(' ');
    src.push('\u{d56d}');
    for _ in 0..stream {
        src.push('.');
    }
    src.push(' ');
}

#[test]
fn hello_world() {
    // Every character but the last is pushed and then summed onto the
    // output stack; the last is printed by the duplicate that selects
    // the output stack, and the closing addition triggers the exit.
    let mut src = String::new();
    for c in "Hello, World".chars() {
        print_char_seq(&mut src, c, 1);
    }
    src.push('\u{d615}');
    for _ in 0..('!' as u32) {
        src.push('.');
    }
    src.push(' ');
    src.push_str("\u{d751}. \u{d56d}");
    let (code, out, err) = run_program(&src, "");
    assert_eq!(code, 0);
    assert_eq!(out, "Hello, World!");
    assert_eq!(err, "");
}

#[test]
fn fibonacci() {
    // A looping program exercising heart-tagged jumps and a return:
    // the label is bound at its first occurrence, the later conditional
    // heart jumps back to it, and the return lands on the position
    // recorded at the most recent jump.
    let src = "\u{d615}. \u{d615}. \u{d615}... \u{d615}.. \u{d615}..\u{2665} \u{d56d}..\u{2665}! \u{d56d}.\u{2661}! \u{d615}.......... \u{d751}. \u{d56d}";
    let (code, out, err) = run_program(src, "");
    assert_eq!(code, 0);
    assert_eq!(out, "\u{1}\u{b108}\u{bb34} \u{cee4}\u{c5c7}...\n");
    assert_eq!(err, "\u{2}\u{2}\u{b108}\u{bb34} \u{cee4}\u{c5c7}...");
}

#[test]
fn stderr() {
    let mut src = String::new();
    for c in "Err".chars() {
        print_char_seq(&mut src, c, 2);
    }
    src.push('\u{d615}');
    for _ in 0..('!' as u32) {
        src.push('.');
    }
    src.push(' ');
    src.push_str("\u{d751}.. \u{d56d}");
    let (code, out, err) = run_program(&src, "");
    assert_eq!(code, 1);
    assert_eq!(out, "");
    assert_eq!(err, "Err!");
}

#[test]
fn input_characters_flow_through_stack_zero() {
    // Duplicate onto stack 0 selects it; the additions then pop input
    // characters decoded from the input bytes and print them.
    let src = "\u{d751} \u{d56d}. \u{d56d}. \u{d751}. \u{d56d}";
    let (code, out, _err) = run_program(src, "Hi");
    assert_eq!(code, 0);
    // The duplicate onto stack 0 buffers one poison value, so the
    // first addition prints the placeholder; the next addition decodes
    // and prints 'H'; the duplicate onto stack 1 decodes 'i', prints
    // it and selects the output stack; the final addition exits.
    assert_eq!(
        out,
        "\u{b108}\u{bb34} \u{cee4}\u{c5c7}...Hi",
    );
}

#[test]
fn program_wraps_to_start() {
    // When the parser is exhausted, the counter wraps to zero and the
    // program restarts.  Four steps: push 10; duplicate prints the
    // newline and selects stack 1; the wrapped push renders straight
    // onto stack 1; the wrapped duplicate pops poison from stack 1 and
    // renders the placeholder twice (the push-back and the copy).
    let src = "\u{d615}.......... \u{d751}.";
    let stdin = HyeongReadStack::new(Vec::new());
    let stdout = HyeongWriteStack::new();
    let stderr = HyeongWriteStack::new();
    let stacks = StackManager::from_stacks(stdin, stdout, stderr);
    let parser = Parser::new(src);
    let mut processor = Processor::with_stack_manager(parser, stacks);
    assert_eq!(processor.run(4), None);
    let too_big = "\u{b108}\u{bb34} \u{cee4}\u{c5c7}...";
    assert_eq!(processor.output(), &format!("\n\n{}{}", too_big, too_big));
}
