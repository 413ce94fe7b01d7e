use rshyeong::{HyeongRational, HyeongReadStack, HyeongWriteStack, StackManager};

fn manager_with_input(input: &str) -> StackManager {
    let stdin = HyeongReadStack::new(input.as_bytes().to_vec());
    let stdout = HyeongWriteStack::new();
    let stderr = HyeongWriteStack::new();
    StackManager::from_stacks(stdin, stdout, stderr)
}

#[test]
fn read_stack_pop() {
    let test_str = "\u{d558}\u{c557}...\u{1f495}";
    let mut stack = HyeongReadStack::new(test_str.as_bytes().to_vec());
    assert_eq!(stack.pop_one(), HyeongRational::from_u32('\u{d558}' as u32));
    assert_eq!(stack.pop_one(), HyeongRational::from_u32('\u{c557}' as u32));
    assert_eq!(stack.pop_one(), HyeongRational::from_u32('.' as u32));
    stack.push_one(HyeongRational::from_u32(14));
    assert_eq!(stack.pop_one(), HyeongRational::from_u32(14));
    assert_eq!(stack.pop_one(), HyeongRational::from_u32('.' as u32));
    assert_eq!(stack.pop_one(), HyeongRational::from_u32('.' as u32));
    assert_eq!(stack.pop_one(), HyeongRational::from_u32('\u{1f495}' as u32));
    assert!(stack.pop_one().is_nan());
}

#[test]
fn write_stack_push() {
    let mut stack = HyeongWriteStack::new();
    stack.push_one(HyeongRational::from_u32('\u{d751}' as u32));
    stack.push_one(HyeongRational::from_u32('.' as u32));
    stack.push_one(HyeongRational::from_u32('.' as u32));
    stack.push_one(HyeongRational::from_u32('!' as u32));
    stack.push_one(HyeongRational::from_i64(-32));
    stack.push_one(HyeongRational::NaN);
    stack.push_one(HyeongRational::new_i64(65 * 3 + 2, 3));
    stack.push_one(HyeongRational::new_i64(-11, 7));
    assert_eq!(
        stack.contents(),
        "\u{d751}..!32\u{b108}\u{bb34} \u{cee4}\u{c5c7}...A2",
    );
}

#[test]
fn stack_manager_push_dup() {
    let mut manager = manager_with_input("");
    manager.push(5, 13);
    manager.dup(3, 1);
    assert_eq!(manager.output(), "AAA");
}

#[test]
fn stack_manager_add_mul() {
    let mut manager = manager_with_input("A");
    manager.dup(1, 0);
    manager.add(1, 2);
    manager.add(1, 1);
    manager.push(1, 1);
    manager.push(1, 7);
    manager.push(2, 2);
    manager.push(1, 13);
    manager.push(3, 9);
    manager.mul(4, 0);
    manager.add(2, 2);
    assert_eq!(manager.output(), "A");
    assert_eq!(
        manager.error_output(),
        "\u{b108}\u{bb34} \u{cee4}\u{c5c7}...\u{2665}",
    );
}

#[test]
fn stack_manager_mul_recip() {
    let mut manager = manager_with_input("\u{bc2f}\u{b9dd}\u{d76c}");
    manager.push(4, 2);
    manager.push(2, 3);
    manager.recip(1, 4);
    manager.mul(2, 3);
    manager.neg(1, 2);
    manager.push(1, 0);
    manager.dup(1, 0);
    manager.neg(5, 2);
    manager.add(1, 4);
    manager.add(1, 1);
    manager.add(1, 1);
    manager.add(1, 1);
    assert_eq!(manager.output(), "481754758155148");
    assert_eq!(manager.error_output(), "2\u{b108}\u{bb34} \u{cee4}\u{c5c7}...");
}

#[test]
fn exit_trigger_on_stack_one() {
    // Selecting stack 1 and invoking an arithmetic operation decides
    // exit code 0 and performs no pop or push.
    for op in 0..4u8 {
        let mut manager = manager_with_input("");
        manager.push(1, 7);
        manager.dup(1, 1);
        assert_eq!(manager.exit_code(), None);
        match op {
            0 => manager.add(1, 3),
            1 => manager.mul(1, 3),
            2 => manager.neg(1, 3),
            _ => manager.recip(1, 3),
        }
        assert_eq!(manager.exit_code(), Some(0));
        // The output holds only what dup rendered; the arithmetic
        // operation rendered nothing.
        assert_eq!(manager.output(), "\u{7}");
    }
}

#[test]
fn exit_trigger_on_stack_two() {
    for op in 0..4u8 {
        let mut manager = manager_with_input("");
        manager.push(1, 7);
        manager.dup(1, 2);
        assert_eq!(manager.exit_code(), None);
        match op {
            0 => manager.add(1, 3),
            1 => manager.mul(1, 3),
            2 => manager.neg(1, 3),
            _ => manager.recip(1, 3),
        }
        assert_eq!(manager.exit_code(), Some(1));
    }
}

#[test]
fn push_and_dup_never_exit() {
    let mut manager = manager_with_input("");
    manager.push(1, 7);
    manager.dup(1, 1);
    // Stack 1 is now selected; push and dup do not trigger an exit.
    manager.push(2, 3);
    assert_eq!(manager.exit_code(), None);
    manager.dup(1, 2);
    assert_eq!(manager.exit_code(), None);
    manager.dup(1, 3);
    assert_eq!(manager.exit_code(), None);
}
