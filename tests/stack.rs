use pixapprox::stack::{Stack, Stack2, STACK_CAPACITY};
use pixapprox::state::State;

#[test]
fn fixed_stack_is_last_in_first_out() {
    let mut s: Stack2<f32> = Stack2::new();
    s.push(1.0);
    s.push(2.0);
    assert_eq!(2, s.len());
    assert_eq!(2.0, s.pop());
    assert_eq!(1.0, s.result());
    assert_eq!(0, s.len());
}

#[test]
fn fixed_stack_holds_its_capacity() {
    let mut s: Stack2<u32> = Stack2::new();
    for i in 0..STACK_CAPACITY as u32 {
        s.push(i);
    }
    assert_eq!(64, s.len());
    assert_eq!(63, s.pop());
}

#[test]
fn growing_stack_is_last_in_first_out() {
    let mut s: Stack<f32> = Stack::new();
    for i in 0..100 {
        s.push(i as f32);
    }
    for _ in 0..99 {
        s.pop();
    }
    assert_eq!(0.0, s.result());
}

#[test]
fn state_starts_at_zero() {
    let state = State::new(2, 0.0f32);
    assert_eq!(vec![0.0, 0.0], state.vars);
    let empty = State::new(0, 0.0f32);
    assert!(empty.vars.is_empty());
}
