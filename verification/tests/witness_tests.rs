// The textual witness format.

use patron::Witness;
use patronus::expr::Context;
use patronus::system::{State, TransitionSystem};

#[test]
fn witness_text_format() {
    let mut ctx = Context::default();
    let x = ctx.bv_symbol("x", 3);
    let s = ctx.bv_symbol("myreg", 2);
    let mut sys = TransitionSystem::new("fmt".to_string());
    sys.add_input(&ctx, x);
    sys.add_state(&ctx, State { symbol: s, init: None, next: Some(s) });
    let wit = Witness {
        input_data: vec![0b101, 0b011],
        state_init: vec![0b10],
        k: 1,
        failed_safety: vec![0, 2],
    };
    let text = wit.print(&ctx, &sys);
    let expected = "b0 b2\n#0\n0 10 myreg#0\n@0\n0 101 x@0\n@1\n0 011 x@1\n.\n";
    assert_eq!(text, expected);
}

#[test]
fn witness_text_skips_anonymous_inputs() {
    // an input carrying the reserved anonymous prefix is printed as zeros
    // and consumes no recorded words
    let mut ctx = Context::default();
    let named = ctx.bv_symbol("real", 2);
    let anon = ctx.bv_symbol("_input_7", 4);
    let mut sys = TransitionSystem::new("anon".to_string());
    sys.add_input(&ctx, named);
    sys.add_input(&ctx, anon);
    let wit = Witness {
        input_data: vec![0b11],
        state_init: vec![],
        k: 0,
        failed_safety: vec![1],
    };
    let text = wit.print(&ctx, &sys);
    let expected = "b1\n@0\n0 11 real@0\n1 0000 _input_7@0\n.\n";
    assert_eq!(text, expected);
}

#[test]
fn witness_text_without_states() {
    let mut ctx = Context::default();
    let x = ctx.bv_symbol("x", 1);
    let mut sys = TransitionSystem::new("nostate".to_string());
    sys.add_input(&ctx, x);
    let wit = Witness { input_data: vec![1], state_init: vec![], k: 0, failed_safety: vec![0] };
    let text = wit.print(&ctx, &sys);
    assert_eq!(text, "b0\n@0\n0 1 x@0\n.\n");
}
