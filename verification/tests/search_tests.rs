// End-to-end search scenarios on small transition systems.

use patron::{random_testing, ModelCheckResult, RandomOptions, Witness};
use patronus::expr::{Context, ExprRef};
use baa::BitVecOps;
use patronus::sim::{InitKind, Interpreter, Simulator};
use patronus::system::{State, TransitionSystem};

fn h(e: ExprRef) -> u32 {
    usize::from(e) as u32
}

fn opts(max_cycles: Option<u64>) -> RandomOptions {
    RandomOptions { small_k: 50, large_k: 1_000, large_k_prob: 0, max_cycles }
}

/// One 8-bit input feeding an 8-bit state; bad when the state reads 0xAB.
fn counter_example_system() -> (Context, TransitionSystem, ExprRef, ExprRef) {
    let mut ctx = Context::default();
    let x = ctx.bv_symbol("x", 8);
    let s = ctx.bv_symbol("s", 8);
    let target = ctx.bit_vec_val(0xab, 8);
    let bad = ctx.equal(s, target);
    let mut sys = TransitionSystem::new("counter_example".to_string());
    sys.add_input(&ctx, x);
    sys.add_state(&ctx, State { symbol: s, init: None, next: Some(x) });
    sys.bad_states.push(bad);
    (ctx, sys, x, s)
}

#[test]
fn constrained_input_never_reaches_bad() {
    // constraint forces x to 1, bad holds when x is 0: the search must not
    // find a witness and gives up when the cycle budget runs out
    let mut ctx = Context::default();
    let x = ctx.bv_symbol("x", 1);
    let not_x = ctx.not(x);
    let mut sys = TransitionSystem::new("constrained".to_string());
    sys.add_input(&ctx, x);
    sys.constraints.push(x);
    sys.bad_states.push(not_x);
    let result = random_testing(ctx, sys, opts(Some(200)), 0);
    assert!(matches!(result, ModelCheckResult::Unknown));
}

#[test]
fn reachable_bad_state_is_found() {
    let (ctx, sys, _x, _s) = counter_example_system();
    let result = random_testing(ctx, sys, opts(Some(1_000_000)), 0);
    match result {
        ModelCheckResult::Sat(wit) => {
            assert_eq!(wit.failed_safety, vec![0]);
            // one 8-bit state without a computed init, one 8-bit input
            assert_eq!(wit.state_init.len(), 1);
            assert_eq!(wit.input_data.len() as u64, wit.k + 1);
        }
        other => panic!("expected a witness, got {:?}", other),
    }
}

#[test]
fn sampled_values_respect_the_width() {
    // every sampled value for the 8-bit input must be below 2^8
    let (ctx, sys, _x, _s) = counter_example_system();
    let result = random_testing(ctx, sys, opts(Some(1_000_000)), 0);
    match result {
        ModelCheckResult::Sat(wit) => {
            for w in &wit.input_data {
                assert!(*w < 256);
            }
            for w in &wit.state_init {
                assert!(*w < 256);
            }
        }
        other => panic!("expected a witness, got {:?}", other),
    }
}

#[test]
fn search_is_deterministic() {
    // two runs with the same seed yield byte-identical witness output
    let (ctx1, sys1, _, _) = counter_example_system();
    let (ctx2, sys2, _, _) = counter_example_system();
    let print1 = match random_testing(ctx1.clone(), sys1.clone(), opts(Some(1_000_000)), 3) {
        ModelCheckResult::Sat(w) => w.print(&ctx1, &sys1),
        other => panic!("expected a witness, got {:?}", other),
    };
    let print2 = match random_testing(ctx2.clone(), sys2.clone(), opts(Some(1_000_000)), 3) {
        ModelCheckResult::Sat(w) => w.print(&ctx2, &sys2),
        other => panic!("expected a witness, got {:?}", other),
    };
    assert_eq!(print1, print2);
}

#[test]
fn witness_replays_to_the_bad_state() {
    // re-driving a fresh simulator with the recorded initial state and
    // inputs reaches a state where the failed predicate evaluates to 1
    let (ctx, sys, x, s) = counter_example_system();
    let wit: Witness = match random_testing(ctx.clone(), sys.clone(), opts(Some(1_000_000)), 1) {
        ModelCheckResult::Sat(w) => w,
        other => panic!("expected a witness, got {:?}", other),
    };
    let mut sim = Interpreter::new(&ctx, &sys);
    sim.init(InitKind::Zero);
    sim.set(s, baa::BitVecValueRef::new(&wit.state_init[0..1], 8));
    for k in 0..=wit.k {
        let word = [wit.input_data[k as usize]];
        sim.set(x, baa::BitVecValueRef::new(&word, 8));
        if k == wit.k {
            break;
        }
        sim.step();
    }
    let bad = sys.bad_states[0];
    let value = match sim.get(bad) {
        baa::Value::BitVec(v) => v.to_u64().unwrap(),
        _ => panic!("bad predicate is not a bit vector"),
    };
    assert_eq!(value, 1);
}

#[test]
fn rejection_sampling_respects_constraints() {
    // two 4-bit inputs constrained to be equal: every recorded cycle must
    // carry the same value for both, and the bad state is still reachable
    let mut ctx = Context::default();
    let a = ctx.bv_symbol("a", 4);
    let b = ctx.bv_symbol("b", 4);
    let s = ctx.bv_symbol("s", 4);
    let eq = ctx.equal(a, b);
    let target = ctx.bit_vec_val(0x9, 4);
    let bad = ctx.equal(s, target);
    let mut sys = TransitionSystem::new("equal_inputs".to_string());
    sys.add_input(&ctx, a);
    sys.add_input(&ctx, b);
    sys.add_state(&ctx, State { symbol: s, init: None, next: Some(a) });
    sys.constraints.push(eq);
    sys.bad_states.push(bad);
    match random_testing(ctx, sys, opts(Some(1_000_000)), 0) {
        ModelCheckResult::Sat(wit) => {
            // two one-word inputs per cycle, in system input order
            assert_eq!(wit.input_data.len() as u64, 2 * (wit.k + 1));
            for frame in wit.input_data.chunks(2) {
                assert_eq!(frame[0], frame[1]);
                assert!(frame[0] < 16);
            }
        }
        other => panic!("expected a witness, got {:?}", other),
    }
}

#[test]
fn btor2_pipeline_finds_witness() {
    // the full pipeline: parse a btor2 system, simplify it, search, and
    // print the witness against the original system
    let src = "1 sort bitvec 8\n2 sort bitvec 1\n3 input 1 x\n4 state 1 s\n5 next 1 4 3\n6 constd 1 171\n7 eq 2 4 6\n8 bad 7\n";
    let mut ctx = Context::default();
    let mut sys = patronus::btor2::parse_str(&mut ctx, src, Some("sys")).expect("parse");
    let orig_ctx = ctx.clone();
    let orig_sys = sys.clone();
    patronus::system::transform::replace_anonymous_inputs_with_zero(&mut ctx, &mut sys);
    patronus::system::transform::simplify_expressions(&mut ctx, &mut sys);
    let opts = RandomOptions { small_k: 50, large_k: 1_000, large_k_prob: 0, max_cycles: Some(1_000_000) };
    match random_testing(ctx, sys, opts, 0) {
        ModelCheckResult::Sat(wit) => {
            let text = wit.print(&orig_ctx, &orig_sys);
            assert!(text.starts_with("b0\n#0\n0 00000000 s#0\n@0\n"));
            assert!(text.ends_with(".\n"));
            // the bad state s == 171 is reached one cycle after the input
            // that drives it, so the input of the previous cycle is 171
            assert!(wit.k >= 1);
            let drive = format!("0 10101011 x@{}", wit.k - 1);
            assert!(text.contains(&drive));
        }
        other => panic!("expected a witness, got {:?}", other),
    }
}
