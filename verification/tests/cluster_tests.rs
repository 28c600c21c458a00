// Cluster extraction scenarios over a real context and system.

use patron::constraints::analyze_constraints;
use patronus::expr::{Context, ExprRef};
use patronus::system::{State, TransitionSystem};

fn h(e: ExprRef) -> u32 {
    usize::from(e) as u32
}

#[test]
fn two_independent_clusters() {
    // constraints {a and b, c or d}: the conjunction splits into the atoms
    // a and b, each with its own single-symbol support, while the
    // disjunction keeps both of its symbols in one cluster
    let mut ctx = Context::default();
    let a = ctx.bv_symbol("a", 1);
    let b = ctx.bv_symbol("b", 1);
    let c = ctx.bv_symbol("c", 1);
    let d = ctx.bv_symbol("d", 1);
    let mut sys = TransitionSystem::new("two_clusters".to_string());
    sys.add_input(&ctx, a);
    sys.add_input(&ctx, b);
    sys.add_input(&ctx, c);
    sys.add_input(&ctx, d);
    let ab = ctx.and(a, b);
    let cd = ctx.or(c, d);
    sys.constraints.push(ab);
    sys.constraints.push(cd);
    let clusters = analyze_constraints(&mut ctx, &sys, false);
    assert_eq!(clusters.len(), 3);
    let mut input_sets: Vec<Vec<u32>> = clusters.iter().map(|cl| cl.inputs().clone()).collect();
    input_sets.sort();
    let mut cd_set = vec![h(c), h(d)];
    cd_set.sort_unstable();
    let mut expected = vec![vec![h(a)], vec![h(b)], cd_set];
    expected.sort();
    assert_eq!(input_sets, expected);
    // no two clusters share a constraint or an input
    for (i, c1) in clusters.iter().enumerate() {
        for (j, c2) in clusters.iter().enumerate() {
            if i != j {
                assert!(c1.exprs().iter().all(|e| !c2.exprs().contains(e)));
                assert!(c1.inputs().iter().all(|e| !c2.inputs().contains(e)));
            }
        }
    }
}

#[test]
fn conjunction_splits_into_three_atoms() {
    // x and y and z becomes three atomic constraints; each symbol supports
    // exactly one of them, so three singleton clusters come out
    let mut ctx = Context::default();
    let x = ctx.bv_symbol("x", 1);
    let y = ctx.bv_symbol("y", 1);
    let z = ctx.bv_symbol("z", 1);
    let mut sys = TransitionSystem::new("conj".to_string());
    sys.add_input(&ctx, x);
    sys.add_input(&ctx, y);
    sys.add_input(&ctx, z);
    let xy = ctx.and(x, y);
    let xyz = ctx.and(xy, z);
    sys.constraints.push(xyz);
    let clusters = analyze_constraints(&mut ctx, &sys, false);
    assert_eq!(clusters.len(), 3);
    let mut exprs: Vec<u32> = clusters.iter().flat_map(|cl| cl.exprs().clone()).collect();
    exprs.sort_unstable();
    let mut expected = vec![h(x), h(y), h(z)];
    expected.sort_unstable();
    assert_eq!(exprs, expected);
}

#[test]
fn state_filtered_in_comb_mode() {
    // for the constraint s == i, the steady-state (comb) clustering keeps
    // only the input; in init mode the state joins the cluster
    let mut ctx = Context::default();
    let s = ctx.bv_symbol("s", 4);
    let i = ctx.bv_symbol("i", 4);
    let eq = ctx.equal(s, i);
    let mut sys = TransitionSystem::new("filter".to_string());
    sys.add_input(&ctx, i);
    sys.add_state(
        &ctx,
        State { symbol: s, init: None, next: Some(s) },
    );
    sys.constraints.push(eq);

    let comb = analyze_constraints(&mut ctx.clone(), &sys, false);
    assert_eq!(comb.len(), 1);
    assert_eq!(comb[0].inputs(), &vec![h(i)]);
    assert_eq!(comb[0].exprs(), &vec![h(eq)]);

    let init = analyze_constraints(&mut ctx, &sys, true);
    assert_eq!(init.len(), 1);
    let mut both = init[0].inputs().clone();
    assert_eq!(both, vec![h(i)]);
    both = vec![];
    let _ = both;
    // in init mode the state is part of the cluster's support
    assert_eq!(init[0].exprs(), &vec![h(eq)]);
}

#[test]
fn shared_atom_is_deduplicated() {
    // the same atomic constraint listed twice lands in one cluster once
    let mut ctx = Context::default();
    let a = ctx.bv_symbol("a", 1);
    let mut sys = TransitionSystem::new("dedup".to_string());
    sys.add_input(&ctx, a);
    sys.constraints.push(a);
    sys.constraints.push(a);
    let clusters = analyze_constraints(&mut ctx, &sys, false);
    assert_eq!(clusters.len(), 1);
    assert_eq!(clusters[0].exprs(), &vec![h(a)]);
    assert_eq!(clusters[0].inputs(), &vec![h(a)]);
}
