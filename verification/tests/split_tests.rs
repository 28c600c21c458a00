// Conjunction splitter tests against a real interning context.

use patron::constraints::{join_conjuncts, split_conjunction};
use patronus::expr::{Context, ExprRef};

fn h(e: ExprRef) -> u32 {
    usize::from(e) as u32
}

#[test]
fn test_split_conjunction() {
    let mut ctx = Context::default();
    let a = ctx.bv_symbol("a", 1);
    let b = ctx.bv_symbol("b", 1);
    let c = ctx.bv_symbol("b", 1);
    assert_eq!(split_conjunction(&mut ctx, h(a)), vec![h(a)]);
    let a_and_b = ctx.and(a, b);
    assert_eq!(split_conjunction(&mut ctx, h(a_and_b)), vec![h(a), h(b)]);
    let a_and_b_and_c_1 = ctx.and(a_and_b, c);
    assert_eq!(
        split_conjunction(&mut ctx, h(a_and_b_and_c_1)),
        vec![h(a), h(b), h(c)]
    );
    let b_and_c = ctx.and(b, c);
    let a_and_b_and_c_2 = ctx.and(a, b_and_c);
    assert_eq!(
        split_conjunction(&mut ctx, h(a_and_b_and_c_2)),
        vec![h(a), h(b), h(c)]
    );
    let a_or_b = ctx.or(a, b);
    assert_eq!(split_conjunction(&mut ctx, h(a_or_b)), vec![h(a_or_b)]);
    let not_a_or_b = ctx.not(a_or_b);
    let not_a = ctx.not(a);
    let not_b = ctx.not(b);
    assert_eq!(
        split_conjunction(&mut ctx, h(not_a_or_b)),
        vec![h(not_a), h(not_b)]
    );
}

#[test]
fn split_de_morgan_materializes_negations() {
    // splitting not(or(a, b)) interns not(a) and not(b) on demand
    let mut ctx = Context::default();
    let a = ctx.bv_symbol("a", 1);
    let b = ctx.bv_symbol("b", 1);
    let a_or_b = ctx.or(a, b);
    let e = ctx.not(a_or_b);
    let parts = split_conjunction(&mut ctx, h(e));
    let not_a = ctx.not(a);
    let not_b = ctx.not(b);
    assert_eq!(parts, vec![h(not_a), h(not_b)]);
}

#[test]
fn split_join_split_is_idempotent() {
    // splitting the re-joined atoms yields the same multiset of atoms
    let mut ctx = Context::default();
    let a = ctx.bv_symbol("a", 1);
    let b = ctx.bv_symbol("b", 1);
    let c = ctx.bv_symbol("c", 1);
    let b_or_c = ctx.or(b, c);
    let nbc = ctx.not(b_or_c);
    let e0 = ctx.and(a, nbc);
    let parts = split_conjunction(&mut ctx, h(e0));
    let joined = join_conjuncts(&mut ctx, &parts);
    let parts2 = split_conjunction(&mut ctx, joined);
    let mut s1 = parts.clone();
    let mut s2 = parts2.clone();
    s1.sort_unstable();
    s2.sort_unstable();
    assert_eq!(s1, s2);
}
