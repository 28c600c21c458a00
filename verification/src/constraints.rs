//! Constraint analysis: conjunction splitting and clustering.
//!
//! An environmental constraint is a 1-bit expression.  The splitter
//! decomposes it into atomic sub-constraints whose conjunction is equivalent
//! to the original expression under every interpretation.  The cluster
//! builder then groups the atomic constraints by shared free symbols, so
//! that rejection sampling can run per cluster instead of globally.

use vstd::multiset::Multiset;
use vstd::prelude::*;

use crate::ir::{
    bv_width_of, coi_comb, coi_comb_of, coi_init, coi_init_of, ctx_has, ctx_nodes, ctx_wf, eval,
    lemma_eval_stable, scope_closed, sym_name_of, ctx_get_node, ctx_not, ctx_and, get_constraints,
    get_states, state_symbol_set, sys_closed, sys_constraints, sys_inputs, sys_states, IrNode,
    StateInfo,
};
use patronus::expr::Context;
use patronus::system::TransitionSystem;

verus! {

broadcast use vstd::seq_lib::group_to_multiset_ensures, vstd::multiset::lemma_multiset_empty_len;

/// The splitter can take the expression apart: a width-1 `and`, or a
/// width-1 `not` whose operand is a width-1 `or` (De Morgan).
pub open spec fn is_decomposable(ctx: Context, e: u32) -> bool {
    ctx_has(ctx, e) && match ctx_nodes(ctx)[e] {
        IrNode::And(_, _, w) => w == 1,
        IrNode::Not(a, w) => w == 1 && ctx_has(ctx, a) && match ctx_nodes(ctx)[a] {
            IrNode::Or(_, _, w2) => w2 == 1,
            _ => false,
        },
        _ => false,
    }
}

/// An atomic sub-constraint: a valid expression that the splitter's rules
/// cannot take apart.
pub open spec fn is_atomic(ctx: Context, e: u32) -> bool {
    ctx_has(ctx, e) && !is_decomposable(ctx, e)
}

/// `c2` holds every node of `c1` unchanged (the interning context only
/// grows, it never rewrites what a handle stands for).
pub open spec fn ctx_extends(c1: Context, c2: Context) -> bool {
    (forall|x: u32| #[trigger]
        ctx_nodes(c1).dom().contains(x) ==> ctx_nodes(c2).dom().contains(x) && ctx_nodes(c2)[x]
            == ctx_nodes(c1)[x] && bv_width_of(c2, x) == bv_width_of(c1, x)) && (forall|x: u32|
        #[trigger] sym_name_of(c2, x) == sym_name_of(c1, x))
}

/// Conjunction of a list of expressions under an interpretation.
pub open spec fn conj(ctx: Context, env: Map<u32, bool>, s: Seq<u32>) -> bool {
    forall|i: int| 0 <= i < s.len() ==> eval(ctx, env, #[trigger] s[i])
}

/// No `not(or(..))` node sits on the `and`-spine of `e`: splitting such an
/// expression takes the pure-`and` path and interns nothing new.
pub open spec fn notor_free(ctx: Context, e: u32) -> bool
    decreases e,
{
    if ctx_has(ctx, e) {
        match ctx_nodes(ctx)[e] {
            IrNode::And(a, b, w) => if w == 1 && a < e && b < e {
                notor_free(ctx, a) && notor_free(ctx, b)
            } else {
                true
            },
            IrNode::Not(a, w) => !(w == 1 && ctx_has(ctx, a) && match ctx_nodes(ctx)[a] {
                IrNode::Or(_, _, w2) => w2 == 1,
                _ => false,
            }),
            _ => true,
        }
    } else {
        true
    }
}

/// The multiset of leaves of the `and`-spine of `e`: what splitting yields
/// on a `not(or(..))`-free expression.
pub open spec fn atom_multiset(ctx: Context, e: u32) -> Multiset<u32>
    decreases e,
{
    if ctx_has(ctx, e) {
        match ctx_nodes(ctx)[e] {
            IrNode::And(a, b, w) => if w == 1 && a < e && b < e {
                atom_multiset(ctx, a).add(atom_multiset(ctx, b))
            } else {
                Multiset::empty().insert(e)
            },
            _ => Multiset::empty().insert(e),
        }
    } else {
        Multiset::empty().insert(e)
    }
}

/// Multiset union of `atom_multiset` over a worklist.
pub open spec fn atoms_of_seq(ctx: Context, s: Seq<u32>) -> Multiset<u32>
    decreases s.len(),
{
    if s.len() == 0 {
        Multiset::empty()
    } else {
        atoms_of_seq(ctx, s.drop_last()).add(atom_multiset(ctx, s.last()))
    }
}

/// Work left in a worklist entry `not(e)`: a De Morgan step on `not(or(..))`
/// spawns the negations of the `or`'s children.
pub open spec fn not_size(ctx: Context, e: u32) -> nat
    decreases e,
{
    if ctx_has(ctx, e) {
        match ctx_nodes(ctx)[e] {
            IrNode::Or(a, b, w) => if w == 1 && a < e && b < e {
                1 + not_size(ctx, a) + not_size(ctx, b)
            } else {
                1
            },
            _ => 1,
        }
    } else {
        1
    }
}

/// Work left in a worklist entry: the termination measure of the splitter.
pub open spec fn split_size(ctx: Context, e: u32) -> nat
    decreases e,
{
    if ctx_has(ctx, e) {
        match ctx_nodes(ctx)[e] {
            IrNode::And(a, b, w) => if w == 1 && a < e && b < e {
                1 + split_size(ctx, a) + split_size(ctx, b)
            } else {
                1
            },
            IrNode::Not(a, w) => if w == 1 && a < e {
                not_size(ctx, a)
            } else {
                1
            },
            _ => 1,
        }
    } else {
        1
    }
}

/// Total work left in a worklist.
pub open spec fn split_size_sum(ctx: Context, s: Seq<u32>) -> nat
    decreases s.len(),
{
    if s.len() == 0 {
        0
    } else {
        split_size_sum(ctx, s.drop_last()) + split_size(ctx, s.last())
    }
}

/// `not_size` survives interning further nodes.
proof fn lemma_not_size_stable(c1: Context, c2: Context, e: u32)
    requires
        ctx_wf(c1),
        ctx_extends(c1, c2),
        ctx_has(c1, e),
    ensures
        not_size(c2, e) == not_size(c1, e),
    decreases e,
{
    match ctx_nodes(c1)[e] {
        IrNode::Or(a, b, w) => {
            if w == 1 && a < e && b < e {
                lemma_not_size_stable(c1, c2, a);
                lemma_not_size_stable(c1, c2, b);
            }
        },
        _ => {},
    }
}

/// `split_size` survives interning further nodes.
proof fn lemma_split_size_stable(c1: Context, c2: Context, e: u32)
    requires
        ctx_wf(c1),
        ctx_extends(c1, c2),
        ctx_has(c1, e),
    ensures
        split_size(c2, e) == split_size(c1, e),
    decreases e,
{
    match ctx_nodes(c1)[e] {
        IrNode::And(a, b, w) => {
            if w == 1 && a < e && b < e {
                lemma_split_size_stable(c1, c2, a);
                lemma_split_size_stable(c1, c2, b);
            }
        },
        IrNode::Not(a, w) => {
            if w == 1 && a < e {
                lemma_not_size_stable(c1, c2, a);
            }
        },
        _ => {},
    }
}

/// `split_size_sum` survives interning further nodes.
proof fn lemma_split_size_sum_stable(c1: Context, c2: Context, s: Seq<u32>)
    requires
        ctx_wf(c1),
        ctx_extends(c1, c2),
        forall|i: int| 0 <= i < s.len() ==> ctx_has(c1, #[trigger] s[i]),
    ensures
        split_size_sum(c2, s) == split_size_sum(c1, s),
    decreases s.len(),
{
    if s.len() > 0 {
        lemma_split_size_sum_stable(c1, c2, s.drop_last());
        lemma_split_size_stable(c1, c2, s.last());
    }
}

/// `split_size_sum` over a push.
proof fn lemma_split_size_sum_snoc(ctx: Context, s: Seq<u32>, v: u32)
    ensures
        split_size_sum(ctx, s.push(v)) == split_size_sum(ctx, s) + split_size(ctx, v),
{
    let t = s.push(v);
    assert(t.drop_last() =~= s);
    assert(t.last() == v);
}

/// Interning one node (fresh, or already present with the same shape)
/// extends the context.
proof fn lemma_intern_extends(c1: Context, c2: Context, r: u32, n: IrNode, w: u32)
    requires
        ctx_wf(c1),
        ctx_nodes(c2) =~= ctx_nodes(c1).insert(r, n),
        ctx_has(c1, r) ==> ctx_nodes(c1)[r] == n,
        forall|x: u32| x != r ==> bv_width_of(c2, x) == bv_width_of(c1, x),
        bv_width_of(c2, r) == Some(w),
        (n matches IrNode::Not(_, w2) && w2 == w) || (n matches IrNode::And(_, _, w2) && w2 == w),
        forall|x: u32| sym_name_of(c2, x) == sym_name_of(c1, x),
    ensures
        ctx_extends(c1, c2),
{
    assert forall|x: u32| #[trigger]
        ctx_nodes(c1).dom().contains(x) implies ctx_nodes(c2).dom().contains(x) && ctx_nodes(c2)[x]
        == ctx_nodes(c1)[x] && bv_width_of(c2, x) == bv_width_of(c1, x) by {
        if x == r {
            assert(ctx_nodes(c1)[r] == n);
            assert(bv_width_of(c1, r) == Some(w));
        }
    }
}

/// Context extension is transitive.
proof fn lemma_extends_trans(c1: Context, c2: Context, c3: Context)
    requires
        ctx_extends(c1, c2),
        ctx_extends(c2, c3),
    ensures
        ctx_extends(c1, c3),
{
    assert forall|x: u32| #[trigger]
        ctx_nodes(c1).dom().contains(x) implies ctx_nodes(c3).dom().contains(x) && ctx_nodes(c3)[x]
        == ctx_nodes(c1)[x] && bv_width_of(c3, x) == bv_width_of(c1, x) by {
        assert(ctx_nodes(c2).dom().contains(x));
    }
}

/// Atomicity survives interning further nodes.
pub proof fn lemma_atomic_stable(c1: Context, c2: Context, e: u32)
    requires
        ctx_wf(c1),
        ctx_extends(c1, c2),
        is_atomic(c1, e),
    ensures
        is_atomic(c2, e),
{
}

/// `notor_free` survives interning further nodes.
pub proof fn lemma_notor_free_stable(c1: Context, c2: Context, e: u32)
    requires
        ctx_wf(c1),
        ctx_extends(c1, c2),
        ctx_has(c1, e),
        notor_free(c1, e),
    ensures
        notor_free(c2, e),
    decreases e,
{
    match ctx_nodes(c1)[e] {
        IrNode::And(a, b, w) => {
            if w == 1 && a < e && b < e {
                lemma_notor_free_stable(c1, c2, a);
                lemma_notor_free_stable(c1, c2, b);
            }
        },
        _ => {},
    }
}

/// The `and`-spine leaves survive interning further nodes.
pub proof fn lemma_atom_multiset_stable(c1: Context, c2: Context, e: u32)
    requires
        ctx_wf(c1),
        ctx_extends(c1, c2),
        ctx_has(c1, e),
    ensures
        atom_multiset(c2, e) == atom_multiset(c1, e),
    decreases e,
{
    match ctx_nodes(c1)[e] {
        IrNode::And(a, b, w) => {
            if w == 1 && a < e && b < e {
                lemma_atom_multiset_stable(c1, c2, a);
                lemma_atom_multiset_stable(c1, c2, b);
            }
        },
        _ => {},
    }
}

/// A conjunction over a worklist survives interning further nodes.
proof fn lemma_conj_stable(c1: Context, c2: Context, env: Map<u32, bool>, s: Seq<u32>)
    requires
        ctx_wf(c1),
        ctx_extends(c1, c2),
        forall|i: int| 0 <= i < s.len() ==> ctx_has(c1, #[trigger] s[i]),
    ensures
        conj(c2, env, s) == conj(c1, env, s),
{
    assert forall|i: int| 0 <= i < s.len() implies eval(c2, env, #[trigger] s[i]) == eval(
        c1,
        env,
        s[i],
    ) by {
        lemma_eval_stable(c1, c2, env, s[i]);
    }
}

/// Splits a 1-bit constraint into the list of atomic sub-constraints whose
/// conjunction is equivalent to it.
///
/// The contract carries the splitter's soundness: under every
/// interpretation, the conjunction of the returned atoms evaluates exactly
/// as the input expression does.  De Morgan steps intern fresh negations,
/// so the context may grow; every pre-existing node is left unchanged, and
/// every node added is a 1-bit negation of a pre-existing node.  On
/// an expression whose `and`-spine is free of `not(or(..))` nodes the
/// context does not change at all and the result is exactly the multiset of
/// spine leaves — which makes splitting idempotent: the atoms it returns
/// are themselves `not(or(..))`-free, so re-splitting their conjunction
/// (see `join_conjuncts`) returns the same multiset.
/// Every element of the list is a member of the set.
pub open spec fn all_in(s: Set<u32>, q: Seq<u32>) -> bool {
    forall|i: int| 0 <= i < q.len() ==> s.contains(#[trigger] q[i])
}

/// A set closed for a grown context is closed for the context it grew from.
proof fn lemma_scope_closed_shrink(c1: Context, c2: Context, s: Set<u32>)
    requires
        ctx_extends(c1, c2),
        scope_closed(c2, s),
    ensures
        scope_closed(c1, s),
{
    assert forall|x: u32|
        #[trigger] s.contains(x) && ctx_has(c1, x) implies match ctx_nodes(c1)[x] {
        IrNode::And(a, b, _) => s.contains(a) && s.contains(b),
        IrNode::Or(a, b, _) => s.contains(a) && s.contains(b),
        IrNode::Not(a, _) => s.contains(a),
        IrNode::Other => true,
    } by {
        assert(ctx_nodes(c1).dom().contains(x));
        assert(ctx_nodes(c2)[x] == ctx_nodes(c1)[x]);
    }
    assert forall|x: u32|
        ctx_has(c1, x) && ((#[trigger] ctx_nodes(c1)[x]) matches IrNode::Not(a, _) && s.contains(
            a,
        )) implies s.contains(x) by {
        assert(ctx_nodes(c1).dom().contains(x));
        assert(ctx_nodes(c2)[x] == ctx_nodes(c1)[x]);
        assert(ctx_has(c2, x));
    }
}

/// One-point equivalence carrier for the splitter's loop invariant: under
/// interpretation `env`, the worklist and the output together still mean
/// exactly the input expression.
pub open spec fn equiv_at(
    ctx: Context,
    env: Map<u32, bool>,
    todo: Seq<u32>,
    out: Seq<u32>,
    e: u32,
) -> bool {
    (conj(ctx, env, todo) && conj(ctx, env, out)) == eval(ctx, env, e)
}

pub fn split_conjunction(ctx: &mut Context, e: u32) -> (out: Vec<u32>)
    requires
        ctx_wf(*old(ctx)),
        ctx_has(*old(ctx), e),
        bv_width_of(*old(ctx), e) == Some(1u32),
    ensures
        ctx_wf(*final(ctx)),
        ctx_extends(*old(ctx), *final(ctx)),
        forall|i: int|
            0 <= i < out@.len() ==> is_atomic(*final(ctx), #[trigger] out@[i]) && bv_width_of(
                *final(ctx),
                out@[i],
            ) == Some(1u32),
        forall|env: Map<u32, bool>|
            #[trigger] conj(*final(ctx), env, out@) == eval(*final(ctx), env, e),
        forall|s: Set<u32>|
            #[trigger] scope_closed(*final(ctx), s) && s.contains(e) ==> all_in(s, out@),
        forall|sys: TransitionSystem|
            #[trigger] sys_closed(*old(ctx), sys) ==> sys_closed(*final(ctx), sys),
        forall|x: u32|
            ctx_has(*final(ctx), x) && !ctx_has(*old(ctx), x) ==> ((#[trigger] ctx_nodes(
                *final(ctx),
            )[x]) matches IrNode::Not(a, w) && w == 1 && ctx_has(*old(ctx), a)),
        notor_free(*old(ctx), e) ==> *final(ctx) == *old(ctx) && out@.to_multiset()
            == atom_multiset(*old(ctx), e),
{
    let ghost ctx0 = *ctx;
    let mut out: Vec<u32> = Vec::new();
    let mut todo: Vec<u32> = Vec::new();
    todo.push(e);
    proof {
        assert(todo@ =~= Seq::<u32>::empty().push(e));
        assert forall|s: Set<u32>|
            #[trigger] scope_closed(*ctx, s) && s.contains(e) implies all_in(s, todo@) && all_in(
            s,
            out@,
        ) by {
            assert(forall|i: int| 0 <= i < todo@.len() ==> todo@[i] == e);
        }
        assert forall|env: Map<u32, bool>| #[trigger] equiv_at(*ctx, env, todo@, out@, e) by {
            lemma_conj_snoc(*ctx, env, Seq::<u32>::empty(), e);
            assert(conj(*ctx, env, Seq::<u32>::empty()));
            assert(conj(*ctx, env, out@));
        }
        assert(todo@.drop_last() =~= Seq::<u32>::empty());
        assert(atoms_of_seq(*ctx, Seq::<u32>::empty()) == Multiset::<u32>::empty());
        assert(todo@.last() == e);
        assert(atoms_of_seq(*ctx, todo@) == Multiset::<u32>::empty().add(atom_multiset(*ctx, e)));
        assert(Multiset::<u32>::empty().add(atom_multiset(*ctx, e)) =~= atom_multiset(*ctx, e));
        assert(out@.to_multiset().len() == 0);
        assert(out@.to_multiset() =~= Multiset::<u32>::empty());
        assert(atoms_of_seq(*ctx, todo@).add(out@.to_multiset()) =~= atom_multiset(*ctx, e));
    }
    while todo.len() > 0
        invariant
            ctx_wf(ctx0),
            ctx_wf(*ctx),
            ctx_extends(ctx0, *ctx),
            ctx_has(ctx0, e),
            forall|i: int|
                0 <= i < todo@.len() ==> ctx_has(*ctx, #[trigger] todo@[i]) && bv_width_of(
                    *ctx,
                    todo@[i],
                ) == Some(1u32),
            forall|i: int|
                0 <= i < out@.len() ==> is_atomic(*ctx, #[trigger] out@[i]) && bv_width_of(
                    *ctx,
                    out@[i],
                ) == Some(1u32),
            forall|env: Map<u32, bool>| #[trigger] equiv_at(*ctx, env, todo@, out@, e),
            forall|s: Set<u32>|
                #[trigger] scope_closed(*ctx, s) && s.contains(e) ==> all_in(s, todo@) && all_in(
                    s,
                    out@,
                ),
            forall|sys: TransitionSystem|
                #[trigger] sys_closed(ctx0, sys) ==> sys_closed(*ctx, sys),
            forall|x: u32|
                ctx_has(*ctx, x) && !ctx_has(ctx0, x) ==> ((#[trigger] ctx_nodes(*ctx)[x]) matches
                    IrNode::Not(a, w) && w == 1 && ctx_has(ctx0, a)),
            forall|i: int|
                0 <= i < todo@.len() ==> ctx_has(ctx0, #[trigger] todo@[i]) || ((ctx_nodes(
                    *ctx,
                )[todo@[i]]) matches IrNode::Not(a, _) && ctx_has(ctx0, a)),
            notor_free(ctx0, e) ==> *ctx == ctx0 && (forall|i: int|
                0 <= i < todo@.len() ==> notor_free(ctx0, #[trigger] todo@[i])) && atoms_of_seq(
                ctx0,
                todo@,
            ).add(out@.to_multiset()) == atom_multiset(ctx0, e),
        decreases split_size_sum(*ctx, todo@),
    {
        let ghost c_entry = *ctx;
        let ghost pre_todo = todo@;
        let ghost pre_out = out@;
        let x = match todo.pop() {
            Some(x) => x,
            None => {
                proof {
                    assert(false);
                }
                0
            },
        };
        proof {
            assert(pre_todo.drop_last().push(x) =~= pre_todo);
        }
        let node = ctx_get_node(ctx, x);
        match node {
            IrNode::And(a, b, w) => {
                if w == 1 {
                    todo.push(b);
                    todo.push(a);
                    proof {
                        assert(pre_todo[pre_todo.len() - 1] == x);
                        assert(ctx_has(ctx0, x));
                        assert(ctx_nodes(ctx0)[x] == IrNode::And(a, b, w));
                        assert(ctx_has(ctx0, a) && ctx_has(ctx0, b));
                        assert forall|i: int|
                            0 <= i < todo@.len() implies ctx_has(ctx0, #[trigger] todo@[i]) || ((
                        ctx_nodes(*ctx)[todo@[i]]) matches IrNode::Not(na_, _) && ctx_has(
                            ctx0,
                            na_,
                        )) by {
                            if i < todo@.len() - 2 {
                                assert(todo@[i] == pre_todo[i]);
                            }
                        }
                        assert forall|s: Set<u32>|
                            #[trigger] scope_closed(*ctx, s) && s.contains(e) implies all_in(
                            s,
                            todo@,
                        ) && all_in(s, out@) by {
                            assert(all_in(s, pre_todo) && all_in(s, pre_out));
                            assert(s.contains(pre_todo[pre_todo.len() - 1]));
                            assert(s.contains(a) && s.contains(b));
                            assert(forall|i: int|
                                0 <= i < todo@.len() ==> s.contains(#[trigger] todo@[i]));
                        }
                        assert forall|env: Map<u32, bool>| #[trigger]
                            equiv_at(*ctx, env, todo@, out@, e) by {
                            assert(equiv_at(*ctx, env, pre_todo, pre_out, e));
                            assert(eval(*ctx, env, x) == (eval(*ctx, env, a) && eval(
                                *ctx,
                                env,
                                b,
                            )));
                            lemma_conj_two_pushes(*ctx, env, pre_todo, x, b, a);
                        }
                        if notor_free(ctx0, e) {
                            lemma_atoms_two_pushes(*ctx, pre_todo, x, b, a);
                        }
                        lemma_split_size_sum_snoc(*ctx, pre_todo.drop_last(), x);
                        lemma_split_size_sum_snoc(*ctx, pre_todo.drop_last(), b);
                        lemma_split_size_sum_snoc(*ctx, pre_todo.drop_last().push(b), a);
                        assert(split_size(*ctx, x) == 1 + split_size(*ctx, a) + split_size(
                            *ctx,
                            b,
                        ));
                    }
                } else {
                    out.push(x);
                    proof {
                        assert forall|s: Set<u32>|
                            #[trigger] scope_closed(*ctx, s) && s.contains(e) implies all_in(
                            s,
                            todo@,
                        ) && all_in(s, out@) by {
                            assert(all_in(s, pre_todo) && all_in(s, pre_out));
                            assert(s.contains(pre_todo[pre_todo.len() - 1]));
                            assert(forall|i: int|
                                0 <= i < todo@.len() ==> s.contains(#[trigger] todo@[i]));
                            assert(forall|i: int|
                                0 <= i < out@.len() ==> s.contains(#[trigger] out@[i]));
                        }
                        assert forall|env: Map<u32, bool>| #[trigger]
                            equiv_at(*ctx, env, todo@, out@, e) by {
                            assert(equiv_at(*ctx, env, pre_todo, pre_out, e));
                            lemma_conj_move_atom(*ctx, env, pre_todo, pre_out, x);
                        }
                        if notor_free(ctx0, e) {
                            lemma_atoms_move_atom(*ctx, pre_todo, pre_out, x);
                        }
                        lemma_split_size_sum_snoc(*ctx, pre_todo.drop_last(), x);
                        assert(split_size(*ctx, x) >= 1);
                    }
                }
            },
            IrNode::Not(inner, w) => {
                let mut handled = false;
                if w == 1 {
                    let inner_node = ctx_get_node(ctx, inner);
                    match inner_node {
                        IrNode::Or(a, b, w2) => {
                            if w2 == 1 {
                                handled = true;
                                let ghost c_before = *ctx;
                                let na = ctx_not(ctx, a);
                                let ghost c_mid = *ctx;
                                let nb = ctx_not(ctx, b);
                                todo.push(nb);
                                todo.push(na);
                                proof {
                                    split_notor_step(c_before, c_mid, *ctx, x, inner, a, b, na, nb);
                                    lemma_extends_trans(ctx0, c_before, *ctx);
                                    assert(pre_todo[pre_todo.len() - 1] == x);
                                    assert(ctx_has(ctx0, inner)) by {
                                        if ctx_has(ctx0, x) {
                                            assert(ctx_nodes(ctx0)[x] == IrNode::Not(inner, 1u32));
                                        }
                                    }
                                    assert(ctx_nodes(ctx0)[inner] == IrNode::Or(a, b, 1u32));
                                    assert(ctx_has(ctx0, a) && ctx_has(ctx0, b));
                                    assert forall|y: u32|
                                        ctx_has(*ctx, y) && !ctx_has(ctx0, y) implies ((
                                    #[trigger] ctx_nodes(*ctx)[y]) matches IrNode::Not(na_, w_)
                                        && w_ == 1 && ctx_has(ctx0, na_)) by {
                                        if y == na {
                                            assert(ctx_nodes(*ctx)[na] == IrNode::Not(a, 1u32));
                                        } else if y == nb {
                                            assert(ctx_nodes(*ctx)[nb] == IrNode::Not(b, 1u32));
                                        } else {
                                            assert(ctx_has(c_before, y));
                                            assert(ctx_nodes(*ctx)[y] == ctx_nodes(c_before)[y]);
                                        }
                                    }
                                    assert forall|i: int|
                                        0 <= i < todo@.len() implies ctx_has(
                                        ctx0,
                                        #[trigger] todo@[i],
                                    ) || ((ctx_nodes(*ctx)[todo@[i]]) matches IrNode::Not(na_, _)
                                        && ctx_has(ctx0, na_)) by {
                                        if i < todo@.len() - 2 {
                                            assert(todo@[i] == pre_todo[i]);
                                            if !ctx_has(ctx0, pre_todo[i]) {
                                                assert(ctx_has(c_before, pre_todo[i]));
                                                assert(ctx_nodes(*ctx)[pre_todo[i]] == ctx_nodes(
                                                    c_before,
                                                )[pre_todo[i]]);
                                            }
                                        } else if i == todo@.len() - 2 {
                                            assert(todo@[i] == nb);
                                            assert(ctx_nodes(*ctx)[nb] == IrNode::Not(b, 1u32));
                                        } else {
                                            assert(todo@[i] == na);
                                            assert(ctx_nodes(*ctx)[na] == IrNode::Not(a, 1u32));
                                        }
                                    }
                                    assert forall|s: Set<u32>|
                                        #[trigger] scope_closed(*ctx, s) && s.contains(
                                        e,
                                    ) implies all_in(s, todo@) && all_in(s, out@) by {
                                        lemma_scope_closed_shrink(c_before, *ctx, s);
                                        assert(scope_closed(c_before, s));
                                        assert(all_in(s, pre_todo) && all_in(s, pre_out));
                                        assert(s.contains(pre_todo[pre_todo.len() - 1]));
                                        assert(s.contains(inner));
                                        assert(s.contains(a) && s.contains(b));
                                        assert(ctx_has(*ctx, na) && ctx_nodes(*ctx)[na]
                                            == IrNode::Not(a, 1u32));
                                        assert(s.contains(na));
                                        assert(ctx_has(*ctx, nb) && ctx_nodes(*ctx)[nb]
                                            == IrNode::Not(b, 1u32));
                                        assert(s.contains(nb));
                                        assert(forall|i: int|
                                            0 <= i < todo@.len() ==> s.contains(
                                                #[trigger] todo@[i],
                                            ));
                                    }
                                    assert forall|env: Map<u32, bool>| #[trigger]
                                        equiv_at(*ctx, env, todo@, out@, e) by {
                                        assert(equiv_at(c_before, env, pre_todo, pre_out, e));
                                        lemma_conj_stable(c_before, *ctx, env, pre_todo);
                                        lemma_conj_stable(c_before, *ctx, env, pre_out);
                                        lemma_eval_stable(c_before, *ctx, env, e);
                                        assert(eval(*ctx, env, na) == !eval(*ctx, env, a));
                                        assert(eval(*ctx, env, nb) == !eval(*ctx, env, b));
                                        assert(eval(*ctx, env, x) == !(eval(*ctx, env, a) || eval(
                                            *ctx,
                                            env,
                                            b,
                                        )));
                                        lemma_conj_two_pushes(*ctx, env, pre_todo, x, nb, na);
                                    }
                                    assert forall|i: int|
                                        0 <= i < out@.len() implies is_atomic(
                                        *ctx,
                                        #[trigger] out@[i],
                                    ) && bv_width_of(*ctx, out@[i]) == Some(1u32) by {
                                        lemma_atomic_stable(c_before, *ctx, out@[i]);
                                    }
                                    if notor_free(ctx0, e) {
                                        assert(notor_free(ctx0, x));
                                        assert(false);
                                    }
                                    lemma_split_size_sum_snoc(c_before, pre_todo.drop_last(), x);
                                    assert(split_size(c_before, x) == not_size(c_before, inner));
                                    assert(not_size(c_before, inner) == 1 + not_size(c_before, a)
                                        + not_size(c_before, b));
                                    lemma_split_size_sum_stable(
                                        c_before,
                                        *ctx,
                                        pre_todo.drop_last(),
                                    );
                                    lemma_split_size_sum_snoc(*ctx, pre_todo.drop_last(), nb);
                                    lemma_split_size_sum_snoc(
                                        *ctx,
                                        pre_todo.drop_last().push(nb),
                                        na,
                                    );
                                    assert(split_size(*ctx, nb) == not_size(*ctx, b));
                                    assert(split_size(*ctx, na) == not_size(*ctx, a));
                                    lemma_not_size_stable(c_before, *ctx, b);
                                    lemma_not_size_stable(c_before, *ctx, a);
                                }
                            }
                        },
                        _ => {},
                    }
                }
                if !handled {
                    out.push(x);
                    proof {
                        assert(is_atomic(*ctx, x));
                        assert forall|s: Set<u32>|
                            #[trigger] scope_closed(*ctx, s) && s.contains(e) implies all_in(
                            s,
                            todo@,
                        ) && all_in(s, out@) by {
                            assert(all_in(s, pre_todo) && all_in(s, pre_out));
                            assert(s.contains(pre_todo[pre_todo.len() - 1]));
                            assert(forall|i: int|
                                0 <= i < todo@.len() ==> s.contains(#[trigger] todo@[i]));
                            assert(forall|i: int|
                                0 <= i < out@.len() ==> s.contains(#[trigger] out@[i]));
                        }
                        assert forall|env: Map<u32, bool>| #[trigger]
                            equiv_at(*ctx, env, todo@, out@, e) by {
                            assert(equiv_at(*ctx, env, pre_todo, pre_out, e));
                            lemma_conj_move_atom(*ctx, env, pre_todo, pre_out, x);
                        }
                        if notor_free(ctx0, e) {
                            lemma_atoms_move_atom(*ctx, pre_todo, pre_out, x);
                        }
                        lemma_split_size_sum_snoc(*ctx, pre_todo.drop_last(), x);
                        assert(split_size(*ctx, x) >= 1);
                    }
                }
            },
            _ => {
                out.push(x);
                proof {
                    assert forall|s: Set<u32>|
                        #[trigger] scope_closed(*ctx, s) && s.contains(e) implies all_in(
                        s,
                        todo@,
                    ) && all_in(s, out@) by {
                        assert(all_in(s, pre_todo) && all_in(s, pre_out));
                        assert(s.contains(pre_todo[pre_todo.len() - 1]));
                        assert(forall|i: int|
                            0 <= i < todo@.len() ==> s.contains(#[trigger] todo@[i]));
                        assert(forall|i: int|
                            0 <= i < out@.len() ==> s.contains(#[trigger] out@[i]));
                    }
                    assert forall|env: Map<u32, bool>| #[trigger]
                        equiv_at(*ctx, env, todo@, out@, e) by {
                        assert(equiv_at(*ctx, env, pre_todo, pre_out, e));
                        lemma_conj_move_atom(*ctx, env, pre_todo, pre_out, x);
                    }
                    if notor_free(ctx0, e) {
                        lemma_atoms_move_atom(*ctx, pre_todo, pre_out, x);
                    }
                    lemma_split_size_sum_snoc(*ctx, pre_todo.drop_last(), x);
                    assert(split_size(*ctx, x) >= 1);
                }
            },
        }
    }
    proof {
        assert(todo@ =~= Seq::<u32>::empty());
        assert forall|env: Map<u32, bool>|
            #[trigger] conj(*ctx, env, out@) == eval(*ctx, env, e) by {
            assert(equiv_at(*ctx, env, todo@, out@, e));
            assert(conj(*ctx, env, todo@));
        }
        assert forall|s: Set<u32>|
            #[trigger] scope_closed(*ctx, s) && s.contains(e) implies all_in(s, out@) by {}
        if notor_free(ctx0, e) {
            assert(atoms_of_seq(ctx0, todo@) == Multiset::<u32>::empty());
            assert(Multiset::<u32>::empty().add(out@.to_multiset()) =~= out@.to_multiset());
        }
    }
    out
}

/// Popping `x` and pushing `b` then `a` keeps the conjunction of the
/// worklist unchanged when `eval(x) == eval(a) && eval(b)`.
proof fn lemma_conj_two_pushes(ctx: Context, env: Map<u32, bool>, pre: Seq<u32>, x: u32, b: u32, a: u32)
    requires
        pre.len() > 0,
        pre.last() == x,
        eval(ctx, env, x) == (eval(ctx, env, a) && eval(ctx, env, b)),
    ensures
        conj(ctx, env, pre.drop_last().push(b).push(a)) == conj(ctx, env, pre),
{
    let rest = pre.drop_last();
    let post = rest.push(b).push(a);
    assert(conj(ctx, env, pre) == (conj(ctx, env, rest) && eval(ctx, env, x))) by {
        lemma_conj_snoc(ctx, env, rest, x);
        assert(rest.push(x) =~= pre);
    }
    lemma_conj_snoc(ctx, env, rest, b);
    lemma_conj_snoc(ctx, env, rest.push(b), a);
}

/// `conj` over `s.push(v)` is `conj(s) && eval(v)`.
proof fn lemma_conj_snoc(ctx: Context, env: Map<u32, bool>, s: Seq<u32>, v: u32)
    ensures
        conj(ctx, env, s.push(v)) == (conj(ctx, env, s) && eval(ctx, env, v)),
{
    let t = s.push(v);
    if conj(ctx, env, t) {
        assert forall|i: int| 0 <= i < s.len() implies eval(ctx, env, #[trigger] s[i]) by {
            assert(t[i] == s[i]);
            assert(eval(ctx, env, t[i]));
        }
        assert(eval(ctx, env, t[s.len() as int]));
    } else {
        if conj(ctx, env, s) && eval(ctx, env, v) {
            assert forall|i: int| 0 <= i < t.len() implies eval(ctx, env, #[trigger] t[i]) by {
                if i < s.len() {
                    assert(t[i] == s[i]);
                    assert(eval(ctx, env, s[i]));
                } else {
                    assert(t[i] == v);
                }
            }
            assert(conj(ctx, env, t));
        }
    }
}

/// Moving an atom from the worklist to the output keeps the combined
/// conjunction unchanged.
proof fn lemma_conj_move_atom(
    ctx: Context,
    env: Map<u32, bool>,
    pre_todo: Seq<u32>,
    pre_out: Seq<u32>,
    x: u32,
)
    requires
        pre_todo.len() > 0,
        pre_todo.last() == x,
    ensures
        (conj(ctx, env, pre_todo.drop_last()) && conj(ctx, env, pre_out.push(x))) == (conj(
            ctx,
            env,
            pre_todo,
        ) && conj(ctx, env, pre_out)),
{
    lemma_conj_snoc(ctx, env, pre_todo.drop_last(), x);
    assert(pre_todo.drop_last().push(x) =~= pre_todo);
    lemma_conj_snoc(ctx, env, pre_out, x);
}

/// `atoms_of_seq` over a push.
proof fn lemma_atoms_snoc(ctx: Context, s: Seq<u32>, v: u32)
    ensures
        atoms_of_seq(ctx, s.push(v)) == atoms_of_seq(ctx, s).add(atom_multiset(ctx, v)),
{
    let t = s.push(v);
    assert(t.drop_last() =~= s);
    assert(t.last() == v);
}

/// Popping a width-1 `and` and pushing its children keeps the worklist's
/// atom multiset unchanged.
proof fn lemma_atoms_two_pushes(ctx: Context, pre: Seq<u32>, x: u32, b: u32, a: u32)
    requires
        pre.len() > 0,
        pre.last() == x,
        atom_multiset(ctx, x) == atom_multiset(ctx, a).add(atom_multiset(ctx, b)),
    ensures
        atoms_of_seq(ctx, pre.drop_last().push(b).push(a)) == atoms_of_seq(ctx, pre),
{
    let rest = pre.drop_last();
    lemma_atoms_snoc(ctx, rest, b);
    lemma_atoms_snoc(ctx, rest.push(b), a);
    assert(rest.push(x) =~= pre);
    lemma_atoms_snoc(ctx, rest, x);
    assert(atoms_of_seq(ctx, rest).add(atom_multiset(ctx, b)).add(atom_multiset(ctx, a))
        =~= atoms_of_seq(ctx, rest).add(atom_multiset(ctx, a).add(atom_multiset(ctx, b))));
}

/// Moving an atom from the worklist to the output keeps the combined atom
/// multiset unchanged.
proof fn lemma_atoms_move_atom(ctx: Context, pre_todo: Seq<u32>, pre_out: Seq<u32>, x: u32)
    requires
        pre_todo.len() > 0,
        pre_todo.last() == x,
        atom_multiset(ctx, x) == Multiset::<u32>::empty().insert(x),
    ensures
        atoms_of_seq(ctx, pre_todo.drop_last()).add(pre_out.push(x).to_multiset()) == atoms_of_seq(
            ctx,
            pre_todo,
        ).add(pre_out.to_multiset()),
{
    let rest = pre_todo.drop_last();
    assert(rest.push(x) =~= pre_todo);
    lemma_atoms_snoc(ctx, rest, x);
    assert(pre_out.push(x).to_multiset() =~= pre_out.to_multiset().insert(x));
    assert(atoms_of_seq(ctx, rest).add(Multiset::<u32>::empty().insert(x)).add(
        pre_out.to_multiset(),
    ) =~= atoms_of_seq(ctx, rest).add(pre_out.to_multiset().insert(x)));
}

/// The interning steps of a De Morgan split: after negating both children
/// of the inner `or`, the negations are valid width-1 nodes that evaluate
/// to the negations of the children, and everything older is untouched.
proof fn split_notor_step(
    c0: Context,
    c1: Context,
    c2: Context,
    x: u32,
    inner: u32,
    a: u32,
    b: u32,
    na: u32,
    nb: u32,
)
    requires
        ctx_wf(c0),
        ctx_wf(c1),
        ctx_wf(c2),
        ctx_has(c0, x),
        ctx_nodes(c0)[x] == IrNode::Not(inner, 1u32),
        ctx_has(c0, inner),
        ctx_nodes(c0)[inner] == IrNode::Or(a, b, 1u32),
        ctx_nodes(c1) =~= ctx_nodes(c0).insert(na, IrNode::Not(a, 1u32)),
        a < na,
        ctx_has(c0, na) ==> ctx_nodes(c0)[na] == IrNode::Not(a, 1u32),
        forall|y: u32| y != na ==> bv_width_of(c1, y) == bv_width_of(c0, y),
        bv_width_of(c1, na) == Some(1u32),
        forall|y: u32| sym_name_of(c1, y) == sym_name_of(c0, y),
        ctx_nodes(c2) =~= ctx_nodes(c1).insert(nb, IrNode::Not(b, 1u32)),
        b < nb,
        ctx_has(c1, nb) ==> ctx_nodes(c1)[nb] == IrNode::Not(b, 1u32),
        forall|y: u32| y != nb ==> bv_width_of(c2, y) == bv_width_of(c1, y),
        bv_width_of(c2, nb) == Some(1u32),
        forall|y: u32| sym_name_of(c2, y) == sym_name_of(c1, y),
    ensures
        ctx_extends(c0, c1),
        ctx_extends(c1, c2),
        ctx_extends(c0, c2),
        ctx_has(c2, na) && ctx_nodes(c2)[na] == IrNode::Not(a, 1u32),
        ctx_has(c2, nb) && ctx_nodes(c2)[nb] == IrNode::Not(b, 1u32),
        bv_width_of(c2, na) == Some(1u32),
        bv_width_of(c2, nb) == Some(1u32),
        forall|env: Map<u32, bool>| #[trigger] eval(c2, env, na) == !eval(c2, env, a),
        forall|env: Map<u32, bool>| #[trigger] eval(c2, env, nb) == !eval(c2, env, b),
        forall|env: Map<u32, bool>|
            #[trigger] eval(c2, env, x) == !(eval(c2, env, a) || eval(c2, env, b)),
{
    assert(ctx_nodes(c0).dom().contains(x));
    assert(ctx_nodes(c0).dom().contains(inner));
    assert(inner < x && a < inner && b < inner);
    assert(bv_width_of(c0, a) == Some(1u32) && bv_width_of(c0, b) == Some(1u32));
    lemma_intern_extends(c0, c1, na, IrNode::Not(a, 1u32), 1u32);
    lemma_intern_extends(c1, c2, nb, IrNode::Not(b, 1u32), 1u32);
    lemma_extends_trans(c0, c1, c2);
    assert(ctx_nodes(c1)[na] == IrNode::Not(a, 1u32));
    assert(ctx_nodes(c1).dom().contains(na));
    assert(ctx_nodes(c2)[na] == IrNode::Not(a, 1u32));
    assert(ctx_nodes(c2)[nb] == IrNode::Not(b, 1u32));
    assert(ctx_has(c2, x));
    assert(ctx_nodes(c2)[x] == IrNode::Not(inner, 1u32));
    assert(ctx_nodes(c2)[inner] == IrNode::Or(a, b, 1u32));
    assert(bv_width_of(c2, na) == Some(1u32));
    assert(bv_width_of(c2, nb) == Some(1u32));
    assert forall|env: Map<u32, bool>| #[trigger] eval(c2, env, na) == !eval(c2, env, a) by {
        assert(a < na);
    }
    assert forall|env: Map<u32, bool>| #[trigger] eval(c2, env, nb) == !eval(c2, env, b) by {
        assert(b < nb);
    }
    assert forall|env: Map<u32, bool>| #[trigger]
        eval(c2, env, x) == !(eval(c2, env, a) || eval(c2, env, b)) by {
        assert(eval(c2, env, x) == !eval(c2, env, inner));
        assert(eval(c2, env, inner) == (eval(c2, env, a) || eval(c2, env, b)));
    }
}

/// Joins a non-empty list of 1-bit expressions into their conjunction,
/// folding `and` nodes from the left.
///
/// Together with `split_conjunction`'s contract this states the splitter's
/// idempotence: when the parts are atoms (as every output of the splitter
/// is), the joined expression is `not(or(..))`-free and its `and`-spine
/// leaves are exactly the given parts, so splitting it again returns the
/// same multiset of atoms.
pub fn join_conjuncts(ctx: &mut Context, parts: &Vec<u32>) -> (j: u32)
    requires
        ctx_wf(*old(ctx)),
        parts@.len() >= 1,
        forall|i: int|
            0 <= i < parts@.len() ==> ctx_has(*old(ctx), #[trigger] parts@[i]) && bv_width_of(
                *old(ctx),
                parts@[i],
            ) == Some(1u32),
    ensures
        ctx_wf(*final(ctx)),
        ctx_extends(*old(ctx), *final(ctx)),
        ctx_has(*final(ctx), j),
        bv_width_of(*final(ctx), j) == Some(1u32),
        forall|env: Map<u32, bool>|
            #[trigger] eval(*final(ctx), env, j) == conj(*final(ctx), env, parts@),
        forall|sys: TransitionSystem|
            #[trigger] sys_closed(*old(ctx), sys) ==> sys_closed(*final(ctx), sys),
        (forall|i: int| 0 <= i < parts@.len() ==> is_atomic(*old(ctx), #[trigger] parts@[i]))
            ==> notor_free(*final(ctx), j) && atom_multiset(*final(ctx), j)
            == parts@.to_multiset(),
{
    let ghost ctx0 = *ctx;
    let ghost all_atomic = forall|i: int|
        0 <= i < parts@.len() ==> is_atomic(ctx0, #[trigger] parts@[i]);
    let mut j = parts[0];
    let mut k: usize = 1;
    proof {
        assert(parts@.take(1) =~= seq![parts@[0]]);
        assert forall|env: Map<u32, bool>|
            #[trigger] eval(*ctx, env, j) == conj(*ctx, env, parts@.take(1)) by {
            lemma_conj_snoc(*ctx, env, Seq::empty(), parts@[0]);
            assert(Seq::<u32>::empty().push(parts@[0]) =~= parts@.take(1));
            assert(conj(*ctx, env, Seq::<u32>::empty()));
        }
        if all_atomic {
            assert(parts@.take(1).to_multiset() =~= Multiset::<u32>::empty().insert(parts@[0]));
            assert(atom_multiset(*ctx, j) == Multiset::<u32>::empty().insert(j));
            assert(notor_free(*ctx, j));
        }
    }
    while k < parts.len()
        invariant
            1 <= k as int <= parts@.len(),
            ctx_wf(ctx0),
            ctx_wf(*ctx),
            ctx_extends(ctx0, *ctx),
            forall|i: int|
                0 <= i < parts@.len() ==> ctx_has(ctx0, #[trigger] parts@[i]) && bv_width_of(
                    ctx0,
                    parts@[i],
                ) == Some(1u32),
            all_atomic == (forall|i: int|
                0 <= i < parts@.len() ==> is_atomic(ctx0, #[trigger] parts@[i])),
            ctx_has(*ctx, j),
            bv_width_of(*ctx, j) == Some(1u32),
            forall|env: Map<u32, bool>|
                #[trigger] eval(*ctx, env, j) == conj(*ctx, env, parts@.take(k as int)),
            all_atomic ==> notor_free(*ctx, j) && atom_multiset(*ctx, j) == parts@.take(
                k as int,
            ).to_multiset(),
            forall|sys: TransitionSystem|
                #[trigger] sys_closed(ctx0, sys) ==> sys_closed(*ctx, sys),
        decreases parts@.len() - k as int,
    {
        let ghost c_before = *ctx;
        let ghost j_before = j;
        let p = parts[k];
        let next = ctx_and(ctx, j, p);
        proof {
            lemma_intern_extends(c_before, *ctx, next, IrNode::And(j_before, p, 1u32), 1u32);
            lemma_extends_trans(ctx0, c_before, *ctx);
            assert(ctx_nodes(*ctx)[next] == IrNode::And(j_before, p, 1u32));
            assert(parts@.take(k as int + 1) =~= parts@.take(k as int).push(p));
            assert forall|env: Map<u32, bool>|
                #[trigger] eval(*ctx, env, next) == conj(*ctx, env, parts@.take(k as int + 1)) by {
                lemma_eval_stable(c_before, *ctx, env, j_before);
                lemma_conj_stable(c_before, *ctx, env, parts@.take(k as int));
                lemma_conj_snoc(*ctx, env, parts@.take(k as int), p);
            }
            if all_atomic {
                lemma_notor_free_stable(c_before, *ctx, j_before);
                lemma_atom_multiset_stable(c_before, *ctx, j_before);
                lemma_atomic_stable(ctx0, *ctx, p);
                assert(atom_multiset(*ctx, p) == Multiset::<u32>::empty().insert(p));
                assert(notor_free(*ctx, p));
                assert(notor_free(*ctx, next));
                assert(atom_multiset(*ctx, next) == atom_multiset(*ctx, j_before).add(
                    atom_multiset(*ctx, p),
                ));
                assert(parts@.take(k as int).to_multiset().add(
                    Multiset::<u32>::empty().insert(p),
                ) =~= parts@.take(k as int).to_multiset().insert(p));
                assert(parts@.take(k as int + 1).to_multiset() =~= parts@.take(
                    k as int,
                ).to_multiset().insert(p));
            }
        }
        j = next;
        k = k + 1;
    }
    proof {
        assert(parts@.take(parts@.len() as int) =~= parts@);
    }
    j
}

} // verus!
// The cluster machinery: an undirected multigraph over free symbols (a node
// list and an edge list), connected components via union-find, and the
// `ConstraintCluster` product type.

verus! {

/// Strictly ascending: sorted with no duplicates.
pub open spec fn strictly_sorted(s: Seq<u32>) -> bool {
    forall|i: int, j: int| 0 <= i < j < s.len() ==> s[i] < s[j]
}

/// Whether `x` occurs in `v`.
fn vec_contains(v: &Vec<u32>, x: u32) -> (r: bool)
    ensures
        r == v@.contains(x),
{
    let mut i: usize = 0;
    while i < v.len()
        invariant
            i <= v.len(),
            forall|j: int| 0 <= j < i ==> v@[j] != x,
        decreases v.len() - i,
    {
        if v[i] == x {
            return true;
        }
        i = i + 1;
    }
    false
}

/// The index of `x` in `v`, if present.
fn index_of(v: &Vec<u32>, x: u32) -> (r: Option<usize>)
    ensures
        match r {
            Some(i) => i < v@.len() && v@[i as int] == x,
            None => !v@.contains(x),
        },
{
    let mut i: usize = 0;
    while i < v.len()
        invariant
            i <= v.len(),
            forall|j: int| 0 <= j < i ==> v@[j] != x,
        decreases v.len() - i,
    {
        if v[i] == x {
            return Some(i);
        }
        i = i + 1;
    }
    None
}

/// Membership in a pushed sequence.
proof fn lemma_push_contains(s: Seq<u32>, v: u32, y: u32)
    ensures
        s.push(v).contains(y) <==> (s.contains(y) || y == v),
{
    let t = s.push(v);
    if t.contains(y) {
        let q = choose|q: int| 0 <= q < t.len() && t[q] == y;
        if q < s.len() {
            assert(s[q] == y);
        }
    }
    if s.contains(y) {
        let q = choose|q: int| 0 <= q < s.len() && s[q] == y;
        assert(t[q] == y);
    }
    if y == v {
        assert(t[s.len() as int] == y);
    }
}

/// Membership in an inserted sequence.
proof fn lemma_insert_contains(s: Seq<u32>, j: int, v: u32, y: u32)
    requires
        0 <= j <= s.len(),
    ensures
        s.insert(j, v).contains(y) <==> (s.contains(y) || y == v),
{
    let t = s.insert(j, v);
    assert(t.len() == s.len() + 1);
    assert(forall|q: int| 0 <= q < j ==> t[q] == s[q]);
    assert(t[j] == v);
    assert(forall|q: int| j < q < t.len() ==> t[q] == s[q - 1]);
    if t.contains(y) {
        let q = choose|q: int| 0 <= q < t.len() && t[q] == y;
        if q < j {
            assert(s[q] == y);
        } else if q > j {
            assert(s[q - 1] == y);
        }
    }
    if s.contains(y) {
        let q = choose|q: int| 0 <= q < s.len() && s[q] == y;
        if q < j {
            assert(t[q] == y);
        } else {
            assert(t[q + 1] == y);
        }
    }
    assert(t[j] == v);
}

/// Sorts and deduplicates: the result is strictly ascending and holds
/// exactly the values of the input.
pub fn sort_dedup(v: &Vec<u32>) -> (r: Vec<u32>)
    ensures
        strictly_sorted(r@),
        forall|x: u32| r@.contains(x) <==> v@.contains(x),
{
    let mut out: Vec<u32> = Vec::new();
    let mut i: usize = 0;
    while i < v.len()
        invariant
            i <= v.len(),
            strictly_sorted(out@),
            forall|x: u32| out@.contains(x) <==> v@.take(i as int).contains(x),
        decreases v.len() - i,
    {
        let ghost pre = out@;
        let x = v[i];
        let mut j: usize = 0;
        while j < out.len() && out[j] < x
            invariant
                j <= out.len(),
                forall|q: int| 0 <= q < j ==> out@[q] < x,
            decreases out.len() - j,
        {
            j = j + 1;
        }
        if j == out.len() {
            out.push(x);
            proof {
                assert forall|y: u32| out@.contains(y) <==> (pre.contains(y) || y == x) by {
                    lemma_push_contains(pre, x, y);
                }
            }
        } else if out[j] > x {
            out.insert(j, x);
            proof {
                assert forall|y: u32| out@.contains(y) <==> (pre.contains(y) || y == x) by {
                    lemma_insert_contains(pre, j as int, x, y);
                }
                assert forall|q1: int, q2: int|
                    0 <= q1 < q2 < out@.len() implies out@[q1] < out@[q2] by {
                    if q2 < j {
                        assert(out@[q1] == pre[q1] && out@[q2] == pre[q2]);
                    } else if q1 < j && q2 == j {
                        assert(out@[q1] == pre[q1] && out@[q2] == x);
                    } else if q1 < j && q2 > j {
                        assert(out@[q1] == pre[q1] && out@[q2] == pre[q2 - 1]);
                        if j < q2 - 1 {
                            assert(pre[j as int] < pre[q2 - 1]);
                        }
                        assert(x < pre[j as int] || j as int == q2 - 1);
                    } else if q1 == j {
                        assert(out@[q1] == x && out@[q2] == pre[q2 - 1]);
                        assert(pre[j as int] <= pre[q2 - 1]);
                    } else {
                        assert(out@[q1] == pre[q1 - 1] && out@[q2] == pre[q2 - 1]);
                    }
                }
            }
        } else {
            proof {
                assert(out@[j as int] == x);
                assert(out@.contains(x));
                assert(forall|y: u32| out@.contains(y) <==> (pre.contains(y) || y == x));
            }
        }
        proof {
            assert(v@.take(i as int + 1) =~= v@.take(i as int).push(x));
            assert forall|y: u32|
                out@.contains(y) <==> v@.take(i as int + 1).contains(y) by {
                lemma_push_contains(v@.take(i as int), x, y);
                assert(pre.contains(y) <==> v@.take(i as int).contains(y));
                assert(out@.contains(y) <==> (pre.contains(y) || y == x));
            }
        }
        i = i + 1;
    }
    proof {
        assert(v@.take(v@.len() as int) =~= v@);
    }
    out
}

/// A set of atomic constraints connected by common free symbols, with the
/// state and input symbols in the union of their supports.  Each list is
/// sorted and duplicate-free.
#[derive(Debug, Clone, Default)]
pub struct ConstraintCluster {
    exprs: Vec<u32>,
    states: Vec<u32>,
    inputs: Vec<u32>,
}

impl ConstraintCluster {
    /// The atomic constraint expressions of this cluster.
    pub closed spec fn exprs_seq(&self) -> Seq<u32> {
        self.exprs@
    }

    /// The state symbols in the supports of the cluster's constraints.
    pub closed spec fn states_seq(&self) -> Seq<u32> {
        self.states@
    }

    /// The input symbols in the supports of the cluster's constraints.
    pub closed spec fn inputs_seq(&self) -> Seq<u32> {
        self.inputs@
    }

    /// Builds a cluster; each list is sorted and deduplicated.
    pub fn new(exprs: Vec<u32>, states: Vec<u32>, inputs: Vec<u32>) -> (r: Self)
        ensures
            strictly_sorted(r.exprs_seq()),
            strictly_sorted(r.states_seq()),
            strictly_sorted(r.inputs_seq()),
            forall|x: u32| r.exprs_seq().contains(x) <==> exprs@.contains(x),
            forall|x: u32| r.states_seq().contains(x) <==> states@.contains(x),
            forall|x: u32| r.inputs_seq().contains(x) <==> inputs@.contains(x),
    {
        ConstraintCluster {
            exprs: sort_dedup(&exprs),
            states: sort_dedup(&states),
            inputs: sort_dedup(&inputs),
        }
    }

    /// The cluster's constraint expressions.
    pub fn exprs(&self) -> (r: &Vec<u32>)
        ensures
            r@ == self.exprs_seq(),
    {
        &self.exprs
    }

    /// The cluster's input symbols.
    pub fn inputs(&self) -> (r: &Vec<u32>)
        ensures
            r@ == self.inputs_seq(),
    {
        &self.inputs
    }
}

/// Union-find well-formedness: every parent pointer goes downward.
pub open spec fn uf_wf(p: Seq<usize>) -> bool {
    forall|i: int| 0 <= i < p.len() ==> #[trigger] p[i] <= i
}

/// The representative of `i`: follow parent pointers to the fixpoint.
pub open spec fn uf_root(p: Seq<usize>, i: int) -> int
    decreases i,
{
    if 0 <= i < p.len() && p[i] < i {
        uf_root(p, p[i] as int)
    } else {
        i
    }
}

/// A root maps to itself and stays in range.
proof fn lemma_uf_root_props(p: Seq<usize>, i: int)
    requires
        uf_wf(p),
        0 <= i < p.len(),
    ensures
        0 <= uf_root(p, i) <= i,
        p[uf_root(p, i)] == uf_root(p, i),
    decreases i,
{
    if p[i] < i {
        lemma_uf_root_props(p, p[i] as int);
    }
}

fn uf_find(p: &Vec<usize>, i: usize) -> (r: usize)
    requires
        uf_wf(p@),
        i < p@.len(),
    ensures
        r as int == uf_root(p@, i as int),
        r <= i,
        p@[r as int] == r,
{
    let mut j = i;
    while p[j] != j
        invariant
            uf_wf(p@),
            j < p@.len(),
            j <= i,
            uf_root(p@, j as int) == uf_root(p@, i as int),
        decreases j,
    {
        j = p[j];
    }
    proof {
        lemma_uf_root_props(p@, i as int);
    }
    j
}

/// Linking the root `m` below the smaller root `n` redirects exactly the
/// class of `m` to `n` and leaves every other class where it was.
proof fn lemma_link_root(p: Seq<usize>, m: int, n: int, x: int)
    requires
        uf_wf(p),
        0 <= n < m < p.len(),
        p[m] == m,
        p[n] == n,
        0 <= x < p.len(),
    ensures
        uf_root(p.update(m, n as usize), x) == (if uf_root(p, x) == m {
            n
        } else {
            uf_root(p, x)
        }),
    decreases x,
{
    let q = p.update(m, n as usize);
    if x < m {
        if p[x] < x {
            lemma_link_root(p, m, n, p[x] as int);
        }
    } else if x == m {
        assert(q[m] == n);
        lemma_link_root(p, m, n, n);
        assert(uf_root(p, n) == n);
    } else {
        if p[x] < x {
            lemma_link_root(p, m, n, p[x] as int);
        } else {
            assert(uf_root(p, x) == x);
            assert(uf_root(q, x) == x);
        }
    }
}

/// Merges the classes of `a` and `b`; the larger root is linked below the
/// smaller, so parent pointers keep going downward.  Classes never split:
/// the new representative map sends the displaced root to the surviving one
/// and is the identity elsewhere.
fn uf_union(p: &mut Vec<usize>, a: usize, b: usize)
    requires
        uf_wf(old(p)@),
        a < old(p)@.len(),
        b < old(p)@.len(),
    ensures
        final(p)@.len() == old(p)@.len(),
        uf_wf(final(p)@),
        forall|x: int|
            0 <= x < old(p)@.len() ==> #[trigger] uf_root(final(p)@, x) == (if uf_root(
                old(p)@,
                x,
            ) == max_int(uf_root(old(p)@, a as int), uf_root(old(p)@, b as int)) {
                min_int(uf_root(old(p)@, a as int), uf_root(old(p)@, b as int))
            } else {
                uf_root(old(p)@, x)
            }),
{
    let ra = uf_find(p, a);
    let rb = uf_find(p, b);
    let ghost p0 = p@;
    if ra < rb {
        p.set(rb, ra);
        proof {
            assert(p@ =~= p0.update(rb as int, ra));
            assert forall|x: int| 0 <= x < p0.len() implies #[trigger] uf_root(p@, x) == (
            if uf_root(p0, x) == rb as int {
                ra as int
            } else {
                uf_root(p0, x)
            }) by {
                lemma_link_root(p0, rb as int, ra as int, x);
            }
        }
    } else if rb < ra {
        p.set(ra, rb);
        proof {
            assert(p@ =~= p0.update(ra as int, rb));
            assert forall|x: int| 0 <= x < p0.len() implies #[trigger] uf_root(p@, x) == (
            if uf_root(p0, x) == ra as int {
                rb as int
            } else {
                uf_root(p0, x)
            }) by {
                lemma_link_root(p0, ra as int, rb as int, x);
            }
        }
    }
}

/// The larger of two values.
pub open spec fn max_int(a: int, b: int) -> int {
    if a >= b {
        a
    } else {
        b
    }
}

/// The smaller of two values.
pub open spec fn min_int(a: int, b: int) -> int {
    if a <= b {
        a
    } else {
        b
    }
}

} // verus!
// Constraint graph and cluster extraction.

verus! {

/// The filtered support of an atomic constraint: the free-symbol leaves of
/// its cone of influence; in non-init mode state symbols are dropped, since
/// steady-state sampling cannot re-choose states.
pub open spec fn atom_leaves(ctx: Context, sys: TransitionSystem, a: u32, init: bool) -> Set<u32> {
    Set::new(
        |l: u32|
            (if init {
                coi_init_of(ctx, sys, a)
            } else {
                coi_comb_of(ctx, sys, a)
            }).contains(l) && (init || !state_symbol_set(sys).contains(l)),
    )
}

/// Every edge endpoint is a node whose symbol lies in the support of the
/// edge's constraint, and every edge weight is one of the atoms.
pub open spec fn edges_wf(
    ctx: Context,
    sys: TransitionSystem,
    init: bool,
    atoms: Seq<u32>,
    nodes: Seq<u32>,
    edges: Seq<(usize, usize, u32)>,
) -> bool {
    forall|t: int|
        0 <= t < edges.len() ==> (#[trigger] edges[t]).0 < nodes.len() && edges[t].1 < nodes.len()
            && atoms.contains(edges[t].2) && atom_leaves(ctx, sys, edges[t].2, init).contains(
            nodes[edges[t].0 as int],
        ) && atom_leaves(ctx, sys, edges[t].2, init).contains(nodes[edges[t].1 as int])
}

/// There is an edge weighted `a` between the nodes carrying `l1` and `l2`.
pub open spec fn has_edge(
    nodes: Seq<u32>,
    edges: Seq<(usize, usize, u32)>,
    a: u32,
    l1: u32,
    l2: u32,
) -> bool {
    exists|t: int|
        0 <= t < edges.len() && (#[trigger] edges[t]).2 == a && ((nodes[edges[t].0 as int] == l1
            && nodes[edges[t].1 as int] == l2) || (nodes[edges[t].0 as int] == l2
            && nodes[edges[t].1 as int] == l1))
}

/// Node `i` carries a self-loop.
pub open spec fn has_self_loop(edges: Seq<(usize, usize, u32)>, i: int) -> bool {
    exists|t: int| 0 <= t < edges.len() && (#[trigger] edges[t]).0 == i && edges[t].1 == i
}

/// The first `upto` nodes carry self-loops.
pub open spec fn self_loops_upto(
    nodes: Seq<u32>,
    edges: Seq<(usize, usize, u32)>,
    upto: int,
) -> bool {
    forall|i: int| 0 <= i < upto && i < nodes.len() ==> #[trigger] has_self_loop(edges, i)
}

/// The support of `a` forms a clique (with self-loops) in the graph.
pub open spec fn atom_clique(
    ctx: Context,
    sys: TransitionSystem,
    init: bool,
    nodes: Seq<u32>,
    edges: Seq<(usize, usize, u32)>,
    a: u32,
) -> bool {
    forall|l1: u32, l2: u32|
        atom_leaves(ctx, sys, a, init).contains(l1) && atom_leaves(ctx, sys, a, init).contains(l2)
            ==> #[trigger] has_edge(nodes, edges, a, l1, l2)
}

/// An edge of `edges1` is still an edge of `edges2` when `edges2` extends
/// `edges1` and the node list only grew.
proof fn lemma_has_edge_extend(
    nodes1: Seq<u32>,
    nodes2: Seq<u32>,
    edges1: Seq<(usize, usize, u32)>,
    edges2: Seq<(usize, usize, u32)>,
    a: u32,
    l1: u32,
    l2: u32,
)
    requires
        has_edge(nodes1, edges1, a, l1, l2),
        forall|t: int|
            0 <= t < edges1.len() ==> (#[trigger] edges1[t]).0 < nodes1.len() && edges1[t].1
                < nodes1.len(),
        nodes2.len() >= nodes1.len(),
        forall|i: int| 0 <= i < nodes1.len() ==> nodes2[i] == nodes1[i],
        edges2.len() >= edges1.len(),
        forall|t: int| 0 <= t < edges1.len() ==> edges2[t] == edges1[t],
    ensures
        has_edge(nodes2, edges2, a, l1, l2),
{
    let t = choose|t: int|
        0 <= t < edges1.len() && (#[trigger] edges1[t]).2 == a && ((nodes1[edges1[t].0 as int]
            == l1 && nodes1[edges1[t].1 as int] == l2) || (nodes1[edges1[t].0 as int] == l2
            && nodes1[edges1[t].1 as int] == l1));
    assert(edges2[t] == edges1[t]);
    assert(nodes2[edges2[t].0 as int] == nodes1[edges1[t].0 as int]);
    assert(nodes2[edges2[t].1 as int] == nodes1[edges1[t].1 as int]);
}

/// A self-loop survives extension of the edge list.
proof fn lemma_self_loop_extend(
    edges1: Seq<(usize, usize, u32)>,
    edges2: Seq<(usize, usize, u32)>,
    i: int,
)
    requires
        has_self_loop(edges1, i),
        edges2.len() >= edges1.len(),
        forall|t: int| 0 <= t < edges1.len() ==> edges2[t] == edges1[t],
    ensures
        has_self_loop(edges2, i),
{
    let t = choose|t: int| 0 <= t < edges1.len() && (#[trigger] edges1[t]).0 == i && edges1[t].1 == i;
    assert(edges2[t] == edges1[t]);
}

/// `has_edge` is symmetric in its two symbols.
proof fn lemma_has_edge_sym(
    nodes: Seq<u32>,
    edges: Seq<(usize, usize, u32)>,
    a: u32,
    l1: u32,
    l2: u32,
)
    requires
        has_edge(nodes, edges, a, l1, l2),
    ensures
        has_edge(nodes, edges, a, l2, l1),
{
    let t = choose|t: int|
        0 <= t < edges.len() && (#[trigger] edges[t]).2 == a && ((nodes[edges[t].0 as int] == l1
            && nodes[edges[t].1 as int] == l2) || (nodes[edges[t].0 as int] == l2
            && nodes[edges[t].1 as int] == l1));
    assert(0 <= t < edges.len() && edges[t].2 == a);
}

/// All graph facts survive appending nodes and edges.
proof fn lemma_graph_extend(
    ctx: Context,
    sys: TransitionSystem,
    init: bool,
    atoms: Seq<u32>,
    upto_atoms: int,
    nodes1: Seq<u32>,
    nodes2: Seq<u32>,
    edges1: Seq<(usize, usize, u32)>,
    edges2: Seq<(usize, usize, u32)>,
    upto_loops: int,
)
    requires
        edges_wf(ctx, sys, init, atoms, nodes1, edges1),
        self_loops_upto(nodes1, edges1, upto_loops),
        upto_loops <= nodes1.len(),
        0 <= upto_atoms <= atoms.len(),
        forall|i: int|
            0 <= i < upto_atoms ==> atom_clique(ctx, sys, init, nodes1, edges1, #[trigger] atoms[i]),
        nodes2.len() >= nodes1.len(),
        forall|i: int| 0 <= i < nodes1.len() ==> nodes2[i] == nodes1[i],
        edges2.len() >= edges1.len(),
        forall|t: int| 0 <= t < edges1.len() ==> edges2[t] == edges1[t],
        forall|t: int|
            edges1.len() <= t < edges2.len() ==> (#[trigger] edges2[t]).0 < nodes2.len()
                && edges2[t].1 < nodes2.len() && atoms.contains(edges2[t].2) && atom_leaves(
                ctx,
                sys,
                edges2[t].2,
                init,
            ).contains(nodes2[edges2[t].0 as int]) && atom_leaves(ctx, sys, edges2[t].2,
            init).contains(nodes2[edges2[t].1 as int]),
    ensures
        edges_wf(ctx, sys, init, atoms, nodes2, edges2),
        self_loops_upto(nodes2, edges2, upto_loops),
        forall|i: int|
            0 <= i < upto_atoms ==> atom_clique(ctx, sys, init, nodes2, edges2, #[trigger] atoms[i]),
{
    assert forall|t: int|
        0 <= t < edges2.len() implies (#[trigger] edges2[t]).0 < nodes2.len() && edges2[t].1
        < nodes2.len() && atoms.contains(edges2[t].2) && atom_leaves(ctx, sys, edges2[t].2,
    init).contains(nodes2[edges2[t].0 as int]) && atom_leaves(ctx, sys, edges2[t].2,
    init).contains(nodes2[edges2[t].1 as int]) by {
        if t < edges1.len() {
            assert(edges2[t] == edges1[t]);
            assert(nodes2[edges1[t].0 as int] == nodes1[edges1[t].0 as int]);
            assert(nodes2[edges1[t].1 as int] == nodes1[edges1[t].1 as int]);
        }
    }
    assert forall|i: int|
        0 <= i < upto_loops && i < nodes2.len() implies #[trigger] has_self_loop(edges2, i) by {
        lemma_self_loop_extend(edges1, edges2, i);
    }
    assert forall|i: int|
        0 <= i < upto_atoms implies atom_clique(ctx, sys, init, nodes2, edges2, #[trigger] atoms[i]) by {
        assert forall|l1: u32, l2: u32|
            atom_leaves(ctx, sys, atoms[i], init).contains(l1) && atom_leaves(
                ctx,
                sys,
                atoms[i],
                init,
            ).contains(l2) implies #[trigger] has_edge(nodes2, edges2, atoms[i], l1, l2) by {
            assert(has_edge(nodes1, edges1, atoms[i], l1, l2));
            lemma_has_edge_extend(nodes1, nodes2, edges1, edges2, atoms[i], l1, l2);
        }
    }
}

} // verus!
verus! {

/// The state symbols of the system, as a plain list.
fn state_symbols(sys: &TransitionSystem) -> (r: Vec<u32>)
    ensures
        forall|y: u32| r@.contains(y) <==> state_symbol_set(*sys).contains(y),
{
    let infos = get_states(sys);
    let mut out: Vec<u32> = Vec::new();
    let mut i: usize = 0;
    while i < infos.len()
        invariant
            i <= infos@.len(),
            infos@ == sys_states(*sys),
            forall|y: u32|
                out@.contains(y) <==> exists|q: int|
                    0 <= q < i && (#[trigger] sys_states(*sys)[q]).symbol == y,
        decreases infos.len() - i,
    {
        let ghost pre = out@;
        out.push(infos[i].symbol);
        proof {
            assert forall|y: u32|
                out@.contains(y) <==> exists|q: int|
                    0 <= q < i + 1 && (#[trigger] sys_states(*sys)[q]).symbol == y by {
                lemma_push_contains(pre, infos@[i as int].symbol, y);
                if pre.contains(y) {
                    let q = choose|q: int|
                        0 <= q < i && (#[trigger] sys_states(*sys)[q]).symbol == y;
                    assert(0 <= q < i + 1 && sys_states(*sys)[q].symbol == y);
                }
                if y == infos@[i as int].symbol {
                    assert(sys_states(*sys)[i as int].symbol == y);
                }
            }
        }
        i = i + 1;
    }
    proof {
        assert forall|y: u32| out@.contains(y) <==> state_symbol_set(*sys).contains(y) by {
            if state_symbol_set(*sys).contains(y) {
                let q = choose|q: int|
                    0 <= q < sys_states(*sys).len() && (#[trigger] sys_states(*sys)[q]).symbol
                        == y;
            }
        }
    }
    out
}

/// The sorted, deduplicated, filtered support of one atomic constraint.
fn atom_leaf_list(
    ctx: &Context,
    sys: &TransitionSystem,
    a: u32,
    init: bool,
    state_syms: &Vec<u32>,
) -> (r: Vec<u32>)
    requires
        ctx_wf(*ctx),
        sys_closed(*ctx, *sys),
        ctx_has(*ctx, a),
        forall|y: u32| state_syms@.contains(y) <==> state_symbol_set(*sys).contains(y),
    ensures
        strictly_sorted(r@),
        forall|y: u32| r@.contains(y) <==> atom_leaves(*ctx, *sys, a, init).contains(y),
        forall|y: u32|
            #[trigger] atom_leaves(*ctx, *sys, a, init).contains(y) ==> state_symbol_set(
                *sys,
            ).contains(y) || sys_inputs(*sys).contains(y),
{
    let raw = if init {
        coi_init(ctx, sys, a)
    } else {
        coi_comb(ctx, sys, a)
    };
    let mut kept: Vec<u32> = Vec::new();
    let mut i: usize = 0;
    while i < raw.len()
        invariant
            i <= raw@.len(),
            raw@ == (if init {
                coi_init_of(*ctx, *sys, a)
            } else {
                coi_comb_of(*ctx, *sys, a)
            }),
            forall|y: u32| state_syms@.contains(y) <==> state_symbol_set(*sys).contains(y),
            forall|y: u32|
                kept@.contains(y) <==> (raw@.take(i as int).contains(y) && (init
                    || !state_symbol_set(*sys).contains(y))),
        decreases raw.len() - i,
    {
        let ghost pre = kept@;
        let l = raw[i];
        let keep = if init {
            true
        } else {
            !vec_contains(state_syms, l)
        };
        if keep {
            kept.push(l);
        }
        proof {
            assert(raw@.take(i as int + 1) =~= raw@.take(i as int).push(l));
            assert forall|y: u32|
                kept@.contains(y) <==> (raw@.take(i as int + 1).contains(y) && (init
                    || !state_symbol_set(*sys).contains(y))) by {
                lemma_push_contains(raw@.take(i as int), l, y);
                if keep {
                    lemma_push_contains(pre, l, y);
                }
            }
        }
        i = i + 1;
    }
    proof {
        assert(raw@.take(raw@.len() as int) =~= raw@);
        assert forall|y: u32|
            #[trigger] atom_leaves(*ctx, *sys, a, init).contains(y) implies state_symbol_set(
            *sys,
        ).contains(y) || sys_inputs(*sys).contains(y) by {
            assert(raw@.contains(y));
            let q = choose|q: int| 0 <= q < raw@.len() && raw@[q] == y;
        }
    }
    sort_dedup(&kept)
}

/// Builds the constraint graph: one node per free symbol in the filtered
/// support of some atom, and for each atom a clique over its support plus a
/// self-loop on each of its symbols.
fn build_graph(ctx: &Context, sys: &TransitionSystem, atoms: &Vec<u32>, init: bool) -> (r: (
    Vec<u32>,
    Vec<(usize, usize, u32)>,
))
    requires
        ctx_wf(*ctx),
        sys_closed(*ctx, *sys),
        forall|i: int| 0 <= i < atoms@.len() ==> ctx_has(*ctx, #[trigger] atoms@[i]),
    ensures
        forall|i: int, j: int| 0 <= i < j < r.0@.len() ==> r.0@[i] != r.0@[j],
        edges_wf(*ctx, *sys, init, atoms@, r.0@, r.1@),
        self_loops_upto(r.0@, r.1@, r.0@.len() as int),
        forall|i: int|
            0 <= i < atoms@.len() ==> atom_clique(
                *ctx,
                *sys,
                init,
                r.0@,
                r.1@,
                #[trigger] atoms@[i],
            ),
        forall|i: int, l: u32|
            0 <= i < atoms@.len() && #[trigger] atom_leaves(*ctx, *sys, atoms@[i], init).contains(
                l,
            ) ==> state_symbol_set(*sys).contains(l) || sys_inputs(*sys).contains(l),
{
    let state_syms = state_symbols(sys);
    let mut nodes: Vec<u32> = Vec::new();
    let mut edges: Vec<(usize, usize, u32)> = Vec::new();
    let mut ai: usize = 0;
    while ai < atoms.len()
        invariant
            ai <= atoms@.len(),
            ctx_wf(*ctx),
            sys_closed(*ctx, *sys),
            forall|i: int| 0 <= i < atoms@.len() ==> ctx_has(*ctx, #[trigger] atoms@[i]),
            forall|y: u32| state_syms@.contains(y) <==> state_symbol_set(*sys).contains(y),
            forall|i: int, j: int| 0 <= i < j < nodes@.len() ==> nodes@[i] != nodes@[j],
            edges_wf(*ctx, *sys, init, atoms@, nodes@, edges@),
            self_loops_upto(nodes@, edges@, nodes@.len() as int),
            forall|i: int|
                0 <= i < ai ==> atom_clique(*ctx, *sys, init, nodes@, edges@, #[trigger] atoms@[i]),
            forall|i: int, l: u32|
                0 <= i < ai && #[trigger] atom_leaves(*ctx, *sys, atoms@[i], init).contains(l)
                    ==> state_symbol_set(*sys).contains(l) || sys_inputs(*sys).contains(l),
        decreases atoms.len() - ai,
    {
        let a = atoms[ai];
        let leaves = atom_leaf_list(ctx, sys, a, init, &state_syms);
        // make sure every leaf is a node
        let ghost nodes_before = nodes@;
        let ghost edges_before = edges@;
        let mut li: usize = 0;
        while li < leaves.len()
            invariant
                li <= leaves@.len(),
                forall|i: int, j: int| 0 <= i < j < nodes@.len() ==> nodes@[i] != nodes@[j],
                nodes@.len() >= nodes_before.len(),
                forall|i: int| 0 <= i < nodes_before.len() ==> nodes@[i] == nodes_before[i],
                forall|q: int| 0 <= q < li ==> nodes@.contains(#[trigger] leaves@[q]),
                forall|i: int|
                    nodes_before.len() <= i < nodes@.len() ==> leaves@.contains(
                        #[trigger] nodes@[i],
                    ),
            decreases leaves.len() - li,
        {
            let l = leaves[li];
            if !vec_contains(&nodes, l) {
                let ghost pre = nodes@;
                nodes.push(l);
                proof {
                    assert forall|i: int, j: int|
                        0 <= i < j < nodes@.len() implies nodes@[i] != nodes@[j] by {
                        if j == nodes@.len() - 1 {
                            assert(!pre.contains(nodes@[j]));
                            assert(pre[i] == nodes@[i]);
                        }
                    }
                    assert(nodes@[nodes@.len() - 1] == l);
                    assert forall|q: int|
                        0 <= q <= li implies nodes@.contains(#[trigger] leaves@[q]) by {
                        if q < li {
                            let w = choose|w: int| 0 <= w < pre.len() && #[trigger] pre[w] == leaves@[q];
                            assert(nodes@[w] == leaves@[q]);
                        }
                    }
                }
            } else {
                proof {
                    assert forall|q: int|
                        0 <= q <= li implies nodes@.contains(#[trigger] leaves@[q]) by {}
                }
            }
            li = li + 1;
        }
        proof {
            lemma_graph_extend(
                *ctx,
                *sys,
                init,
                atoms@,
                ai as int,
                nodes_before,
                nodes@,
                edges_before,
                edges@,
                nodes_before.len() as int,
            );
        }
        // add the clique and self-loop edges for this atom
        let mut remaining = leaves;
        let ghost leaves_seq = remaining@;
        let ghost nodes_fixed = nodes@;
        while remaining.len() > 0
            invariant
                ctx_wf(*ctx),
                forall|i: int| 0 <= i < atoms@.len() ==> ctx_has(*ctx, #[trigger] atoms@[i]),
                forall|i: int, j: int| 0 <= i < j < nodes@.len() ==> nodes@[i] != nodes@[j],
                ai < atoms@.len(),
                a == atoms@[ai as int],
                nodes@ == nodes_fixed,
                nodes@.len() >= nodes_before.len(),
                forall|q: int|
                    0 <= q < remaining@.len() ==> #[trigger] leaves_seq.contains(remaining@[q]),
                forall|y: u32|
                    leaves_seq.contains(y) <==> atom_leaves(*ctx, *sys, a, init).contains(y),
                forall|y: u32| leaves_seq.contains(y) ==> nodes@.contains(y),
                forall|i: int|
                    nodes_before.len() <= i < nodes@.len() ==> leaves_seq.contains(
                        #[trigger] nodes@[i],
                    ),
                edges_wf(*ctx, *sys, init, atoms@, nodes@, edges@),
                self_loops_upto(nodes@, edges@, nodes_before.len() as int),
                forall|i: int|
                    0 <= i < ai ==> atom_clique(
                        *ctx,
                        *sys,
                        init,
                        nodes@,
                        edges@,
                        #[trigger] atoms@[i],
                    ),
                forall|l1: u32, l2: u32|
                    leaves_seq.contains(l1) && leaves_seq.contains(l2) ==> ((remaining@.contains(l1)
                        && remaining@.contains(l2)) || #[trigger] has_edge(
                        nodes@,
                        edges@,
                        a,
                        l1,
                        l2,
                    )),
                forall|i: int|
                    0 <= i < nodes@.len() && leaves_seq.contains(nodes@[i])
                        && !remaining@.contains(#[trigger] nodes@[i]) ==> has_self_loop(edges@, i),
            decreases remaining.len(),
        {
            let ghost pre_rem = remaining@;
            let leaf = match remaining.pop() {
                Some(l) => l,
                None => {
                    proof {
                        assert(false);
                    }
                    0
                },
            };
            proof {
                assert(leaves_seq.contains(leaf)) by {
                    assert(pre_rem[pre_rem.len() - 1] == leaf);
                }
            }
            let li = match index_of(&nodes, leaf) {
                Some(i) => i,
                None => {
                    proof {
                        assert(nodes@.contains(leaf));
                        assert(false);
                    }
                    0
                },
            };
            // connect to every leaf not yet processed
            let mut oi: usize = 0;
            while oi < remaining.len()
                invariant
                    oi <= remaining@.len(),
                    ctx_wf(*ctx),
                    forall|i: int| 0 <= i < atoms@.len() ==> ctx_has(*ctx, #[trigger] atoms@[i]),
                    forall|i: int, j: int| 0 <= i < j < nodes@.len() ==> nodes@[i] != nodes@[j],
                    li < nodes@.len(),
                    nodes@[li as int] == leaf,
                    ai < atoms@.len(),
                    a == atoms@[ai as int],
                    nodes@ == nodes_fixed,
                    nodes@.len() >= nodes_before.len(),
                    atom_leaves(*ctx, *sys, a, init).contains(leaf),
                    forall|q: int|
                        0 <= q < remaining@.len() ==> #[trigger] leaves_seq.contains(remaining@[q]),
                    forall|y: u32|
                        leaves_seq.contains(y) <==> atom_leaves(*ctx, *sys, a, init).contains(y),
                    forall|y: u32| leaves_seq.contains(y) ==> nodes@.contains(y),
                    forall|i: int|
                        nodes_before.len() <= i < nodes@.len() ==> leaves_seq.contains(
                            #[trigger] nodes@[i],
                        ),
                    edges_wf(*ctx, *sys, init, atoms@, nodes@, edges@),
                    self_loops_upto(nodes@, edges@, nodes_before.len() as int),
                    forall|i: int|
                        0 <= i < ai ==> atom_clique(
                            *ctx,
                            *sys,
                            init,
                            nodes@,
                            edges@,
                            #[trigger] atoms@[i],
                        ),
                    forall|l1: u32, l2: u32|
                        leaves_seq.contains(l1) && leaves_seq.contains(l2) ==> ((
                        pre_rem.contains(l1) && pre_rem.contains(l2)) || #[trigger] has_edge(
                            nodes@,
                            edges@,
                            a,
                            l1,
                            l2,
                        )),
                    forall|q: int|
                        0 <= q < oi ==> #[trigger] has_edge(
                            nodes@,
                            edges@,
                            a,
                            leaf,
                            remaining@[q],
                        ),
                    forall|i: int|
                        0 <= i < nodes@.len() && leaves_seq.contains(nodes@[i])
                            && !pre_rem.contains(#[trigger] nodes@[i]) ==> has_self_loop(
                            edges@,
                            i,
                        ),
                decreases remaining.len() - oi,
            {
                let other = remaining[oi];
                let otheri = match index_of(&nodes, other) {
                    Some(i) => i,
                    None => {
                        proof {
                            assert(leaves_seq.contains(remaining@[oi as int]));
                            assert(nodes@.contains(other));
                            assert(false);
                        }
                        0
                    },
                };
                let ghost pe = edges@;
                edges.push((li, otheri, a));
                proof {
                    assert(atoms@.contains(a)) by {
                        assert(atoms@[ai as int] == a);
                    }
                    assert(edges@[edges@.len() - 1] == (li, otheri, a));
                    assert(atom_leaves(*ctx, *sys, a, init).contains(nodes@[otheri as int])) by {
                        assert(leaves_seq.contains(remaining@[oi as int]));
                    }
                    assert(atom_leaves(*ctx, *sys, a, init).contains(nodes@[li as int]));
                    lemma_graph_extend(
                        *ctx,
                        *sys,
                        init,
                        atoms@,
                        ai as int,
                        nodes@,
                        nodes@,
                        pe,
                        edges@,
                        nodes_before.len() as int,
                    );
                    assert forall|l1: u32, l2: u32|
                        leaves_seq.contains(l1) && leaves_seq.contains(l2) && !(pre_rem.contains(l1)
                            && pre_rem.contains(l2)) implies #[trigger] has_edge(
                        nodes@,
                        edges@,
                        a,
                        l1,
                        l2,
                    ) by {
                        lemma_has_edge_extend(nodes@, nodes@, pe, edges@, a, l1, l2);
                    }
                    assert forall|q: int|
                        0 <= q <= oi implies #[trigger] has_edge(
                        nodes@,
                        edges@,
                        a,
                        leaf,
                        remaining@[q],
                    ) by {
                        if q == oi {
                            assert(edges@[edges@.len() - 1] == (li, otheri, a));
                            assert(nodes@[edges@[edges@.len() - 1].0 as int] == leaf);
                            assert(nodes@[edges@[edges@.len() - 1].1 as int] == remaining@[q]);
                        } else {
                            lemma_has_edge_extend(nodes@, nodes@, pe, edges@, a, leaf, remaining@[q]);
                        }
                    }
                    assert forall|i: int|
                        0 <= i < nodes@.len() && leaves_seq.contains(nodes@[i])
                            && !pre_rem.contains(#[trigger] nodes@[i]) implies has_self_loop(
                        edges@,
                        i,
                    ) by {
                        lemma_self_loop_extend(pe, edges@, i);
                    }
                }
                oi = oi + 1;
            }
            // the self-loop
            let ghost pe = edges@;
            edges.push((li, li, a));
            proof {
                assert(atoms@.contains(a)) by {
                    assert(atoms@[ai as int] == a);
                }
                assert(edges@[edges@.len() - 1] == (li, li, a));
                assert(atom_leaves(*ctx, *sys, a, init).contains(nodes@[li as int]));
                lemma_graph_extend(
                    *ctx,
                    *sys,
                    init,
                    atoms@,
                    ai as int,
                    nodes@,
                    nodes@,
                    pe,
                    edges@,
                    nodes_before.len() as int,
                );
                assert(edges@[edges@.len() - 1] == (li, li, a));
                assert(has_self_loop(edges@, li as int));
                assert(has_edge(nodes@, edges@, a, leaf, leaf)) by {
                    assert(nodes@[edges@[edges@.len() - 1].0 as int] == leaf);
                }
                assert forall|l1: u32, l2: u32|
                    leaves_seq.contains(l1) && leaves_seq.contains(l2) && !(remaining@.contains(l1)
                        && remaining@.contains(l2)) implies #[trigger] has_edge(
                    nodes@,
                    edges@,
                    a,
                    l1,
                    l2,
                ) by {
                    if pre_rem.contains(l1) && pre_rem.contains(l2) {
                        // at least one of the two is the popped leaf
                        if l1 == leaf && l2 == leaf {
                        } else if l1 == leaf {
                            assert(remaining@.contains(l2)) by {
                                let q = choose|q: int|
                                    0 <= q < pre_rem.len() && #[trigger] pre_rem[q] == l2;
                                assert(q < pre_rem.len() - 1);
                                assert(remaining@[q] == l2);
                            }
                            let q = choose|q: int|
                                0 <= q < remaining@.len() && #[trigger] remaining@[q] == l2;
                            assert(has_edge(nodes@, pe, a, leaf, remaining@[q]));
                            lemma_has_edge_extend(nodes@, nodes@, pe, edges@, a, leaf, l2);
                        } else if l2 == leaf {
                            assert(remaining@.contains(l1)) by {
                                let q = choose|q: int|
                                    0 <= q < pre_rem.len() && #[trigger] pre_rem[q] == l1;
                                assert(q < pre_rem.len() - 1);
                                assert(remaining@[q] == l1);
                            }
                            let q = choose|q: int|
                                0 <= q < remaining@.len() && #[trigger] remaining@[q] == l1;
                            assert(has_edge(nodes@, pe, a, leaf, remaining@[q]));
                            lemma_has_edge_extend(nodes@, nodes@, pe, edges@, a, leaf, l1);
                            lemma_has_edge_sym(nodes@, edges@, a, leaf, l1);
                        } else {
                            assert(remaining@.contains(l1)) by {
                                let q = choose|q: int|
                                    0 <= q < pre_rem.len() && #[trigger] pre_rem[q] == l1;
                                assert(q < pre_rem.len() - 1);
                                assert(remaining@[q] == l1);
                            }
                            assert(remaining@.contains(l2)) by {
                                let q = choose|q: int|
                                    0 <= q < pre_rem.len() && #[trigger] pre_rem[q] == l2;
                                assert(q < pre_rem.len() - 1);
                                assert(remaining@[q] == l2);
                            }
                            assert(false);
                        }
                    } else {
                        lemma_has_edge_extend(nodes@, nodes@, pe, edges@, a, l1, l2);
                    }
                }
                assert forall|i: int|
                    0 <= i < nodes@.len() && leaves_seq.contains(nodes@[i])
                        && !remaining@.contains(#[trigger] nodes@[i]) implies has_self_loop(
                    edges@,
                    i,
                ) by {
                    if nodes@[i] == leaf {
                        assert(i == li as int);
                    } else {
                        assert(!pre_rem.contains(nodes@[i])) by {
                            if pre_rem.contains(nodes@[i]) {
                                let q = choose|q: int|
                                    0 <= q < pre_rem.len() && #[trigger] pre_rem[q] == nodes@[i];
                                assert(q < pre_rem.len() - 1);
                                assert(remaining@[q] == nodes@[i]);
                            }
                        }
                        lemma_self_loop_extend(pe, edges@, i);
                    }
                }
            }
        }
        proof {
            assert forall|i: int|
                0 <= i <= ai implies atom_clique(
                *ctx,
                *sys,
                init,
                nodes@,
                edges@,
                #[trigger] atoms@[i],
            ) by {
                if i == ai {
                    assert forall|l1: u32, l2: u32|
                        atom_leaves(*ctx, *sys, a, init).contains(l1) && atom_leaves(
                            *ctx,
                            *sys,
                            a,
                            init,
                        ).contains(l2) implies #[trigger] has_edge(nodes@, edges@, a, l1, l2) by {
                        assert(leaves_seq.contains(l1) && leaves_seq.contains(l2));
                        assert(!Seq::<u32>::empty().contains(l1));
                    }
                }
            }
            assert forall|i: int|
                0 <= i < nodes@.len() implies #[trigger] has_self_loop(edges@, i) by {
                if i >= nodes_before.len() {
                    assert(leaves_seq.contains(nodes@[i]));
                    assert(!Seq::<u32>::empty().contains(nodes@[i]));
                }
            }
        }
        ai = ai + 1;
    }
    (nodes, edges)
}

} // verus!
verus! {

/// Whether `x` occurs in `v`.
fn contains_usize(v: &Vec<usize>, x: usize) -> (r: bool)
    ensures
        r == v@.contains(x),
{
    let mut i: usize = 0;
    while i < v.len()
        invariant
            i <= v.len(),
            forall|j: int| 0 <= j < i ==> v@[j] != x,
        decreases v.len() - i,
    {
        if v[i] == x {
            return true;
        }
        i = i + 1;
    }
    false
}

/// Connected components: a union-find forest over `n` node indices whose
/// representatives are sound and complete for the edge list — two indices
/// share a representative exactly when the edges connect them.
fn components(n: usize, edges: &Vec<(usize, usize, u32)>) -> (p: Vec<usize>)
    requires
        forall|t: int|
            0 <= t < edges@.len() ==> (#[trigger] edges@[t]).0 < n && edges@[t].1 < n,
    ensures
        p@.len() == n,
        uf_wf(p@),
        forall|t: int|
            0 <= t < edges@.len() ==> uf_root(p@, (#[trigger] edges@[t]).0 as int) == uf_root(
                p@,
                edges@[t].1 as int,
            ),
        forall|i: int, j: int|
            #![trigger uf_root(p@, i), uf_root(p@, j)]
            0 <= i < n && 0 <= j < n && uf_root(p@, i) == uf_root(p@, j) ==> connected(
                edges@,
                i,
                j,
            ),
{
    let mut p: Vec<usize> = Vec::new();
    let mut i: usize = 0;
    while i < n
        invariant
            i <= n,
            p@.len() == i,
            forall|j: int| 0 <= j < i ==> p@[j] == j,
        decreases n - i,
    {
        p.push(i);
        i = i + 1;
    }
    proof {
        assert forall|i: int, j: int|
            #![trigger uf_root(p@, i), uf_root(p@, j)]
            0 <= i < n && 0 <= j < n && uf_root(p@, i) == uf_root(p@, j) implies connected(
            edges@,
            i,
            j,
        ) by {
            assert(uf_root(p@, i) == i);
            assert(uf_root(p@, j) == j);
            lemma_connected_refl(edges@, i);
        }
    }
    let mut t: usize = 0;
    while t < edges.len()
        invariant
            t <= edges@.len(),
            p@.len() == n,
            uf_wf(p@),
            forall|q: int|
                0 <= q < edges@.len() ==> (#[trigger] edges@[q]).0 < n && edges@[q].1 < n,
            forall|q: int|
                0 <= q < t ==> uf_root(p@, (#[trigger] edges@[q]).0 as int) == uf_root(
                    p@,
                    edges@[q].1 as int,
                ),
            forall|i: int, j: int|
                #![trigger uf_root(p@, i), uf_root(p@, j)]
                0 <= i < n && 0 <= j < n && uf_root(p@, i) == uf_root(p@, j) ==> connected(
                    edges@,
                    i,
                    j,
                ),
        decreases edges.len() - t,
    {
        let ghost p0 = p@;
        let (a, b, _w) = edges[t];
        uf_union(&mut p, a, b);
        proof {
            let ghost ra = uf_root(p0, a as int);
            let ghost rb = uf_root(p0, b as int);
            let ghost hi = max_int(ra, rb);
            let ghost lo = min_int(ra, rb);
            assert forall|i: int, j: int|
                #![trigger uf_root(p@, i), uf_root(p@, j)]
                0 <= i < n && 0 <= j < n && uf_root(p@, i) == uf_root(p@, j) implies connected(
                edges@,
                i,
                j,
            ) by {
                assert(uf_root(p@, i) == (if uf_root(p0, i) == hi {
                    lo
                } else {
                    uf_root(p0, i)
                }));
                assert(uf_root(p@, j) == (if uf_root(p0, j) == hi {
                    lo
                } else {
                    uf_root(p0, j)
                }));
                if uf_root(p0, i) == uf_root(p0, j) {
                    assert(connected(edges@, i, j));
                } else {
                    lemma_connected_step(edges@, t as int);
                    assert(edges@[t as int].0 == a && edges@[t as int].1 == b);
                    assert(connected(edges@, a as int, b as int));
                    if uf_root(p0, i) == hi && uf_root(p0, j) == lo {
                        if hi == ra {
                            assert(uf_root(p0, i) == uf_root(p0, a as int));
                            assert(connected(edges@, i, a as int));
                            assert(uf_root(p0, j) == uf_root(p0, b as int));
                            assert(connected(edges@, j, b as int));
                            lemma_connected_trans(edges@, i, a as int, b as int);
                            lemma_connected_sym(edges@, j, b as int);
                            lemma_connected_trans(edges@, i, b as int, j);
                        } else {
                            assert(uf_root(p0, i) == uf_root(p0, b as int));
                            assert(connected(edges@, i, b as int));
                            assert(uf_root(p0, j) == uf_root(p0, a as int));
                            assert(connected(edges@, j, a as int));
                            lemma_connected_sym(edges@, a as int, b as int);
                            lemma_connected_trans(edges@, i, b as int, a as int);
                            lemma_connected_sym(edges@, j, a as int);
                            lemma_connected_trans(edges@, i, a as int, j);
                        }
                    } else {
                        assert(uf_root(p0, j) == hi && uf_root(p0, i) == lo);
                        if hi == ra {
                            assert(uf_root(p0, j) == uf_root(p0, a as int));
                            assert(connected(edges@, j, a as int));
                            assert(uf_root(p0, i) == uf_root(p0, b as int));
                            assert(connected(edges@, i, b as int));
                            lemma_connected_sym(edges@, a as int, b as int);
                            lemma_connected_sym(edges@, j, a as int);
                            lemma_connected_trans(edges@, i, b as int, a as int);
                            lemma_connected_trans(edges@, i, a as int, j);
                        } else {
                            assert(uf_root(p0, j) == uf_root(p0, b as int));
                            assert(connected(edges@, j, b as int));
                            assert(uf_root(p0, i) == uf_root(p0, a as int));
                            assert(connected(edges@, i, a as int));
                            assert(connected(edges@, b as int, j)) by {
                                lemma_connected_sym(edges@, j, b as int);
                            }
                            lemma_connected_trans(edges@, a as int, b as int, j);
                            lemma_connected_trans(edges@, i, a as int, j);
                        }
                    }
                }
            }
            assert forall|q: int|
                0 <= q <= t implies uf_root(p@, (#[trigger] edges@[q]).0 as int) == uf_root(
                p@,
                edges@[q].1 as int,
            ) by {
                assert(uf_root(p@, edges@[q].0 as int) == (if uf_root(p0, edges@[q].0 as int)
                    == max_int(uf_root(p0, a as int), uf_root(p0, b as int)) {
                    min_int(uf_root(p0, a as int), uf_root(p0, b as int))
                } else {
                    uf_root(p0, edges@[q].0 as int)
                }));
                assert(uf_root(p@, edges@[q].1 as int) == (if uf_root(p0, edges@[q].1 as int)
                    == max_int(uf_root(p0, a as int), uf_root(p0, b as int)) {
                    min_int(uf_root(p0, a as int), uf_root(p0, b as int))
                } else {
                    uf_root(p0, edges@[q].1 as int)
                }));
            }
        }
        t = t + 1;
    }
    p
}

/// `w` is a state or input symbol of the cluster.
pub open spec fn cluster_symbol(c: ConstraintCluster, w: u32) -> bool {
    c.states_seq().contains(w) || c.inputs_seq().contains(w)
}

/// `w` lies in the support of one of the cluster's constraints.
pub open spec fn cluster_supports(
    ctx: Context,
    sys: TransitionSystem,
    init: bool,
    c: ConstraintCluster,
    w: u32,
) -> bool {
    exists|a: u32| #[trigger] c.exprs_seq().contains(a) && atom_leaves(ctx, sys, a, init).contains(w)
}

/// The constraints of cluster `c` are exactly the edge weights of the
/// component with representative `root`.
spec fn exprs_char(
    c: ConstraintCluster,
    root: int,
    parent: Seq<usize>,
    edges: Seq<(usize, usize, u32)>,
) -> bool {
    forall|x: u32|
        c.exprs_seq().contains(x) <==> exists|t: int|
            0 <= t < edges.len() && (#[trigger] edges[t]).2 == x && uf_root(
                parent,
                edges[t].0 as int,
            ) == root
}

/// `w` is carried by a node of the component with representative `root`.
spec fn in_component(parent: Seq<usize>, nodes: Seq<u32>, root: int, w: u32) -> bool {
    exists|i: int|
        0 <= i < nodes.len() && #[trigger] nodes[i] == w && uf_root(parent, i) == root
}

/// The symbols of cluster `c` are exactly the node weights of the component
/// with representative `root`, partitioned into states and the rest.
spec fn syms_char(
    c: ConstraintCluster,
    root: int,
    parent: Seq<usize>,
    nodes: Seq<u32>,
    sys: TransitionSystem,
) -> bool {
    (forall|w: u32|
        #[trigger] c.states_seq().contains(w) <==> in_component(parent, nodes, root, w)
            && state_symbol_set(sys).contains(w)) && (forall|w: u32|
        #[trigger] c.inputs_seq().contains(w) <==> in_component(parent, nodes, root, w)
            && !state_symbol_set(sys).contains(w))
}

} // verus!
verus! {

/// Under interpretation `env`, the two expression lists mean the same:
/// their conjunctions evaluate alike.
pub open spec fn means_same(ctx: Context, env: Map<u32, bool>, s1: Seq<u32>, s2: Seq<u32>) -> bool {
    conj(ctx, env, s1) == conj(ctx, env, s2)
}

/// The clusters cover the atom list `atoms`, and the atoms stand for the
/// system's constraints: under every interpretation the atoms together mean
/// exactly the constraints; every atom is atomic; every cluster constraint
/// is an atom; and every atom with a non-empty filtered support sits in
/// some cluster.
pub open spec fn clusters_cover(
    ctx: Context,
    sys: TransitionSystem,
    init: bool,
    clusters: Seq<ConstraintCluster>,
    atoms: Seq<u32>,
) -> bool {
    (forall|env: Map<u32, bool>|
        #[trigger] means_same(ctx, env, atoms, sys_constraints(sys))) && (forall|i: int|
        0 <= i < atoms.len() ==> is_atomic(ctx, #[trigger] atoms[i])) && (forall|k: int, x: u32|
        0 <= k < clusters.len() && (#[trigger] clusters[k].exprs_seq().contains(x))
            ==> atoms.contains(x)) && (forall|a: u32|
        #[trigger] atoms.contains(a) && (exists|l: u32|
            atom_leaves(ctx, sys, a, init).contains(l)) ==> exists|k: int|
            0 <= k < clusters.len() && (#[trigger] clusters[k].exprs_seq().contains(a)))
}

/// `conj` over a concatenation is the conjunction of the parts.
proof fn lemma_conj_concat(ctx: Context, env: Map<u32, bool>, s1: Seq<u32>, s2: Seq<u32>)
    ensures
        conj(ctx, env, s1 + s2) == (conj(ctx, env, s1) && conj(ctx, env, s2)),
{
    let t = s1 + s2;
    if conj(ctx, env, t) {
        assert forall|i: int| 0 <= i < s1.len() implies eval(ctx, env, #[trigger] s1[i]) by {
            assert(t[i] == s1[i]);
            assert(eval(ctx, env, t[i]));
        }
        assert forall|i: int| 0 <= i < s2.len() implies eval(ctx, env, #[trigger] s2[i]) by {
            assert(t[s1.len() + i] == s2[i]);
            assert(eval(ctx, env, t[s1.len() + i]));
        }
    } else {
        if conj(ctx, env, s1) && conj(ctx, env, s2) {
            assert forall|i: int| 0 <= i < t.len() implies eval(ctx, env, #[trigger] t[i]) by {
                if i < s1.len() {
                    assert(t[i] == s1[i]);
                    assert(eval(ctx, env, s1[i]));
                } else {
                    assert(t[i] == s2[i - s1.len()]);
                    assert(eval(ctx, env, s2[i - s1.len()]));
                }
            }
            assert(conj(ctx, env, t));
        }
    }
}

/// Groups a list of atomic constraints into clusters: connected components
/// of the constraint graph, where two atoms are connected when their
/// filtered supports share a symbol.
///
/// The contract carries cluster coverage and disjointness: every atom whose
/// filtered support is non-empty lands in exactly one cluster, every cluster
/// constraint is such an atom, no two clusters share a constraint, a state
/// or an input symbol, and the symbols of a cluster are exactly the union
/// of the supports of its constraints, partitioned into states and inputs.
pub fn build_clusters(
    ctx: &Context,
    sys: &TransitionSystem,
    atoms: &Vec<u32>,
    init: bool,
) -> (out: Vec<ConstraintCluster>)
    requires
        ctx_wf(*ctx),
        sys_closed(*ctx, *sys),
        forall|i: int| 0 <= i < atoms@.len() ==> ctx_has(*ctx, #[trigger] atoms@[i]),
    ensures
        forall|k: int|
            0 <= k < out@.len() ==> strictly_sorted((#[trigger] out@[k]).exprs_seq())
                && strictly_sorted(out@[k].states_seq()) && strictly_sorted(out@[k].inputs_seq()),
        forall|k: int, x: u32|
            0 <= k < out@.len() && (#[trigger] out@[k].exprs_seq().contains(x)) ==> atoms@.contains(
                x,
            ) && exists|l: u32| atom_leaves(*ctx, *sys, x, init).contains(l),
        forall|a: u32|
            #[trigger] atoms@.contains(a) && (exists|l: u32|
                atom_leaves(*ctx, *sys, a, init).contains(l)) ==> exists|k: int|
                0 <= k < out@.len() && (#[trigger] out@[k].exprs_seq().contains(a)),
        forall|k1: int, k2: int, x: u32|
            0 <= k1 < out@.len() && 0 <= k2 < out@.len() && k1 != k2 ==> !(#[trigger] out@[k1].exprs_seq().contains(x)
                && #[trigger] out@[k2].exprs_seq().contains(x)),
        forall|k1: int, k2: int, x: u32|
            0 <= k1 < out@.len() && 0 <= k2 < out@.len() && k1 != k2 ==> !(#[trigger] out@[k1].states_seq().contains(x)
                && #[trigger] out@[k2].states_seq().contains(x)),
        forall|k1: int, k2: int, x: u32|
            0 <= k1 < out@.len() && 0 <= k2 < out@.len() && k1 != k2 ==> !(#[trigger] out@[k1].inputs_seq().contains(x)
                && #[trigger] out@[k2].inputs_seq().contains(x)),
        forall|k: int, w: u32|
            0 <= k < out@.len() && (#[trigger] out@[k].states_seq().contains(w))
                ==> state_symbol_set(*sys).contains(w),
        forall|k: int, w: u32|
            0 <= k < out@.len() && (#[trigger] out@[k].inputs_seq().contains(w))
                ==> !state_symbol_set(*sys).contains(w),
        forall|k: int, w: u32|
            0 <= k < out@.len() ==> (#[trigger] cluster_symbol(out@[k], w) <==> cluster_supports(
                *ctx,
                *sys,
                init,
                out@[k],
                w,
            )),
        forall|k: int, w: u32|
            0 <= k < out@.len() && #[trigger] cluster_symbol(out@[k], w) ==> state_symbol_set(
                *sys,
            ).contains(w) || sys_inputs(*sys).contains(w),
        forall|k1: int, k2: int, w: u32|
            0 <= k1 < out@.len() && 0 <= k2 < out@.len() && k1 != k2 ==> !(#[trigger] cluster_supports(
                *ctx,
                *sys,
                init,
                out@[k1],
                w,
            ) && #[trigger] cluster_supports(*ctx, *sys, init, out@[k2], w)),
        forall|k: int| 0 <= k < out@.len() ==> (#[trigger] out@[k]).exprs_seq().len() > 0,
{
    let (nodes, edges) = build_graph(ctx, sys, atoms, init);
    let state_syms = state_symbols(sys);
    let n = nodes.len();
    let parent = components(n, &edges);
    // representatives, in order of their first member
    let mut roots: Vec<usize> = Vec::new();
    let mut i: usize = 0;
    while i < n
        invariant
            i <= n,
            n == nodes@.len(),
            parent@.len() == n,
            uf_wf(parent@),
            forall|j1: int, j2: int| 0 <= j1 < j2 < roots@.len() ==> roots@[j1] != roots@[j2],
            forall|j: int|
                0 <= j < roots@.len() ==> (#[trigger] roots@[j]) < n && uf_root(
                    parent@,
                    roots@[j] as int,
                ) == roots@[j] as int,
            forall|q: int|
                0 <= q < i ==> roots@.contains(uf_root(parent@, q) as usize),
        decreases n - i,
    {
        let r = uf_find(&parent, i);
        let ghost pre = roots@;
        if !contains_usize(&roots, r) {
            roots.push(r);
            proof {
                assert forall|j1: int, j2: int|
                    0 <= j1 < j2 < roots@.len() implies roots@[j1] != roots@[j2] by {
                    if j2 == roots@.len() - 1 {
                        assert(!pre.contains(roots@[j2]));
                        assert(pre[j1] == roots@[j1]);
                    }
                }
                assert(roots@[roots@.len() - 1] == r);
                assert(uf_root(parent@, r as int) == r as int);
                assert forall|q: int|
                    0 <= q <= i implies roots@.contains(uf_root(parent@, q) as usize) by {
                    if q < i {
                        let w = choose|w: int|
                            0 <= w < pre.len() && #[trigger] pre[w] == uf_root(parent@, q) as usize;
                        assert(roots@[w] == uf_root(parent@, q) as usize);
                    } else {
                        assert(roots@[roots@.len() - 1] == uf_root(parent@, q) as usize);
                    }
                }
            }
        } else {
            proof {
                assert forall|q: int|
                    0 <= q <= i implies roots@.contains(uf_root(parent@, q) as usize) by {}
            }
        }
        i = i + 1;
    }
    // one cluster per representative
    let mut out: Vec<ConstraintCluster> = Vec::new();
    let mut rk: usize = 0;
    while rk < roots.len()
        invariant
            rk <= roots@.len(),
            out@.len() == rk,
            n == nodes@.len(),
            parent@.len() == n,
            uf_wf(parent@),
            forall|y: u32| state_syms@.contains(y) <==> state_symbol_set(*sys).contains(y),
            forall|t: int|
                0 <= t < edges@.len() ==> (#[trigger] edges@[t]).0 < n && edges@[t].1 < n,
            forall|j1: int, j2: int| 0 <= j1 < j2 < roots@.len() ==> roots@[j1] != roots@[j2],
            forall|j: int|
                0 <= j < roots@.len() ==> (#[trigger] roots@[j]) < n && uf_root(
                    parent@,
                    roots@[j] as int,
                ) == roots@[j] as int,
            forall|k: int|
                0 <= k < rk ==> exprs_char(#[trigger] out@[k], roots@[k] as int, parent@, edges@),
            forall|k: int|
                0 <= k < rk ==> syms_char(#[trigger] out@[k], roots@[k] as int, parent@, nodes@, *sys),
            forall|k: int|
                0 <= k < rk ==> strictly_sorted((#[trigger] out@[k]).exprs_seq())
                    && strictly_sorted(out@[k].states_seq()) && strictly_sorted(
                    out@[k].inputs_seq(),
                ),
        decreases roots.len() - rk,
    {
        let root = roots[rk];
        let mut exprs: Vec<u32> = Vec::new();
        let mut t: usize = 0;
        while t < edges.len()
            invariant
                t <= edges@.len(),
                parent@.len() == n,
                uf_wf(parent@),
                forall|q: int|
                    0 <= q < edges@.len() ==> (#[trigger] edges@[q]).0 < n && edges@[q].1 < n,
                forall|x: u32|
                    exprs@.contains(x) <==> exists|q: int|
                        0 <= q < t && (#[trigger] edges@[q]).2 == x && uf_root(
                            parent@,
                            edges@[q].0 as int,
                        ) == root as int,
            decreases edges.len() - t,
        {
            let ghost pre = exprs@;
            let e = edges[t];
            let er = uf_find(&parent, e.0);
            if er == root {
                exprs.push(e.2);
            }
            proof {
                assert forall|x: u32|
                    exprs@.contains(x) <==> exists|q: int|
                        0 <= q < t + 1 && (#[trigger] edges@[q]).2 == x && uf_root(
                            parent@,
                            edges@[q].0 as int,
                        ) == root as int by {
                    if er == root {
                        lemma_push_contains(pre, e.2, x);
                    }
                    if exprs@.contains(x) {
                        if pre.contains(x) {
                            let q = choose|q: int|
                                0 <= q < t && (#[trigger] edges@[q]).2 == x && uf_root(
                                    parent@,
                                    edges@[q].0 as int,
                                ) == root as int;
                            assert(0 <= q < t + 1 && edges@[q].2 == x && uf_root(
                                parent@,
                                edges@[q].0 as int,
                            ) == root as int);
                        } else {
                            assert(edges@[t as int].2 == x && uf_root(parent@, edges@[t as int].0 as int)
                                == root as int);
                        }
                    }
                    if exists|q: int|
                        0 <= q < t + 1 && (#[trigger] edges@[q]).2 == x && uf_root(
                            parent@,
                            edges@[q].0 as int,
                        ) == root as int {
                        let q = choose|q: int|
                            0 <= q < t + 1 && (#[trigger] edges@[q]).2 == x && uf_root(
                                parent@,
                                edges@[q].0 as int,
                            ) == root as int;
                        if q < t {
                            assert(pre.contains(x));
                        }
                    }
                }
            }
            t = t + 1;
        }
        let mut states: Vec<u32> = Vec::new();
        let mut inputs: Vec<u32> = Vec::new();
        let mut ni: usize = 0;
        while ni < n
            invariant
                ni <= n,
                n == nodes@.len(),
                parent@.len() == n,
                uf_wf(parent@),
                forall|y: u32| state_syms@.contains(y) <==> state_symbol_set(*sys).contains(y),
                forall|w: u32|
                    states@.contains(w) <==> (exists|q: int|
                        0 <= q < ni && #[trigger] nodes@[q] == w && uf_root(parent@, q)
                            == root as int) && state_symbol_set(*sys).contains(w),
                forall|w: u32|
                    inputs@.contains(w) <==> (exists|q: int|
                        0 <= q < ni && #[trigger] nodes@[q] == w && uf_root(parent@, q)
                            == root as int) && !state_symbol_set(*sys).contains(w),
            decreases n - ni,
        {
            let ghost pre_s = states@;
            let ghost pre_i = inputs@;
            let nr = uf_find(&parent, ni);
            let w = nodes[ni];
            if nr == root {
                if vec_contains(&state_syms, w) {
                    states.push(w);
                } else {
                    inputs.push(w);
                }
            }
            proof {
                if nr == root {
                    if state_symbol_set(*sys).contains(w) {
                        assert forall|y: u32| states@.contains(y) <==> (pre_s.contains(y) || y
                            == w) by {
                            lemma_push_contains(pre_s, w, y);
                        }
                    } else {
                        assert forall|y: u32| inputs@.contains(y) <==> (pre_i.contains(y) || y
                            == w) by {
                            lemma_push_contains(pre_i, w, y);
                        }
                    }
                }
                assert forall|y: u32|
                    states@.contains(y) <==> (exists|q: int|
                        0 <= q < ni + 1 && #[trigger] nodes@[q] == y && uf_root(parent@, q)
                            == root as int) && state_symbol_set(*sys).contains(y) by {
                    if states@.contains(y) {
                        if pre_s.contains(y) {
                            let q = choose|q: int|
                                0 <= q < ni && #[trigger] nodes@[q] == y && uf_root(parent@, q)
                                    == root as int;
                            assert(0 <= q < ni + 1 && nodes@[q] == y);
                        } else {
                            assert(nodes@[ni as int] == y && uf_root(parent@, ni as int)
                                == root as int);
                        }
                    }
                    if (exists|q: int|
                        0 <= q < ni + 1 && #[trigger] nodes@[q] == y && uf_root(parent@, q)
                            == root as int) && state_symbol_set(*sys).contains(y) {
                        let q = choose|q: int|
                            0 <= q < ni + 1 && #[trigger] nodes@[q] == y && uf_root(parent@, q)
                                == root as int;
                        if q < ni {
                            assert(pre_s.contains(y));
                        }
                    }
                }
                assert forall|y: u32|
                    inputs@.contains(y) <==> (exists|q: int|
                        0 <= q < ni + 1 && #[trigger] nodes@[q] == y && uf_root(parent@, q)
                            == root as int) && !state_symbol_set(*sys).contains(y) by {
                    if inputs@.contains(y) {
                        if pre_i.contains(y) {
                            let q = choose|q: int|
                                0 <= q < ni && #[trigger] nodes@[q] == y && uf_root(parent@, q)
                                    == root as int;
                            assert(0 <= q < ni + 1 && nodes@[q] == y);
                        } else {
                            assert(nodes@[ni as int] == y && uf_root(parent@, ni as int)
                                == root as int);
                        }
                    }
                    if (exists|q: int|
                        0 <= q < ni + 1 && #[trigger] nodes@[q] == y && uf_root(parent@, q)
                            == root as int) && !state_symbol_set(*sys).contains(y) {
                        let q = choose|q: int|
                            0 <= q < ni + 1 && #[trigger] nodes@[q] == y && uf_root(parent@, q)
                                == root as int;
                        if q < ni {
                            assert(pre_i.contains(y));
                        }
                    }
                }
            }
            ni = ni + 1;
        }
        let ghost exprs_snap = exprs@;
        let ghost states_snap = states@;
        let ghost inputs_snap = inputs@;
        let cluster = ConstraintCluster::new(exprs, states, inputs);
        out.push(cluster);
        proof {
            assert(out@[out@.len() - 1] == cluster);
            assert(exprs_char(cluster, root as int, parent@, edges@));
            assert(syms_char(cluster, root as int, parent@, nodes@, *sys));
        }
        rk = rk + 1;
    }
    proof {
        cluster_ensures(
            *ctx,
            *sys,
            init,
            atoms@,
            nodes@,
            edges@,
            parent@,
            roots@,
            out@,
        );
        assert forall|k: int, w: u32|
            0 <= k < out@.len() && #[trigger] cluster_symbol(out@[k], w) implies state_symbol_set(
            *sys,
        ).contains(w) || sys_inputs(*sys).contains(w) by {
            assert(cluster_supports(*ctx, *sys, init, out@[k], w));
            let a = choose|a: u32|
                #[trigger] out@[k].exprs_seq().contains(a) && atom_leaves(
                    *ctx,
                    *sys,
                    a,
                    init,
                ).contains(w);
            assert(atoms@.contains(a));
            let ai = choose|ai: int| 0 <= ai < atoms@.len() && atoms@[ai] == a;
            assert(atom_leaves(*ctx, *sys, atoms@[ai], init).contains(w));
        }
        assert forall|k1: int, k2: int, w: u32|
            0 <= k1 < out@.len() && 0 <= k2 < out@.len() && k1 != k2 implies !(
        #[trigger] cluster_supports(*ctx, *sys, init, out@[k1], w) && #[trigger] cluster_supports(
            *ctx,
            *sys,
            init,
            out@[k2],
            w,
        )) by {
            if cluster_supports(*ctx, *sys, init, out@[k1], w) && cluster_supports(
                *ctx,
                *sys,
                init,
                out@[k2],
                w,
            ) {
                assert(cluster_symbol(out@[k1], w));
                assert(cluster_symbol(out@[k2], w));
                if out@[k1].states_seq().contains(w) {
                    assert(state_symbol_set(*sys).contains(w));
                    assert(!out@[k2].inputs_seq().contains(w));
                    assert(out@[k2].states_seq().contains(w));
                } else {
                    assert(out@[k1].inputs_seq().contains(w));
                    assert(!state_symbol_set(*sys).contains(w));
                    assert(!out@[k2].states_seq().contains(w));
                    assert(out@[k2].inputs_seq().contains(w));
                }
                assert(false);
            }
        }
    }
    out
}

} // verus!
verus! {

/// From the component characterizations of the clusters, derive coverage,
/// uniqueness and disjointness.
proof fn cluster_ensures(
    ctx: Context,
    sys: TransitionSystem,
    init: bool,
    atoms: Seq<u32>,
    nodes: Seq<u32>,
    edges: Seq<(usize, usize, u32)>,
    parent: Seq<usize>,
    roots: Seq<usize>,
    out: Seq<ConstraintCluster>,
)
    requires
        forall|i: int, j: int| 0 <= i < j < nodes.len() ==> nodes[i] != nodes[j],
        edges_wf(ctx, sys, init, atoms, nodes, edges),
        self_loops_upto(nodes, edges, nodes.len() as int),
        forall|i: int|
            0 <= i < atoms.len() ==> atom_clique(ctx, sys, init, nodes, edges, #[trigger] atoms[i]),
        parent.len() == nodes.len(),
        uf_wf(parent),
        forall|t: int|
            0 <= t < edges.len() ==> uf_root(parent, (#[trigger] edges[t]).0 as int) == uf_root(
                parent,
                edges[t].1 as int,
            ),
        forall|j1: int, j2: int| 0 <= j1 < j2 < roots.len() ==> roots[j1] != roots[j2],
        forall|j: int|
            0 <= j < roots.len() ==> (#[trigger] roots[j]) < nodes.len() && uf_root(
                parent,
                roots[j] as int,
            ) == roots[j] as int,
        forall|q: int| 0 <= q < nodes.len() ==> roots.contains(uf_root(parent, q) as usize),
        out.len() == roots.len(),
        forall|k: int|
            0 <= k < out.len() ==> exprs_char(#[trigger] out[k], roots[k] as int, parent, edges),
        forall|k: int|
            0 <= k < out.len() ==> syms_char(#[trigger] out[k], roots[k] as int, parent, nodes, sys),
    ensures
        forall|k: int, x: u32|
            0 <= k < out.len() && (#[trigger] out[k].exprs_seq().contains(x)) ==> atoms.contains(x)
                && exists|l: u32| atom_leaves(ctx, sys, x, init).contains(l),
        forall|a: u32|
            #[trigger] atoms.contains(a) && (exists|l: u32|
                atom_leaves(ctx, sys, a, init).contains(l)) ==> exists|k: int|
                0 <= k < out.len() && (#[trigger] out[k].exprs_seq().contains(a)),
        forall|k1: int, k2: int, x: u32|
            0 <= k1 < out.len() && 0 <= k2 < out.len() && k1 != k2 ==> !(#[trigger] out[k1].exprs_seq().contains(x)
                && #[trigger] out[k2].exprs_seq().contains(x)),
        forall|k1: int, k2: int, x: u32|
            0 <= k1 < out.len() && 0 <= k2 < out.len() && k1 != k2 ==> !(#[trigger] out[k1].states_seq().contains(x)
                && #[trigger] out[k2].states_seq().contains(x)),
        forall|k1: int, k2: int, x: u32|
            0 <= k1 < out.len() && 0 <= k2 < out.len() && k1 != k2 ==> !(#[trigger] out[k1].inputs_seq().contains(x)
                && #[trigger] out[k2].inputs_seq().contains(x)),
        forall|k: int, w: u32|
            0 <= k < out.len() && (#[trigger] out[k].states_seq().contains(w)) ==> state_symbol_set(
                sys,
            ).contains(w),
        forall|k: int, w: u32|
            0 <= k < out.len() && (#[trigger] out[k].inputs_seq().contains(w))
                ==> !state_symbol_set(sys).contains(w),
        forall|k: int, w: u32|
            0 <= k < out.len() ==> (#[trigger] cluster_symbol(out[k], w) <==> cluster_supports(
                ctx,
                sys,
                init,
                out[k],
                w,
            )),
        forall|k: int| 0 <= k < out.len() ==> (#[trigger] out[k]).exprs_seq().len() > 0,
{
    // no cluster is empty: its representative node carries a self-loop
    assert forall|k: int|
        0 <= k < out.len() implies (#[trigger] out[k]).exprs_seq().len() > 0 by {
        let i = roots[k] as int;
        assert(0 <= i < nodes.len());
        assert(has_self_loop(edges, i));
        let t = choose|t: int| 0 <= t < edges.len() && (#[trigger] edges[t]).0 == i && edges[t].1 == i;
        assert(uf_root(parent, edges[t].0 as int) == roots[k] as int);
        assert(exprs_char(out[k], roots[k] as int, parent, edges));
        assert(out[k].exprs_seq().contains(edges[t].2));
    }
    // every cluster constraint is an atom with a non-empty support
    assert forall|k: int, x: u32|
        0 <= k < out.len() && (#[trigger] out[k].exprs_seq().contains(x)) implies atoms.contains(x)
        && exists|l: u32| atom_leaves(ctx, sys, x, init).contains(l) by {
        let t = choose|t: int|
            0 <= t < edges.len() && (#[trigger] edges[t]).2 == x && uf_root(
                parent,
                edges[t].0 as int,
            ) == roots[k] as int;
        assert(atoms.contains(x));
        assert(atom_leaves(ctx, sys, x, init).contains(nodes[edges[t].0 as int]));
    }
    // coverage: an atom with a leaf lands in some cluster
    assert forall|a: u32|
        #[trigger] atoms.contains(a) && (exists|l: u32|
            atom_leaves(ctx, sys, a, init).contains(l)) implies exists|k: int|
        0 <= k < out.len() && (#[trigger] out[k].exprs_seq().contains(a)) by {
        let l = choose|l: u32| atom_leaves(ctx, sys, a, init).contains(l);
        let ai = choose|ai: int| 0 <= ai < atoms.len() && atoms[ai] == a;
        assert(atom_clique(ctx, sys, init, nodes, edges, a));
        assert(has_edge(nodes, edges, a, l, l));
        let t = choose|t: int|
            0 <= t < edges.len() && (#[trigger] edges[t]).2 == a && ((nodes[edges[t].0 as int] == l
                && nodes[edges[t].1 as int] == l) || (nodes[edges[t].0 as int] == l
                && nodes[edges[t].1 as int] == l));
        let r = uf_root(parent, edges[t].0 as int);
        lemma_uf_root_props(parent, edges[t].0 as int);
        assert(roots.contains(r as usize));
        let k = choose|k: int| 0 <= k < roots.len() && #[trigger] roots[k] == r as usize;
        assert(exprs_char(out[k], roots[k] as int, parent, edges));
        assert(edges[t].2 == a && uf_root(parent, edges[t].0 as int) == roots[k] as int);
        assert(out[k].exprs_seq().contains(a));
    }
    // an atom never lands in two clusters
    assert forall|k1: int, k2: int, x: u32|
        0 <= k1 < out.len() && 0 <= k2 < out.len() && k1 != k2 implies !(#[trigger] out[k1].exprs_seq().contains(x)
        && #[trigger] out[k2].exprs_seq().contains(x)) by {
        if out[k1].exprs_seq().contains(x) && out[k2].exprs_seq().contains(x) {
            let t1 = choose|t: int|
                0 <= t < edges.len() && (#[trigger] edges[t]).2 == x && uf_root(
                    parent,
                    edges[t].0 as int,
                ) == roots[k1] as int;
            let t2 = choose|t: int|
                0 <= t < edges.len() && (#[trigger] edges[t]).2 == x && uf_root(
                    parent,
                    edges[t].0 as int,
                ) == roots[k2] as int;
            let l1 = nodes[edges[t1].0 as int];
            let l2 = nodes[edges[t2].0 as int];
            assert(atom_leaves(ctx, sys, x, init).contains(l1));
            assert(atom_leaves(ctx, sys, x, init).contains(l2));
            let ai = choose|ai: int| 0 <= ai < atoms.len() && atoms[ai] == x;
            assert(atom_clique(ctx, sys, init, nodes, edges, x));
            assert(has_edge(nodes, edges, x, l1, l2));
            let t3 = choose|t: int|
                0 <= t < edges.len() && (#[trigger] edges[t]).2 == x && ((nodes[edges[t].0 as int]
                    == l1 && nodes[edges[t].1 as int] == l2) || (nodes[edges[t].0 as int] == l2
                    && nodes[edges[t].1 as int] == l1));
            lemma_distinct_index(nodes, edges[t3].0 as int, edges[t1].0 as int);
            lemma_distinct_index(nodes, edges[t3].1 as int, edges[t1].0 as int);
            lemma_distinct_index(nodes, edges[t3].0 as int, edges[t2].0 as int);
            lemma_distinct_index(nodes, edges[t3].1 as int, edges[t2].0 as int);
            assert(uf_root(parent, edges[t3].0 as int) == uf_root(parent, edges[t3].1 as int));
            if nodes[edges[t3].0 as int] == l1 && nodes[edges[t3].1 as int] == l2 {
                assert(edges[t3].0 == edges[t1].0);
                assert(edges[t3].1 == edges[t2].0);
            } else {
                assert(edges[t3].0 == edges[t2].0);
                assert(edges[t3].1 == edges[t1].0);
            }
            assert(roots[k1] as int == roots[k2] as int);
            if k1 < k2 {
                assert(roots[k1] != roots[k2]);
            } else {
                assert(roots[k2] != roots[k1]);
            }
            assert(false);
        }
    }
    // symbol disjointness across clusters
    assert forall|k1: int, k2: int, x: u32|
        0 <= k1 < out.len() && 0 <= k2 < out.len() && k1 != k2 implies !(#[trigger] out[k1].states_seq().contains(x)
        && #[trigger] out[k2].states_seq().contains(x)) by {
        if out[k1].states_seq().contains(x) && out[k2].states_seq().contains(x) {
            lemma_component_unique(nodes, parent, roots, k1, k2, x);
        }
    }
    assert forall|k1: int, k2: int, x: u32|
        0 <= k1 < out.len() && 0 <= k2 < out.len() && k1 != k2 implies !(#[trigger] out[k1].inputs_seq().contains(x)
        && #[trigger] out[k2].inputs_seq().contains(x)) by {
        if out[k1].inputs_seq().contains(x) && out[k2].inputs_seq().contains(x) {
            lemma_component_unique(nodes, parent, roots, k1, k2, x);
        }
    }
    // a cluster's symbols are exactly the supports of its constraints
    assert forall|k: int, w: u32|
        0 <= k < out.len() implies (#[trigger] cluster_symbol(out[k], w) <==> cluster_supports(
        ctx,
        sys,
        init,
        out[k],
        w,
    )) by {
        if cluster_symbol(out[k], w) {
            assert(in_component(parent, nodes, roots[k] as int, w));
            let i = choose|i: int|
                0 <= i < nodes.len() && #[trigger] nodes[i] == w && uf_root(parent, i) == roots[k] as int;
            assert(has_self_loop(edges, i));
            let t = choose|t: int|
                0 <= t < edges.len() && (#[trigger] edges[t]).0 == i && edges[t].1 == i;
            let a = edges[t].2;
            assert(out[k].exprs_seq().contains(a)) by {
                assert(exprs_char(out[k], roots[k] as int, parent, edges));
            }
            assert(atom_leaves(ctx, sys, a, init).contains(w));
            assert(cluster_supports(ctx, sys, init, out[k], w));
        }
        if cluster_supports(ctx, sys, init, out[k], w) {
            let a = choose|a: u32|
                #[trigger] out[k].exprs_seq().contains(a) && atom_leaves(ctx, sys, a, init).contains(
                    w,
                );
            let t1 = choose|t: int|
                0 <= t < edges.len() && (#[trigger] edges[t]).2 == a && uf_root(
                    parent,
                    edges[t].0 as int,
                ) == roots[k] as int;
            let l1 = nodes[edges[t1].0 as int];
            assert(atom_leaves(ctx, sys, a, init).contains(l1));
            let ai = choose|ai: int| 0 <= ai < atoms.len() && atoms[ai] == a;
            assert(atom_clique(ctx, sys, init, nodes, edges, a));
            assert(has_edge(nodes, edges, a, w, l1));
            let t2 = choose|t: int|
                0 <= t < edges.len() && (#[trigger] edges[t]).2 == a && ((nodes[edges[t].0 as int]
                    == w && nodes[edges[t].1 as int] == l1) || (nodes[edges[t].0 as int] == l1
                    && nodes[edges[t].1 as int] == w))
            ;
            assert(uf_root(parent, edges[t2].0 as int) == uf_root(parent, edges[t2].1 as int));
            lemma_distinct_index(nodes, edges[t2].0 as int, edges[t1].0 as int);
            lemma_distinct_index(nodes, edges[t2].1 as int, edges[t1].0 as int);
            if nodes[edges[t2].0 as int] == w {
                assert(edges[t2].1 == edges[t1].0);
                assert(uf_root(parent, edges[t2].0 as int) == roots[k] as int);
                assert(in_component(parent, nodes, roots[k] as int, w)) by {
                    assert(0 <= edges[t2].0 < nodes.len() && nodes[edges[t2].0 as int] == w
                        && uf_root(parent, edges[t2].0 as int) == roots[k] as int);
                }
            } else {
                assert(edges[t2].0 == edges[t1].0);
                assert(nodes[edges[t2].1 as int] == w);
                assert(uf_root(parent, edges[t2].1 as int) == roots[k] as int);
                assert(in_component(parent, nodes, roots[k] as int, w)) by {
                    assert(0 <= edges[t2].1 < nodes.len() && nodes[edges[t2].1 as int] == w
                        && uf_root(parent, edges[t2].1 as int) == roots[k] as int);
                }
            }
            assert(cluster_symbol(out[k], w)) by {
                assert(syms_char(out[k], roots[k] as int, parent, nodes, sys));
                if state_symbol_set(sys).contains(w) {
                    assert(out[k].states_seq().contains(w));
                } else {
                    assert(out[k].inputs_seq().contains(w));
                }
            }
        }
    }
}

/// Two node indices carrying the same symbol are the same index.
proof fn lemma_distinct_index(nodes: Seq<u32>, i: int, j: int)
    requires
        forall|q1: int, q2: int| 0 <= q1 < q2 < nodes.len() ==> nodes[q1] != nodes[q2],
        0 <= i < nodes.len(),
        0 <= j < nodes.len(),
    ensures
        nodes[i] == nodes[j] ==> i == j,
{
    if nodes[i] == nodes[j] && i != j {
        if i < j {
            assert(nodes[i] != nodes[j]);
        } else {
            assert(nodes[j] != nodes[i]);
        }
    }
}

/// A symbol sits in only one component, so only one cluster can carry it.
proof fn lemma_component_unique(
    nodes: Seq<u32>,
    parent: Seq<usize>,
    roots: Seq<usize>,
    k1: int,
    k2: int,
    x: u32,
)
    requires
        forall|q1: int, q2: int| 0 <= q1 < q2 < nodes.len() ==> nodes[q1] != nodes[q2],
        forall|j1: int, j2: int| 0 <= j1 < j2 < roots.len() ==> roots[j1] != roots[j2],
        0 <= k1 < roots.len(),
        0 <= k2 < roots.len(),
        k1 != k2,
    ensures
        !(in_component(parent, nodes, roots[k1] as int, x) && in_component(
            parent,
            nodes,
            roots[k2] as int,
            x,
        )),
{
    if !(in_component(parent, nodes, roots[k1] as int, x) && in_component(
        parent,
        nodes,
        roots[k2] as int,
        x,
    )) {
        return;
    }
    let i1 = choose|i: int|
        0 <= i < nodes.len() && #[trigger] nodes[i] == x && uf_root(parent, i) == roots[k1] as int;
    let i2 = choose|i: int|
        0 <= i < nodes.len() && #[trigger] nodes[i] == x && uf_root(parent, i) == roots[k2] as int;
    lemma_distinct_index(nodes, i1, i2);
    assert(roots[k1] == roots[k2]);
    if k1 < k2 {
        assert(roots[k1] != roots[k2]);
    } else {
        assert(roots[k2] != roots[k1]);
    }
}

} // verus!
verus! {

/// Validity of a system's constraint list in a context: every constraint is
/// an interned 1-bit expression.
pub open spec fn constraints_wf(ctx: Context, sys: TransitionSystem) -> bool {
    forall|i: int|
        0 <= i < sys_constraints(sys).len() ==> ctx_has(ctx, #[trigger] sys_constraints(sys)[i])
            && bv_width_of(ctx, sys_constraints(sys)[i]) == Some(1u32)
}

/// Splits every constraint of the system into atomic sub-constraints and
/// groups the atoms into clusters over shared (filtered) support.
///
/// Splitting may intern fresh negations, so the context can grow; nothing
/// already interned changes.  Each cluster holds atomic constraints only;
/// clusters are pairwise disjoint in constraints, state symbols and input
/// symbols; the symbols of a cluster are exactly the supports of its
/// constraints, split into states and inputs (see `build_clusters` for the
/// coverage guarantee relative to the atom list).
pub fn analyze_constraints(ctx: &mut Context, sys: &TransitionSystem, init: bool) -> (out: Vec<
    ConstraintCluster,
>)
    requires
        ctx_wf(*old(ctx)),
        sys_closed(*old(ctx), *sys),
        constraints_wf(*old(ctx), *sys),
    ensures
        ctx_wf(*final(ctx)),
        ctx_extends(*old(ctx), *final(ctx)),
        sys_closed(*final(ctx), *sys),
        forall|k: int|
            0 <= k < out@.len() ==> strictly_sorted((#[trigger] out@[k]).exprs_seq())
                && strictly_sorted(out@[k].states_seq()) && strictly_sorted(out@[k].inputs_seq()),
        forall|k: int, x: u32|
            0 <= k < out@.len() && (#[trigger] out@[k].exprs_seq().contains(x)) ==> is_atomic(
                *final(ctx),
                x,
            ) && bv_width_of(*final(ctx), x) == Some(1u32),
        forall|k1: int, k2: int, x: u32|
            0 <= k1 < out@.len() && 0 <= k2 < out@.len() && k1 != k2 ==> !(#[trigger] out@[
            k1].exprs_seq().contains(x) && #[trigger] out@[k2].exprs_seq().contains(x)),
        forall|k1: int, k2: int, x: u32|
            0 <= k1 < out@.len() && 0 <= k2 < out@.len() && k1 != k2 ==> !(#[trigger] out@[
            k1].states_seq().contains(x) && #[trigger] out@[k2].states_seq().contains(x)),
        forall|k1: int, k2: int, x: u32|
            0 <= k1 < out@.len() && 0 <= k2 < out@.len() && k1 != k2 ==> !(#[trigger] out@[
            k1].inputs_seq().contains(x) && #[trigger] out@[k2].inputs_seq().contains(x)),
        forall|k: int, w: u32|
            0 <= k < out@.len() && (#[trigger] out@[k].states_seq().contains(w))
                ==> state_symbol_set(*sys).contains(w),
        forall|k: int, w: u32|
            0 <= k < out@.len() && (#[trigger] out@[k].inputs_seq().contains(w))
                ==> !state_symbol_set(*sys).contains(w),
        forall|k: int, w: u32|
            0 <= k < out@.len() ==> (#[trigger] cluster_symbol(out@[k], w) <==> cluster_supports(
                *final(ctx),
                *sys,
                init,
                out@[k],
                w,
            )),
        forall|k: int, w: u32|
            0 <= k < out@.len() && (#[trigger] out@[k].inputs_seq().contains(w)) ==> sys_inputs(
                *sys,
            ).contains(w),
        forall|s: Set<u32>|
            #[trigger] scope_closed(*final(ctx), s) && all_in(s, sys_constraints(*sys)) ==> (forall|
                k: int,
                x: u32,
            |
                0 <= k < out@.len() && (#[trigger] out@[k].exprs_seq().contains(x)) ==> s.contains(
                    x,
                )),
        exists|atoms: Seq<u32>| #[trigger] clusters_cover(*final(ctx), *sys, init, out@, atoms),
        forall|k: int| 0 <= k < out@.len() ==> (#[trigger] out@[k]).exprs_seq().len() > 0,
{
    let ghost ctx0 = *ctx;
    let constraints = get_constraints(sys);
    let mut atoms: Vec<u32> = Vec::new();
    let mut ci: usize = 0;
    proof {
        assert(sys_constraints(*sys).take(0) =~= Seq::<u32>::empty());
        assert(atoms@ =~= Seq::<u32>::empty());
        assert forall|env: Map<u32, bool>|
            #[trigger] means_same(*ctx, env, atoms@, sys_constraints(*sys).take(0)) by {
            assert(conj(*ctx, env, Seq::<u32>::empty()));
        }
    }
    while ci < constraints.len()
        invariant
            ci <= constraints@.len(),
            constraints@ == sys_constraints(*sys),
            ctx_wf(ctx0),
            constraints_wf(ctx0, *sys),
            ctx_wf(*ctx),
            sys_closed(*ctx, *sys),
            ctx_extends(ctx0, *ctx),
            forall|i: int|
                0 <= i < atoms@.len() ==> is_atomic(*ctx, #[trigger] atoms@[i]) && bv_width_of(
                    *ctx,
                    atoms@[i],
                ) == Some(1u32),
            forall|s: Set<u32>|
                #[trigger] scope_closed(*ctx, s) && all_in(s, sys_constraints(*sys)) ==> all_in(
                    s,
                    atoms@,
                ),
            forall|env: Map<u32, bool>|
                #[trigger] means_same(*ctx, env, atoms@, sys_constraints(*sys).take(ci as int)),
        decreases constraints.len() - ci,
    {
        let ghost c_before = *ctx;
        let c = constraints[ci];
        let mut parts = split_conjunction(ctx, c);
        let ghost parts_snap = parts@;
        let ghost pre_atoms = atoms@;
        atoms.append(&mut parts);
        proof {
            lemma_extends_trans(ctx0, c_before, *ctx);
            assert forall|i: int|
                0 <= i < atoms@.len() implies is_atomic(*ctx, #[trigger] atoms@[i]) && bv_width_of(
                *ctx,
                atoms@[i],
            ) == Some(1u32) by {
                if i < pre_atoms.len() {
                    assert(atoms@[i] == pre_atoms[i]);
                    lemma_atomic_stable(c_before, *ctx, pre_atoms[i]);
                }
            }
            assert forall|s: Set<u32>|
                #[trigger] scope_closed(*ctx, s) && all_in(s, sys_constraints(*sys)) implies all_in(
                s,
                atoms@,
            ) by {
                lemma_scope_closed_shrink(c_before, *ctx, s);
                assert(scope_closed(c_before, s));
                assert(all_in(s, pre_atoms));
                assert(s.contains(sys_constraints(*sys)[ci as int]));
                assert(s.contains(c));
                assert(all_in(s, parts_snap));
                assert(forall|i: int|
                    0 <= i < atoms@.len() ==> s.contains(#[trigger] atoms@[i]));
            }
            assert(sys_constraints(*sys).take(ci as int + 1) =~= sys_constraints(*sys).take(
                ci as int,
            ).push(c));
            assert forall|i: int|
                0 <= i < sys_constraints(*sys).take(ci as int).len() implies ctx_has(
                c_before,
                #[trigger] sys_constraints(*sys).take(ci as int)[i],
            ) by {
                assert(sys_constraints(*sys).take(ci as int)[i] == sys_constraints(*sys)[i]);
                assert(ctx_has(ctx0, sys_constraints(*sys)[i]));
            }
            assert forall|env: Map<u32, bool>|
                #[trigger] means_same(
                    *ctx,
                    env,
                    atoms@,
                    sys_constraints(*sys).take(ci as int + 1),
                ) by {
                assert(means_same(c_before, env, pre_atoms, sys_constraints(*sys).take(ci as int)));
                lemma_conj_stable(c_before, *ctx, env, pre_atoms);
                lemma_conj_stable(c_before, *ctx, env, sys_constraints(*sys).take(ci as int));
                assert(atoms@ == pre_atoms + parts_snap);
                lemma_conj_concat(*ctx, env, pre_atoms, parts_snap);
                assert(conj(*ctx, env, parts_snap) == eval(*ctx, env, c));
                lemma_conj_snoc(*ctx, env, sys_constraints(*sys).take(ci as int), c);
            }
        }
        ci = ci + 1;
    }
    let out = build_clusters(ctx, sys, &atoms, init);
    proof {
        assert forall|s: Set<u32>|
            #[trigger] scope_closed(*ctx, s) && all_in(s, sys_constraints(*sys)) implies (forall|
            k: int,
            x: u32,
        |
            0 <= k < out@.len() && (#[trigger] out@[k].exprs_seq().contains(x)) ==> s.contains(
                x,
            )) by {
            assert(all_in(s, atoms@));
            assert forall|k: int, x: u32|
                0 <= k < out@.len() && (#[trigger] out@[k].exprs_seq().contains(x)) implies s.contains(
                x,
            ) by {
                assert(atoms@.contains(x));
                let ai = choose|ai: int| 0 <= ai < atoms@.len() && atoms@[ai] == x;
                assert(s.contains(atoms@[ai]));
            }
        }
        assert forall|k: int, w: u32|
            0 <= k < out@.len() && (#[trigger] out@[k].inputs_seq().contains(w)) implies sys_inputs(
            *sys,
        ).contains(w) by {
            assert(cluster_symbol(out@[k], w));
        }
        assert forall|env: Map<u32, bool>|
            #[trigger] means_same(*ctx, env, atoms@, sys_constraints(*sys)) by {
            assert(sys_constraints(*sys).take(sys_constraints(*sys).len() as int)
                =~= sys_constraints(*sys));
            assert(means_same(
                *ctx,
                env,
                atoms@,
                sys_constraints(*sys).take(sys_constraints(*sys).len() as int),
            ));
        }
        assert(clusters_cover(*ctx, *sys, init, out@, atoms@));
    }
    out
}

} // verus!
// Connectivity: the union-find labels are complete as well as sound — two
// node indices share a representative exactly when the edge list joins them.

verus! {

/// Nodes `i` and `j` are joined by a single edge, in either direction.
pub open spec fn adjacent(edges: Seq<(usize, usize, u32)>, i: int, j: int) -> bool {
    exists|t: int|
        0 <= t < edges.len() && (((#[trigger] edges[t]).0 as int == i && edges[t].1 as int == j) || (
        edges[t].0 as int == j && edges[t].1 as int == i))
}

/// `p` walks along edges from `i` to `j`.
pub open spec fn is_path(edges: Seq<(usize, usize, u32)>, p: Seq<int>, i: int, j: int) -> bool {
    p.len() >= 1 && p[0] == i && p.last() == j && (forall|q: int|
        0 <= q < p.len() - 1 ==> adjacent(edges, #[trigger] p[q], p[q + 1]))
}

/// `i` and `j` lie in one connected component of the edge list.
pub open spec fn connected(edges: Seq<(usize, usize, u32)>, i: int, j: int) -> bool {
    exists|p: Seq<int>| #[trigger] is_path(edges, p, i, j)
}

/// Every node is connected to itself.
proof fn lemma_connected_refl(edges: Seq<(usize, usize, u32)>, i: int)
    ensures
        connected(edges, i, i),
{
    let p = seq![i];
    assert(is_path(edges, p, i, i));
}

/// Connectivity is symmetric.
proof fn lemma_connected_sym(edges: Seq<(usize, usize, u32)>, i: int, j: int)
    requires
        connected(edges, i, j),
    ensures
        connected(edges, j, i),
{
    let p = choose|p: Seq<int>| #[trigger] is_path(edges, p, i, j);
    let r = Seq::new(p.len(), |q: int| p[p.len() - 1 - q]);
    assert(r[0] == j);
    assert(r.last() == i);
    assert forall|q: int| 0 <= q < r.len() - 1 implies adjacent(edges, #[trigger] r[q], r[q + 1]) by {
        assert(r[q] == p[p.len() - 1 - q]);
        assert(r[q + 1] == p[p.len() - 2 - q]);
        assert(adjacent(edges, p[p.len() - 2 - q], p[p.len() - 1 - q]));
        let t = choose|t: int|
            0 <= t < edges.len() && (((#[trigger] edges[t]).0 as int == p[p.len() - 2 - q]
                && edges[t].1 as int == p[p.len() - 1 - q]) || (edges[t].0 as int == p[p.len() - 1
                - q] && edges[t].1 as int == p[p.len() - 2 - q]));
        assert(0 <= t < edges.len());
    }
    assert(is_path(edges, r, j, i));
}

/// Connectivity is transitive.
proof fn lemma_connected_trans(edges: Seq<(usize, usize, u32)>, i: int, j: int, k: int)
    requires
        connected(edges, i, j),
        connected(edges, j, k),
    ensures
        connected(edges, i, k),
{
    let p1 = choose|p: Seq<int>| #[trigger] is_path(edges, p, i, j);
    let p2 = choose|p: Seq<int>| #[trigger] is_path(edges, p, j, k);
    let p = p1 + p2.drop_first();
    assert(p.len() == p1.len() + p2.len() - 1);
    assert(p[0] == i) by {
        assert(p[0] == p1[0]);
    }
    assert(p.last() == k) by {
        if p2.len() == 1 {
            assert(p.last() == p1.last());
        } else {
            assert(p.last() == p2.drop_first().last());
            assert(p2.drop_first().last() == p2.last());
        }
    }
    assert forall|q: int| 0 <= q < p.len() - 1 implies adjacent(edges, #[trigger] p[q], p[q + 1]) by {
        if q < p1.len() - 1 {
            assert(p[q] == p1[q] && p[q + 1] == p1[q + 1]);
            assert(adjacent(edges, p1[q], p1[q + 1]));
        } else if q == p1.len() - 1 {
            assert(p[q] == p1.last());
            assert(p[q + 1] == p2.drop_first()[0]);
            assert(p2.drop_first()[0] == p2[1]);
            assert(adjacent(edges, p2[0], p2[1]));
            assert(p1.last() == j && p2[0] == j);
        } else {
            assert(p[q] == p2.drop_first()[q - p1.len()]);
            assert(p[q + 1] == p2.drop_first()[q + 1 - p1.len()]);
            assert(p2.drop_first()[q - p1.len()] == p2[q - p1.len() + 1]);
            assert(p2.drop_first()[q + 1 - p1.len()] == p2[q - p1.len() + 2]);
            assert(adjacent(edges, p2[q - p1.len() + 1], p2[q - p1.len() + 2]));
        }
    }
    assert(is_path(edges, p, i, k));
}

/// The two endpoints of an edge are connected.
proof fn lemma_connected_step(edges: Seq<(usize, usize, u32)>, t: int)
    requires
        0 <= t < edges.len(),
    ensures
        connected(edges, edges[t].0 as int, edges[t].1 as int),
{
    let p = seq![edges[t].0 as int, edges[t].1 as int];
    assert(adjacent(edges, p[0], p[1]));
    assert(is_path(edges, p, edges[t].0 as int, edges[t].1 as int));
}

} // verus!
