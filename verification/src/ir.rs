//! The boundary to the external IR: expression contexts and transition
//! systems.
//!
//! Expressions live in an external interning context (`patronus::expr::
//! Context`) and are addressed by small handles.  The library works on the
//! handles as plain `u32` values (the zero-based interning index).  What the
//! context stores behind a handle is abstracted by the uninterpreted
//! functions below, and a small set of trusted wrappers relates the external
//! calls to them.  Everything downstream (splitting, clustering, sampling)
//! is verified against these contracts.

use vstd::prelude::*;

use patronus::expr::Context;
use patronus::expr::Expr;
use patronus::expr::ExprRef;
use patronus::expr::TypeCheck;
use patronus::system::TransitionSystem;

verus! {

#[verifier::external_type_specification]
#[verifier::external_body]
pub struct ExContext(Context);

#[verifier::external_type_specification]
#[verifier::external_body]
pub struct ExTransitionSystem(TransitionSystem);

/// The boolean-level shape of an IR node, as far as the conjunction
/// splitter needs to see it: `and`, `or` and `not` nodes keep their
/// children (as handles) and their bit-vector width; every other node is
/// opaque.
#[derive(Clone, Copy, PartialEq, Eq, Structural, Debug)]
pub enum IrNode {
    /// A bit-wise `and` of two expressions, with its width.
    And(u32, u32, u32),
    /// A bit-wise `or` of two expressions, with its width.
    Or(u32, u32, u32),
    /// A bit-wise negation of an expression, with its width.
    Not(u32, u32),
    /// Any other expression (symbols, literals, arithmetic, arrays, ...).
    Other,
}

/// What the interning context stores: a map from handle (zero-based
/// interning index) to the shape of the node stored there.
pub uninterp spec fn ctx_nodes(ctx: Context) -> Map<u32, IrNode>;

/// The bit-vector width of the expression behind a handle; `None` for
/// array-typed expressions.
pub uninterp spec fn bv_width_of(ctx: Context, e: u32) -> Option<u32>;

/// The symbol name behind a handle; `None` where the node is not a named
/// symbol.
pub uninterp spec fn sym_name_of(ctx: Context, e: u32) -> Option<Seq<char>>;

/// A state of the transition system: its symbol and the optional handles
/// of its initial-value and next-state expressions.
#[derive(Clone, Copy, PartialEq, Eq, Debug)]
pub struct StateInfo {
    pub symbol: u32,
    pub init: Option<u32>,
    pub next: Option<u32>,
}

/// The states of a transition system, in system iteration order.
pub uninterp spec fn sys_states(sys: TransitionSystem) -> Seq<StateInfo>;

/// The input symbols of a transition system, in system iteration order.
pub uninterp spec fn sys_inputs(sys: TransitionSystem) -> Seq<u32>;

/// The environmental constraints of a transition system.
pub uninterp spec fn sys_constraints(sys: TransitionSystem) -> Seq<u32>;

/// The bad-state (safety) predicates of a transition system.
pub uninterp spec fn sys_bads(sys: TransitionSystem) -> Seq<u32>;

/// The set of free-symbol leaves that `root` depends on while the system is
/// being initialized (traverses state init and next expressions).
pub uninterp spec fn coi_init_of(ctx: Context, sys: TransitionSystem, root: u32) -> Seq<u32>;

/// The set of free-symbol leaves that `root` depends on combinationally
/// (states appear as opaque leaves).
pub uninterp spec fn coi_comb_of(ctx: Context, sys: TransitionSystem, root: u32) -> Seq<u32>;

/// Whether the system is self-contained in the context: every constraint,
/// bad predicate, initial-value and next-state expression is interned, and
/// all of them reference only the system's own state and input symbols.
/// This is what the cone-of-influence walk and the simulator need in order
/// not to meet a dangling handle or an undefined symbol; it holds of every
/// parsed system and is assumed at the library's boundary, like `ctx_wf`.
pub uninterp spec fn sys_closed(ctx: Context, sys: TransitionSystem) -> bool;

/// Well-formedness of an interning context, the standing assumption about
/// every context the external crate hands out: handles fit the 32-bit
/// index space, children of interned nodes were interned earlier (so the
/// expression graph is acyclic and child handles are smaller), and the
/// stored widths agree with the children's bit-vector types.
pub open spec fn ctx_wf(ctx: Context) -> bool {
    forall|e: u32|
        #[trigger] ctx_nodes(ctx).dom().contains(e) ==> e < 0xffff_ffffu32 && match ctx_nodes(
            ctx,
        )[e] {
            IrNode::And(a, b, w) => a < e && b < e && ctx_nodes(ctx).dom().contains(a)
                && ctx_nodes(ctx).dom().contains(b) && bv_width_of(ctx, a) == Some(w)
                && bv_width_of(ctx, b) == Some(w) && bv_width_of(ctx, e) == Some(w),
            IrNode::Or(a, b, w) => a < e && b < e && ctx_nodes(ctx).dom().contains(a)
                && ctx_nodes(ctx).dom().contains(b) && bv_width_of(ctx, a) == Some(w)
                && bv_width_of(ctx, b) == Some(w) && bv_width_of(ctx, e) == Some(w),
            IrNode::Not(a, w) => a < e && ctx_nodes(ctx).dom().contains(a) && bv_width_of(ctx, a)
                == Some(w) && bv_width_of(ctx, e) == Some(w),
            IrNode::Other => true,
        }
}

/// A valid handle of the context.
pub open spec fn ctx_has(ctx: Context, e: u32) -> bool {
    ctx_nodes(ctx).dom().contains(e)
}

/// A set of expressions closed under the splitter's moves: children of a
/// member are members, and the negation of a member is a member.  The set
/// of expressions a simulator can evaluate is closed in this sense, since
/// evaluation only ever descends into children.
pub open spec fn scope_closed(ctx: Context, s: Set<u32>) -> bool {
    (forall|x: u32|
        #[trigger] s.contains(x) && ctx_has(ctx, x) ==> match ctx_nodes(ctx)[x] {
            IrNode::And(a, b, _) => s.contains(a) && s.contains(b),
            IrNode::Or(a, b, _) => s.contains(a) && s.contains(b),
            IrNode::Not(a, _) => s.contains(a),
            IrNode::Other => true,
        }) && (forall|x: u32|
        ctx_has(ctx, x) && ((#[trigger] ctx_nodes(ctx)[x]) matches IrNode::Not(a, _)
            && s.contains(a)) ==> s.contains(x))
}

/// Relies on `Context`'s `Index<ExprRef>` lookup: classifies the node
/// stored behind a handle.  The handle is the zero-based interning index
/// (`usize::from(ExprRef)`).
#[verifier::external_body]
pub fn ctx_get_node(ctx: &Context, e: u32) -> (r: IrNode)
    requires
        ctx_has(*ctx, e),
    ensures
        r == ctx_nodes(*ctx)[e],
{
    match &ctx[ExprRef::from(e as usize)] {
        Expr::BVAnd(a, b, w) => IrNode::And(usize::from(*a) as u32, usize::from(*b) as u32, *w),
        Expr::BVOr(a, b, w) => IrNode::Or(usize::from(*a) as u32, usize::from(*b) as u32, *w),
        Expr::BVNot(a, w) => IrNode::Not(usize::from(*a) as u32, *w),
        _ => IrNode::Other,
    }
}

/// Relies on `TypeCheck::get_bv_type`: the bit-vector width of the node
/// behind a handle, `None` for arrays.
#[verifier::external_body]
pub fn ctx_bv_width(ctx: &Context, e: u32) -> (r: Option<u32>)
    requires
        ctx_wf(*ctx),
        ctx_has(*ctx, e),
    ensures
        r == bv_width_of(*ctx, e),
{
    ExprRef::from(e as usize).get_bv_type(ctx)
}

/// Relies on `Context::get_symbol_name`: the name of a symbol node.
#[verifier::external_body]
pub fn ctx_sym_name(ctx: &Context, e: u32) -> (r: Option<Vec<char>>)
    requires
        ctx_wf(*ctx),
        ctx_has(*ctx, e),
    ensures
        match r {
            Some(name) => sym_name_of(*ctx, e) == Some(name@),
            None => sym_name_of(*ctx, e) == None::<Seq<char>>,
        },
{
    ctx.get_symbol_name(ExprRef::from(e as usize)).map(|s| s.chars().collect())
}

/// Relies on `Context::not`: interns (or finds) the bit-wise negation of
/// `e`.  The context is an interning arena: the negation either already
/// exists (nothing changes) or is appended behind a handle larger than
/// every existing one; either way its handle is larger than `e` and every
/// other handle keeps its node and its width.
#[verifier::external_body]
pub fn ctx_not(ctx: &mut Context, e: u32) -> (r: u32)
    requires
        ctx_wf(*old(ctx)),
        ctx_has(*old(ctx), e),
        bv_width_of(*old(ctx), e).is_some(),
    ensures
        ctx_wf(*final(ctx)),
        ctx_has(*final(ctx), r),
        e < r,
        ctx_nodes(*final(ctx)) =~= ctx_nodes(*old(ctx)).insert(
            r,
            IrNode::Not(e, bv_width_of(*old(ctx), e)->Some_0),
        ),
        ctx_has(*old(ctx), r) ==> ctx_nodes(*old(ctx))[r] == IrNode::Not(
            e,
            bv_width_of(*old(ctx), e)->Some_0,
        ),
        forall|x: u32| x != r ==> bv_width_of(*final(ctx), x) == bv_width_of(*old(ctx), x),
        bv_width_of(*final(ctx), r) == bv_width_of(*old(ctx), e),
        forall|x: u32| sym_name_of(*final(ctx), x) == sym_name_of(*old(ctx), x),
        forall|s: TransitionSystem|
            #[trigger] sys_closed(*old(ctx), s) ==> sys_closed(*final(ctx), s),
{
    usize::from(ctx.not(ExprRef::from(e as usize))) as u32
}

/// Relies on `Context::and`: interns (or finds) the bit-wise conjunction
/// of `a` and `b`, under the same arena discipline as `ctx_not`.
#[verifier::external_body]
pub fn ctx_and(ctx: &mut Context, a: u32, b: u32) -> (r: u32)
    requires
        ctx_wf(*old(ctx)),
        ctx_has(*old(ctx), a),
        ctx_has(*old(ctx), b),
        bv_width_of(*old(ctx), a).is_some(),
        bv_width_of(*old(ctx), a) == bv_width_of(*old(ctx), b),
    ensures
        ctx_wf(*final(ctx)),
        ctx_has(*final(ctx), r),
        a < r && b < r,
        ctx_nodes(*final(ctx)) =~= ctx_nodes(*old(ctx)).insert(
            r,
            IrNode::And(a, b, bv_width_of(*old(ctx), a)->Some_0),
        ),
        ctx_has(*old(ctx), r) ==> ctx_nodes(*old(ctx))[r] == IrNode::And(
            a,
            b,
            bv_width_of(*old(ctx), a)->Some_0,
        ),
        forall|x: u32| x != r ==> bv_width_of(*final(ctx), x) == bv_width_of(*old(ctx), x),
        bv_width_of(*final(ctx), r) == bv_width_of(*old(ctx), a),
        forall|x: u32| sym_name_of(*final(ctx), x) == sym_name_of(*old(ctx), x),
        forall|s: TransitionSystem|
            #[trigger] sys_closed(*old(ctx), s) ==> sys_closed(*final(ctx), s),
{
    usize::from(ctx.and(ExprRef::from(a as usize), ExprRef::from(b as usize))) as u32
}

/// Relies on the `constraints` list of `TransitionSystem`.
#[verifier::external_body]
pub fn get_constraints(sys: &TransitionSystem) -> (r: Vec<u32>)
    ensures
        r@ == sys_constraints(*sys),
{
    sys.constraints.iter().map(|e| usize::from(*e) as u32).collect()
}

/// Relies on the `bad_states` list of `TransitionSystem`.
#[verifier::external_body]
pub fn get_bads(sys: &TransitionSystem) -> (r: Vec<u32>)
    ensures
        r@ == sys_bads(*sys),
{
    sys.bad_states.iter().map(|e| usize::from(*e) as u32).collect()
}

/// Relies on the `inputs` list of `TransitionSystem`.
#[verifier::external_body]
pub fn get_inputs(sys: &TransitionSystem) -> (r: Vec<u32>)
    ensures
        r@ == sys_inputs(*sys),
{
    sys.inputs.iter().map(|e| usize::from(*e) as u32).collect()
}

/// Relies on the `states` list of `TransitionSystem`.
#[verifier::external_body]
pub fn get_states(sys: &TransitionSystem) -> (r: Vec<StateInfo>)
    ensures
        r@ == sys_states(*sys),
{
    sys.states
        .iter()
        .map(
            |s| StateInfo {
                symbol: usize::from(s.symbol) as u32,
                init: s.init.map(|e| usize::from(e) as u32),
                next: s.next.map(|e| usize::from(e) as u32),
            },
        )
        .collect()
}

/// The symbols of the system's states, as a set.
pub open spec fn state_symbol_set(sys: TransitionSystem) -> Set<u32> {
    Set::new(|s: u32| exists|i: int| 0 <= i < sys_states(sys).len() && sys_states(sys)[i].symbol == s)
}

/// Relies on `cone_of_influence_init`: the free-symbol leaves that `root`
/// depends on during initialization (traversing the states' initial-value
/// expressions).  Every leaf is a state symbol or an input of the system.
/// The walk indexes the context with every handle it meets, so the system
/// must be self-contained.
#[verifier::external_body]
pub fn coi_init(ctx: &Context, sys: &TransitionSystem, root: u32) -> (r: Vec<u32>)
    requires
        ctx_wf(*ctx),
        sys_closed(*ctx, *sys),
        ctx_has(*ctx, root),
    ensures
        r@ == coi_init_of(*ctx, *sys, root),
        forall|i: int|
            0 <= i < r@.len() ==> state_symbol_set(*sys).contains(r@[i]) || sys_inputs(
                *sys,
            ).contains(r@[i]),
{
    patronus::system::analysis::cone_of_influence_init(ctx, sys, ExprRef::from(root as usize))
        .into_iter()
        .map(|e| usize::from(e) as u32)
        .collect()
}

/// Relies on `cone_of_influence_comb`: the free-symbol leaves that `root`
/// depends on combinationally (states appear as opaque leaves).  Every leaf
/// is a state symbol or an input of the system.  The walk indexes the
/// context with every handle it meets, so the system must be self-contained.
#[verifier::external_body]
pub fn coi_comb(ctx: &Context, sys: &TransitionSystem, root: u32) -> (r: Vec<u32>)
    requires
        ctx_wf(*ctx),
        sys_closed(*ctx, *sys),
        ctx_has(*ctx, root),
    ensures
        r@ == coi_comb_of(*ctx, *sys, root),
        forall|i: int|
            0 <= i < r@.len() ==> state_symbol_set(*sys).contains(r@[i]) || sys_inputs(
                *sys,
            ).contains(r@[i]),
{
    patronus::system::analysis::cone_of_influence_comb(ctx, sys, ExprRef::from(root as usize))
        .into_iter()
        .map(|e| usize::from(e) as u32)
        .collect()
}

/// Truth of an expression under an interpretation `env` of its atoms.
///
/// Width-1 `and`, `or` and `not` nodes are interpreted as the boolean
/// connectives over their children; every other node is an atom whose truth
/// the interpretation supplies.  Recursion is well-founded because interned
/// children have smaller handles.
pub open spec fn eval(ctx: Context, env: Map<u32, bool>, e: u32) -> bool
    decreases e,
{
    if ctx_nodes(ctx).dom().contains(e) {
        match ctx_nodes(ctx)[e] {
            IrNode::And(a, b, w) => if w == 1 && a < e && b < e {
                eval(ctx, env, a) && eval(ctx, env, b)
            } else {
                env[e]
            },
            IrNode::Or(a, b, w) => if w == 1 && a < e && b < e {
                eval(ctx, env, a) || eval(ctx, env, b)
            } else {
                env[e]
            },
            IrNode::Not(a, w) => if w == 1 && a < e {
                !eval(ctx, env, a)
            } else {
                env[e]
            },
            IrNode::Other => env[e],
        }
    } else {
        env[e]
    }
}

/// Interning more nodes does not change the truth of expressions that were
/// already present: evaluation only consults the node map at handles that
/// the old context already held.
pub proof fn lemma_eval_stable(ctx1: Context, ctx2: Context, env: Map<u32, bool>, e: u32)
    requires
        ctx_wf(ctx1),
        ctx_has(ctx1, e),
        forall|x: u32| #[trigger]
            ctx_nodes(ctx1).dom().contains(x) ==> ctx_nodes(ctx2).dom().contains(x) && ctx_nodes(
                ctx2,
            )[x] == ctx_nodes(ctx1)[x],
    ensures
        eval(ctx2, env, e) == eval(ctx1, env, e),
    decreases e,
{
    match ctx_nodes(ctx1)[e] {
        IrNode::And(a, b, w) => {
            if w == 1 && a < e && b < e {
                lemma_eval_stable(ctx1, ctx2, env, a);
                lemma_eval_stable(ctx1, ctx2, env, b);
            }
        },
        IrNode::Or(a, b, w) => {
            if w == 1 && a < e && b < e {
                lemma_eval_stable(ctx1, ctx2, env, a);
                lemma_eval_stable(ctx1, ctx2, env, b);
            }
        },
        IrNode::Not(a, w) => {
            if w == 1 && a < e {
                lemma_eval_stable(ctx1, ctx2, env, a);
            }
        },
        IrNode::Other => {},
    }
}

} // verus!
