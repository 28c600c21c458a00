//! The boundary to the external bit-precise simulator.
//!
//! The simulator (`patronus::sim::Interpreter`) owns clones of the context
//! and the system, stores concrete values for every state and input symbol,
//! and evaluates any expression of the system on demand.  Its stored values
//! and bookkeeping are abstracted by the uninterpreted functions below; the
//! trusted wrappers say how each call changes them, as far as the external
//! source shows it.

use vstd::prelude::*;

use patronus::expr::Context;
use patronus::expr::ExprRef;
use patronus::sim::InitKind;
use patronus::sim::Interpreter;
use patronus::sim::Simulator;
use patronus::system::TransitionSystem;
use baa::BitVecOps;

use crate::ir::{
    bv_width_of, coi_comb_of, scope_closed, state_symbol_set, sys_bads, sys_closed,
    sys_constraints, sys_inputs,
};

verus! {

#[verifier::external_type_specification]
#[verifier::external_body]
pub struct ExInterpreter(Interpreter);

/// The value words the simulator yields for an expression: `None` for
/// array-typed expressions, otherwise the little-endian 64-bit words of the
/// bit-vector value.
pub uninterp spec fn sim_word(sim: Interpreter, e: u32) -> Option<Seq<u64>>;

/// The bit-vector width the simulator's context assigns to an expression.
pub uninterp spec fn sim_width(sim: Interpreter, e: u32) -> Option<u32>;

/// How many snapshots the simulator holds.
pub uninterp spec fn sim_snaps(sim: Interpreter) -> nat;

/// Whether snapshot `id` was taken of initialized data.
pub uninterp spec fn sim_snap_ready(sim: Interpreter, id: u32) -> bool;

/// Whether every state and input of the simulator's system has a stored
/// value, so that evaluation of the system's expressions is defined.
pub uninterp spec fn sim_ready(sim: Interpreter) -> bool;

/// The expressions of the system the simulator was built for: what may be
/// evaluated.
pub uninterp spec fn sim_scope(sim: Interpreter) -> Set<u32>;

/// The state and input symbols of the simulator's system: what may be
/// assigned.
pub uninterp spec fn sim_symbols(sim: Interpreter) -> Set<u32>;

/// Whether the simulator's cloned system is self-contained in its cloned
/// context, so that initialization and stepping evaluate only interned
/// expressions over defined symbols.
pub uninterp spec fn sim_closed(sim: Interpreter) -> bool;

/// The symbols an expression's value depends on: the combinational cone of
/// influence, per the simulator's cloned context and system.
pub uninterp spec fn sim_dep(sim: Interpreter, e: u32) -> Set<u32>;

/// The top-level expressions of a system: constraints, bad predicates,
/// inputs and state symbols.
pub open spec fn sys_scope(sys: TransitionSystem) -> Set<u32> {
    Set::new(
        |e: u32|
            sys_constraints(sys).contains(e) || sys_bads(sys).contains(e) || sys_inputs(
                sys,
            ).contains(e) || state_symbol_set(sys).contains(e),
    )
}

/// The assignable symbols of a system: inputs and state symbols.
pub open spec fn sys_symbols(sys: TransitionSystem) -> Set<u32> {
    Set::new(|e: u32| sys_inputs(sys).contains(e) || state_symbol_set(sys).contains(e))
}

/// What every simulator call leaves unchanged: the system it was built for,
/// the widths of its context, its snapshot count and the readiness of the
/// snapshots it holds.
pub open spec fn sim_frame(s1: Interpreter, s2: Interpreter) -> bool {
    sim_scope(s2) == sim_scope(s1) && sim_symbols(s2) == sim_symbols(s1) && (forall|e: u32|
        #[trigger] sim_width(s2, e) == sim_width(s1, e)) && sim_snaps(s2) == sim_snaps(s1) && (
    forall|id: u32| #[trigger] sim_snap_ready(s2, id) == sim_snap_ready(s1, id)) && sim_closed(s2)
        == sim_closed(s1) && (forall|e: u32| #[trigger] sim_dep(s2, e) == sim_dep(s1, e))
}

/// Relies on `Interpreter::new`: the simulator clones the context and the
/// system, stores no values yet and holds no snapshots.  Because the system
/// is self-contained, the evaluable set covers the system's own expressions
/// and is closed under taking children and negations, and each expression's
/// value depends only on its combinational cone of influence.
#[verifier::external_body]
pub fn sim_new(ctx: &Context, sys: &TransitionSystem) -> (r: Interpreter)
    requires
        sys_closed(*ctx, *sys),
    ensures
        sim_closed(r),
        forall|e: u32| sys_scope(*sys).contains(e) ==> #[trigger] sim_scope(r).contains(e),
        scope_closed(*ctx, sim_scope(r)),
        sim_symbols(r) == sys_symbols(*sys),
        sim_snaps(r) == 0,
        forall|e: u32| #[trigger] sim_width(r, e) == bv_width_of(*ctx, e),
        forall|e: u32| #[trigger] sim_dep(r, e) == coi_comb_of(*ctx, *sys, e).to_set(),
{
    Interpreter::new(ctx, sys)
}

/// Relies on `Simulator::init` with `InitKind::Zero`: defines every state
/// and input of the system (states to zero, then computed initial values,
/// which must refer only to the system's own symbols), leaving snapshots
/// untouched.
#[verifier::external_body]
pub fn sim_init_zero(sim: &mut Interpreter)
    requires
        sim_closed(*old(sim)),
    ensures
        sim_ready(*final(sim)),
        sim_frame(*old(sim), *final(sim)),
{
    sim.init(InitKind::Zero);
}

/// Relies on `Simulator::step`: evaluates every state's next expression and
/// stores the results; inputs and snapshots are untouched.
#[verifier::external_body]
pub fn sim_step(sim: &mut Interpreter)
    requires
        sim_ready(*old(sim)),
        sim_closed(*old(sim)),
    ensures
        sim_ready(*final(sim)),
        sim_frame(*old(sim), *final(sim)),
{
    sim.step();
}

/// Relies on `Simulator::set`: overwrites the stored value of one symbol;
/// every other symbol keeps its stored value, and so does every evaluable
/// expression whose combinational cone does not contain the symbol
/// (evaluation reads stored values only at the cone's symbols).
#[verifier::external_body]
pub fn sim_set_word(sim: &mut Interpreter, e: u32, value: u64, width: u32)
    requires
        sim_ready(*old(sim)),
        sim_symbols(*old(sim)).contains(e),
        sim_width(*old(sim), e) == Some(width),
        1 <= width <= 64,
        width == 64 || value < (1u64 << width),
    ensures
        sim_ready(*final(sim)),
        sim_frame(*old(sim), *final(sim)),
        sim_word(*final(sim), e) == Some(seq![value]),
        forall|s: u32|
            s != e && sim_symbols(*old(sim)).contains(s) ==> #[trigger] sim_word(*final(sim), s)
                == sim_word(*old(sim), s),
        forall|x: u32|
            sim_scope(*old(sim)).contains(x) && !sim_dep(*old(sim), x).contains(e)
                ==> #[trigger] sim_word(*final(sim), x) == sim_word(*old(sim), x),
{
    let words = [value];
    sim.set(
        ExprRef::from(e as usize),
        baa::BitVecValueRef::new(&words, width),
    );
}

/// Relies on `Simulator::get`: evaluates an expression of the system over
/// the stored values; a bit-vector value of width `w` comes back as its
/// `ceil(w / 64)` little-endian words, an array value as `None`.
#[verifier::external_body]
pub fn sim_get_words(sim: &Interpreter, e: u32) -> (r: Option<Vec<u64>>)
    requires
        sim_ready(*sim),
        sim_scope(*sim).contains(e),
    ensures
        match r {
            Some(v) => sim_word(*sim, e) == Some(v@),
            None => sim_word(*sim, e) == None::<Seq<u64>>,
        },
        match (r, sim_width(*sim, e)) {
            (Some(v), Some(w)) => v@.len() == ((w + 63) / 64) as nat,
            (None, Some(w)) => false,
            (_, None) => true,
        },
{
    match sim.get(ExprRef::from(e as usize)) {
        baa::Value::BitVec(v) => Some(v.words().to_vec()),
        baa::Value::Array(_) => None,
    }
}

/// Relies on `Simulator::take_snapshot`: clones the stored values onto the
/// snapshot list and returns their index.
#[verifier::external_body]
pub fn sim_take_snapshot(sim: &mut Interpreter) -> (id: u32)
    requires
        sim_snaps(*old(sim)) < u32::MAX,
    ensures
        id as nat == sim_snaps(*old(sim)),
        sim_snaps(*final(sim)) == sim_snaps(*old(sim)) + 1,
        sim_ready(*final(sim)) == sim_ready(*old(sim)),
        sim_snap_ready(*final(sim), id) == sim_ready(*old(sim)),
        forall|j: u32|
            j != id ==> #[trigger] sim_snap_ready(*final(sim), j) == sim_snap_ready(*old(sim), j),
        sim_scope(*final(sim)) == sim_scope(*old(sim)),
        sim_symbols(*final(sim)) == sim_symbols(*old(sim)),
        forall|e: u32| #[trigger] sim_width(*final(sim), e) == sim_width(*old(sim), e),
        forall|e: u32| #[trigger] sim_word(*final(sim), e) == sim_word(*old(sim), e),
        sim_closed(*final(sim)) == sim_closed(*old(sim)),
        forall|e: u32| #[trigger] sim_dep(*final(sim), e) == sim_dep(*old(sim), e),
{
    sim.take_snapshot()
}

/// Relies on `Simulator::restore_snapshot`: replaces the stored values with
/// a clone of the chosen snapshot; the snapshot list is untouched.
#[verifier::external_body]
pub fn sim_restore(sim: &mut Interpreter, id: u32)
    requires
        (id as nat) < sim_snaps(*old(sim)),
        sim_snap_ready(*old(sim), id),
    ensures
        sim_ready(*final(sim)),
        sim_frame(*old(sim), *final(sim)),
{
    sim.restore_snapshot(id);
}

} // verus!
