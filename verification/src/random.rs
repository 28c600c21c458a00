//! Random testing: per-cluster rejection sampling of inputs drives a
//! bit-precise simulator in bounded episodes, looking for a cycle in which a
//! bad predicate holds.  On a hit, the episode is replayed with the saved
//! generator state to record the witness.

use vstd::prelude::*;

use crate::constraints::{
    all_in, analyze_constraints, atom_leaves, cluster_supports, cluster_symbol, constraints_wf,
    ctx_extends, ConstraintCluster,
};
use crate::ir::{bv_width_of, coi_comb_of, ctx_bv_width, ctx_has, ctx_wf, get_bads, get_inputs,
    get_states, scope_closed, state_symbol_set, sys_bads, sys_closed, sys_constraints, sys_inputs,
    sys_states, StateInfo,
};
use crate::rng::{spec_in_range, spec_next_out, spec_next_state, Xoshiro256};
use crate::sim::{
    sim_closed, sim_dep, sim_frame, sim_get_words, sim_init_zero, sim_new, sim_ready, sim_restore,
    sim_scope, sim_set_word, sim_snap_ready, sim_snaps, sim_step, sim_symbols, sim_take_snapshot,
    sim_width, sim_word, sys_scope, sys_symbols,
};
use crate::witness::{state_words_from, words_for, ModelCheckResult, Witness};
use crate::StepInt;
use patronus::expr::Context;
use patronus::sim::Interpreter;
use patronus::system::TransitionSystem;

verus! {

/// Options of the randomized search.
#[derive(Debug, Copy, Clone)]
pub struct RandomOptions {
    /// Bound for searching for a small counter example.
    pub small_k: u64,
    /// Maximum episode length to try.
    pub large_k: u64,
    /// Probability of sampling a large instead of a small episode bound,
    /// in units of 2^-64 (0 means never).
    pub large_k_prob: u64,
    /// Maximum number of cycles to execute before giving up.
    pub max_cycles: Option<u64>,
}

/// A word vector holding the bit-vector value 1.
pub open spec fn words_one(v: Seq<u64>) -> bool {
    v.len() >= 1 && v[0] == 1 && (forall|i: int| 1 <= i < v.len() ==> v[i] == 0)
}

/// The simulator evaluates `e` to the bit-vector value 1.
pub open spec fn sim_true(sim: Interpreter, e: u32) -> bool {
    match sim_word(sim, e) {
        Some(v) => words_one(v),
        None => false,
    }
}

/// The simulator's widths agree with the context's (it was built from it).
pub open spec fn sim_linked(ctx: Context, sim: Interpreter) -> bool {
    forall|e: u32| #[trigger] sim_width(sim, e) == bv_width_of(ctx, e)
}

/// The simulator can evaluate every top-level expression of the system.
pub open spec fn sim_covers(sim: Interpreter, sys: TransitionSystem) -> bool {
    forall|e: u32| sys_scope(sys).contains(e) ==> #[trigger] sim_scope(sim).contains(e)
}

/// `e` is an assignable symbol whose value can be drawn as one 64-bit word.
pub open spec fn samplable(ctx: Context, sim: Interpreter, e: u32) -> bool {
    sim_symbols(sim).contains(e) && match bv_width_of(ctx, e) {
        Some(w) => 1 <= w <= 64,
        None => false,
    }
}

/// The sampling preconditions of one cluster: its inputs can be drawn and
/// its constraint expressions can be evaluated.
pub open spec fn cluster_sampling_ok(ctx: Context, sim: Interpreter, c: ConstraintCluster) -> bool {
    (forall|i: int|
        0 <= i < c.inputs_seq().len() ==> samplable(ctx, sim, #[trigger] c.inputs_seq()[i])) && (
    forall|i: int|
        0 <= i < c.exprs_seq().len() ==> sim_scope(sim).contains(#[trigger] c.exprs_seq()[i]))
}

/// `s` is drawn during input sampling: an input of some cluster, or an
/// unconstrained input.
pub open spec fn sampled_sym(
    clusters: Seq<ConstraintCluster>,
    unconstrained: Seq<u32>,
    s: u32,
) -> bool {
    (exists|k: int| 0 <= k < clusters.len() && (#[trigger] clusters[k].inputs_seq().contains(s)))
        || unconstrained.contains(s)
}

/// The symbol holds a single word that fits its declared width.
pub open spec fn holds_drawn(ctx: Context, sim: Interpreter, s: u32) -> bool {
    match bv_width_of(ctx, s) {
        Some(w) => match sim_word(sim, s) {
            Some(v) => v.len() == 1 && (w < 64 ==> v[0] < (1u64 << w)),
            None => false,
        },
        None => false,
    }
}

/// Cluster independence: no two clusters share an input, no cluster input is
/// also sampled as unconstrained, and no cluster constraint depends on a
/// sampled symbol outside the cluster's own inputs.  Under this, sampling
/// one cluster cannot disturb another cluster's accepted constraints.
pub open spec fn clusters_independent(
    ctx: Context,
    sim: Interpreter,
    clusters: Seq<ConstraintCluster>,
    unconstrained: Seq<u32>,
) -> bool {
    (forall|k1: int, k2: int, s: u32|
        0 <= k1 < clusters.len() && 0 <= k2 < clusters.len() && k1 != k2 ==> !(#[trigger] clusters[
        k1].inputs_seq().contains(s) && #[trigger] clusters[k2].inputs_seq().contains(s))) && (
    forall|k: int, s: u32|
        0 <= k < clusters.len() && #[trigger] clusters[k].inputs_seq().contains(s)
            ==> !unconstrained.contains(s)) && (forall|k: int, x: u32, s: u32|
        0 <= k < clusters.len() && #[trigger] clusters[k].exprs_seq().contains(x)
            && #[trigger] sim_dep(sim, x).contains(s) && sampled_sym(clusters, unconstrained, s)
            ==> clusters[k].inputs_seq().contains(s))
}

/// Independence only reads the dependence cones, which every simulator call
/// preserves.
proof fn lemma_independent_frame(
    ctx: Context,
    s1: Interpreter,
    s2: Interpreter,
    clusters: Seq<ConstraintCluster>,
    unconstrained: Seq<u32>,
)
    requires
        clusters_independent(ctx, s1, clusters, unconstrained),
        forall|e: u32| #[trigger] sim_dep(s2, e) == sim_dep(s1, e),
    ensures
        clusters_independent(ctx, s2, clusters, unconstrained),
{
    assert forall|k: int, x: u32, s: u32|
        0 <= k < clusters.len() && #[trigger] clusters[k].exprs_seq().contains(x)
            && #[trigger] sim_dep(s2, x).contains(s) && sampled_sym(
        clusters,
        unconstrained,
        s,
    ) implies clusters[k].inputs_seq().contains(s) by {
        assert(sim_dep(s1, x).contains(s));
    }
}

/// The low `width` bits of a drawn word.
pub open spec fn spec_masked(w: u64, width: u32) -> u64 {
    if width == 64 {
        w
    } else {
        w & (((1u64 << width) - 1) as u64)
    }
}

/// The words that the system's inputs contribute to one recorded cycle.
pub open spec fn rec_input_words(ctx: Context, inputs: Seq<u32>, i: int) -> nat
    decreases inputs.len() - i,
{
    if 0 <= i < inputs.len() {
        words_for(bv_width_of(ctx, inputs[i])->Some_0) + rec_input_words(ctx, inputs, i + 1)
    } else {
        0
    }
}

/// Draws a uniform value for one symbol, masked to its width, and writes it
/// to the simulator.  The value written is below `2^width`, and every other
/// symbol keeps its value.
pub fn randomize_symbol(ctx: &Context, rng: &mut Xoshiro256, symbol: u32, sim: &mut Interpreter)
    requires
        ctx_wf(*ctx),
        ctx_has(*ctx, symbol),
        sim_ready(*old(sim)),
        sim_linked(*ctx, *old(sim)),
        samplable(*ctx, *old(sim), symbol),
    ensures
        sim_ready(*final(sim)),
        sim_frame(*old(sim), *final(sim)),
        *final(rng) == spec_next_state(*old(rng)),
        ({
            let w = bv_width_of(*ctx, symbol)->Some_0;
            let v = spec_masked(spec_next_out(*old(rng)), w);
            sim_word(*final(sim), symbol) == Some(seq![v]) && (w < 64 ==> v < (1u64 << w))
        }),
        forall|s: u32|
            s != symbol && sim_symbols(*old(sim)).contains(s) ==> #[trigger] sim_word(
                *final(sim),
                s,
            ) == sim_word(*old(sim), s),
        forall|x: u32|
            sim_scope(*old(sim)).contains(x) && !sim_dep(*old(sim), x).contains(symbol)
                ==> #[trigger] sim_word(*final(sim), x) == sim_word(*old(sim), x),
{
    let width = match ctx_bv_width(ctx, symbol) {
        Some(w) => w,
        None => {
            proof {
                assert(false);
            }
            1
        },
    };
    let draw = rng.next_u64();
    let value = if width == 64 {
        draw
    } else {
        proof {
            assert((draw & (((1u64 << width) - 1) as u64)) < (1u64 << width)) by (bit_vector)
                requires
                    0 < width < 64,
            ;
        }
        draw & ((1u64 << width) - 1)
    };
    sim_set_word(sim, symbol, value, width);
}

/// Whether a word vector holds the bit-vector value 1.
fn words_is_one(v: &Vec<u64>) -> (r: bool)
    ensures
        r == words_one(v@),
{
    if v.len() == 0 {
        return false;
    }
    if v[0] != 1 {
        return false;
    }
    let mut i: usize = 1;
    while i < v.len()
        invariant
            1 <= i <= v@.len(),
            v@[0] == 1,
            forall|j: int| 1 <= j < i ==> v@[j] == 0,
        decreases v.len() - i,
    {
        if v[i] != 0 {
            return false;
        }
        i = i + 1;
    }
    true
}

/// Whether every expression in the list currently evaluates to 1.
fn check_exprs_true(exprs: &Vec<u32>, sim: &Interpreter) -> (r: bool)
    requires
        sim_ready(*sim),
        forall|i: int| 0 <= i < exprs@.len() ==> sim_scope(*sim).contains(#[trigger] exprs@[i]),
    ensures
        r == (forall|i: int| 0 <= i < exprs@.len() ==> sim_true(*sim, #[trigger] exprs@[i])),
{
    let mut i: usize = 0;
    while i < exprs.len()
        invariant
            i <= exprs@.len(),
            sim_ready(*sim),
            forall|j: int| 0 <= j < exprs@.len() ==> sim_scope(*sim).contains(#[trigger] exprs@[j]),
            forall|j: int| 0 <= j < i ==> sim_true(*sim, #[trigger] exprs@[j]),
        decreases exprs.len() - i,
    {
        let words = sim_get_words(sim, exprs[i]);
        let ok = match &words {
            Some(v) => words_is_one(v),
            None => false,
        };
        if !ok {
            return false;
        }
        i = i + 1;
    }
    true
}

/// The indices of the bad predicates that currently hold, in ascending
/// order: exactly those whose expression evaluates to 1.
pub fn check_for_bad_states(bads: &Vec<u32>, sim: &Interpreter) -> (out: Vec<usize>)
    requires
        sim_ready(*sim),
        forall|i: int| 0 <= i < bads@.len() ==> sim_scope(*sim).contains(#[trigger] bads@[i]),
    ensures
        forall|q1: int, q2: int| 0 <= q1 < q2 < out@.len() ==> out@[q1] < out@[q2],
        forall|q: int| 0 <= q < out@.len() ==> #[trigger] out@[q] < bads@.len(),
        forall|i: int|
            0 <= i < bads@.len() ==> (out@.contains(i as usize) <==> sim_true(
                *sim,
                #[trigger] bads@[i],
            )),
{
    let mut out: Vec<usize> = Vec::new();
    let mut i: usize = 0;
    while i < bads.len()
        invariant
            i <= bads@.len(),
            sim_ready(*sim),
            forall|j: int| 0 <= j < bads@.len() ==> sim_scope(*sim).contains(#[trigger] bads@[j]),
            forall|q1: int, q2: int| 0 <= q1 < q2 < out@.len() ==> out@[q1] < out@[q2],
            forall|q: int| 0 <= q < out@.len() ==> #[trigger] out@[q] < i,
            forall|j: int|
                0 <= j < i ==> (out@.contains(j as usize) <==> sim_true(*sim, #[trigger] bads@[j])),
        decreases bads.len() - i,
    {
        let ghost pre = out@;
        let words = sim_get_words(sim, bads[i]);
        let is_bad = match &words {
            Some(v) => words_is_one(v),
            None => false,
        };
        if is_bad {
            out.push(i);
        }
        proof {
            assert forall|j: int|
                0 <= j < i + 1 implies (out@.contains(j as usize) <==> sim_true(
                *sim,
                #[trigger] bads@[j],
            )) by {
                if is_bad {
                    assert(out@ == pre.push(i));
                    if out@.contains(j as usize) {
                        let q = choose|q: int| 0 <= q < out@.len() && #[trigger] out@[q] == j as usize;
                        if q < pre.len() {
                            assert(pre.contains(j as usize));
                        }
                    }
                    if j < i && sim_true(*sim, bads@[j]) {
                        let q = choose|q: int| 0 <= q < pre.len() && #[trigger] pre[q] == j as usize;
                        assert(out@[q] == j as usize);
                    }
                    if j == i {
                        assert(out@[out@.len() - 1] == i);
                    }
                } else {
                    if j == i {
                        assert(!out@.contains(i as usize)) by {
                            if out@.contains(i as usize) {
                                let q = choose|q: int|
                                    0 <= q < out@.len() && #[trigger] out@[q] == i as usize;
                            }
                        }
                    }
                }
            }
        }
        i = i + 1;
    }
    out
}

/// Rejection sampling: per cluster, draw every cluster input and accept when
/// all cluster constraints evaluate to 1, retrying on rejection; afterwards
/// draw every unconstrained input once (no rejection test applies to them).
/// Returns `false` when a cluster exhausts its retry budget (the constraints
/// could not be satisfied).
///
/// On success every cluster constraint evaluates to 1: accepted clusters
/// stay satisfied, because under `clusters_independent` later draws never
/// touch a symbol their constraints depend on.  Every sampled symbol ends up
/// holding a single word below two to its width, and every other symbol
/// keeps its value.
pub fn randomize_inputs(
    ctx: &Context,
    rng: &mut Xoshiro256,
    clusters: &Vec<ConstraintCluster>,
    unconstrained: &Vec<u32>,
    sim: &mut Interpreter,
) -> (ok: bool)
    requires
        ctx_wf(*ctx),
        sim_ready(*old(sim)),
        sim_linked(*ctx, *old(sim)),
        clusters_independent(*ctx, *old(sim), clusters@, unconstrained@),
        forall|k: int|
            0 <= k < clusters@.len() ==> cluster_sampling_ok(*ctx, *old(sim), #[trigger] clusters@[k]),
        forall|i: int|
            0 <= i < unconstrained@.len() ==> ctx_has(*ctx, #[trigger] unconstrained@[i])
                && samplable(*ctx, *old(sim), unconstrained@[i]),
        forall|k: int, i: int|
            0 <= k < clusters@.len() && 0 <= i < clusters@[k].inputs_seq().len() ==> ctx_has(
                *ctx,
                #[trigger] clusters@[k].inputs_seq()[i],
            ),
    ensures
        sim_ready(*final(sim)),
        sim_frame(*old(sim), *final(sim)),
        clusters@.len() == 0 ==> ok,
        ok ==> (forall|k: int, i: int|
            0 <= k < clusters@.len() && 0 <= i < clusters@[k].exprs_seq().len() ==> sim_true(
                *final(sim),
                #[trigger] clusters@[k].exprs_seq()[i],
            )),
        ok ==> (forall|s: u32|
            #[trigger] sampled_sym(clusters@, unconstrained@, s) ==> holds_drawn(
                *ctx,
                *final(sim),
                s,
            )),
        forall|s: u32|
            sim_symbols(*old(sim)).contains(s) && !sampled_sym(clusters@, unconstrained@, s)
                ==> #[trigger] sim_word(*final(sim), s) == sim_word(*old(sim), s),
{
    let ghost sim0 = *sim;
    let mut ci: usize = 0;
    while ci < clusters.len()
        invariant
            ci <= clusters@.len(),
            sim0 == *old(sim),
            ctx_wf(*ctx),
            sim_ready(*sim),
            sim_frame(sim0, *sim),
            sim_linked(*ctx, *sim),
            clusters_independent(*ctx, sim0, clusters@, unconstrained@),
            forall|k: int|
                0 <= k < clusters@.len() ==> cluster_sampling_ok(*ctx, sim0, #[trigger] clusters@[k]),
            forall|i: int|
                0 <= i < unconstrained@.len() ==> ctx_has(*ctx, #[trigger] unconstrained@[i])
                    && samplable(*ctx, sim0, unconstrained@[i]),
            forall|k: int, i: int|
                0 <= k < clusters@.len() && 0 <= i < clusters@[k].inputs_seq().len() ==> ctx_has(
                    *ctx,
                    #[trigger] clusters@[k].inputs_seq()[i],
                ),
            forall|k: int, i: int|
                0 <= k < ci && 0 <= i < clusters@[k].exprs_seq().len() ==> sim_true(
                    *sim,
                    #[trigger] clusters@[k].exprs_seq()[i],
                ),
            forall|s: u32|
                (exists|k: int|
                    0 <= k < ci && (#[trigger] clusters@[k].inputs_seq().contains(s)))
                    ==> holds_drawn(*ctx, *sim, s),
            forall|s: u32|
                sim_symbols(sim0).contains(s) && !sampled_sym(clusters@, unconstrained@, s)
                    ==> #[trigger] sim_word(*sim, s) == sim_word(sim0, s),
        decreases clusters.len() - ci,
    {
        let cluster = &clusters[ci];
        let mut satisfied = false;
        let mut retries: u64 = u64::MAX;
        while !satisfied && retries > 0
            invariant
                ci < clusters@.len(),
                cluster == clusters@[ci as int],
                sim0 == *old(sim),
                ctx_wf(*ctx),
                sim_ready(*sim),
                sim_frame(sim0, *sim),
                sim_linked(*ctx, *sim),
                clusters_independent(*ctx, sim0, clusters@, unconstrained@),
                forall|k: int|
                    0 <= k < clusters@.len() ==> cluster_sampling_ok(
                        *ctx,
                        sim0,
                        #[trigger] clusters@[k],
                    ),
                forall|k: int, i: int|
                    0 <= k < clusters@.len() && 0 <= i < clusters@[k].inputs_seq().len()
                        ==> ctx_has(*ctx, #[trigger] clusters@[k].inputs_seq()[i]),
                forall|k: int, i: int|
                    0 <= k < ci && 0 <= i < clusters@[k].exprs_seq().len() ==> sim_true(
                        *sim,
                        #[trigger] clusters@[k].exprs_seq()[i],
                    ),
                forall|s: u32|
                    (exists|k: int|
                        0 <= k < ci && (#[trigger] clusters@[k].inputs_seq().contains(s)))
                        ==> holds_drawn(*ctx, *sim, s),
                forall|s: u32|
                    sim_symbols(sim0).contains(s) && !sampled_sym(clusters@, unconstrained@, s)
                        ==> #[trigger] sim_word(*sim, s) == sim_word(sim0, s),
                satisfied ==> (forall|i: int|
                    0 <= i < clusters@[ci as int].exprs_seq().len() ==> sim_true(
                        *sim,
                        #[trigger] clusters@[ci as int].exprs_seq()[i],
                    )),
                satisfied ==> (forall|i: int|
                    0 <= i < clusters@[ci as int].inputs_seq().len() ==> holds_drawn(
                        *ctx,
                        *sim,
                        #[trigger] clusters@[ci as int].inputs_seq()[i],
                    )),
            decreases retries, (if satisfied {
                0int
            } else {
                1int
            }),
        {
            let inputs = cluster.inputs();
            let mut ii: usize = 0;
            while ii < inputs.len()
                invariant
                    ii <= inputs@.len(),
                    ci < clusters@.len(),
                    cluster == clusters@[ci as int],
                    inputs@ == cluster.inputs_seq(),
                    sim0 == *old(sim),
                    ctx_wf(*ctx),
                    sim_ready(*sim),
                    sim_frame(sim0, *sim),
                    sim_linked(*ctx, *sim),
                    clusters_independent(*ctx, sim0, clusters@, unconstrained@),
                    forall|k: int|
                        0 <= k < clusters@.len() ==> cluster_sampling_ok(
                            *ctx,
                            sim0,
                            #[trigger] clusters@[k],
                        ),
                    forall|k: int, i: int|
                        0 <= k < clusters@.len() && 0 <= i < clusters@[k].inputs_seq().len()
                            ==> ctx_has(*ctx, #[trigger] clusters@[k].inputs_seq()[i]),
                    forall|k: int, i: int|
                        0 <= k < ci && 0 <= i < clusters@[k].exprs_seq().len() ==> sim_true(
                            *sim,
                            #[trigger] clusters@[k].exprs_seq()[i],
                        ),
                    forall|s: u32|
                        (exists|k: int|
                            0 <= k < ci && (#[trigger] clusters@[k].inputs_seq().contains(s)))
                            ==> holds_drawn(*ctx, *sim, s),
                    forall|s: u32|
                        sim_symbols(sim0).contains(s) && !sampled_sym(clusters@, unconstrained@, s)
                            ==> #[trigger] sim_word(*sim, s) == sim_word(sim0, s),
                    forall|q: int|
                        0 <= q < ii ==> holds_drawn(*ctx, *sim, #[trigger] inputs@[q]),
                decreases inputs.len() - ii,
            {
                let symbol = inputs[ii];
                proof {
                    assert(cluster_sampling_ok(*ctx, sim0, clusters@[ci as int]));
                    assert(samplable(*ctx, sim0, clusters@[ci as int].inputs_seq()[ii as int]));
                    assert(ctx_has(*ctx, clusters@[ci as int].inputs_seq()[ii as int]));
                    assert(sim_symbols(*sim) == sim_symbols(sim0));
                    assert(sampled_sym(clusters@, unconstrained@, symbol)) by {
                        assert(clusters@[ci as int].inputs_seq().contains(symbol));
                    }
                }
                let ghost pre_sim = *sim;
                randomize_symbol(ctx, rng, symbol, sim);
                proof {
                    lemma_frame_trans(sim0, pre_sim, *sim);
                    assert(exists|k: int|
                        0 <= k < clusters@.len() && ci as int <= k && (
                        #[trigger] clusters@[k].inputs_seq().contains(symbol))) by {
                        assert(clusters@[ci as int].inputs_seq().contains(symbol));
                    }
                    sampling_step_facts(
                        *ctx,
                        sim0,
                        pre_sim,
                        *sim,
                        clusters@,
                        unconstrained@,
                        ci as int,
                        symbol,
                    );
                    assert forall|q: int|
                        0 <= q <= ii implies holds_drawn(*ctx, *sim, #[trigger] inputs@[q]) by {
                        if inputs@[q] == symbol {
                            assert(holds_drawn(*ctx, *sim, symbol)) by {
                                assert(bv_width_of(*ctx, symbol) is Some);
                            }
                        } else {
                            assert(sim_symbols(pre_sim).contains(inputs@[q])) by {
                                assert(samplable(*ctx, sim0, clusters@[ci as int].inputs_seq()[q]));
                            }
                            assert(sim_word(*sim, inputs@[q]) == sim_word(pre_sim, inputs@[q]));
                        }
                    }
                }
                ii = ii + 1;
            }
            proof {
                assert(cluster_sampling_ok(*ctx, sim0, clusters@[ci as int]));
                assert(sim_scope(*sim) == sim_scope(sim0));
            }
            satisfied = check_exprs_true(cluster.exprs(), sim);
            if !satisfied {
                retries = retries - 1;
            }
        }
        if !satisfied {
            return false;
        }
        proof {
            assert forall|s: u32|
                (exists|k: int|
                    0 <= k < ci + 1 && (#[trigger] clusters@[k].inputs_seq().contains(s)))
                    implies holds_drawn(*ctx, *sim, s) by {
                let k = choose|k: int|
                    0 <= k < ci + 1 && (#[trigger] clusters@[k].inputs_seq().contains(s));
                if k == ci {
                    let q = choose|q: int|
                        0 <= q < clusters@[k].inputs_seq().len() && clusters@[k].inputs_seq()[q]
                            == s;
                    assert(holds_drawn(*ctx, *sim, clusters@[ci as int].inputs_seq()[q]));
                }
            }
        }
        ci = ci + 1;
    }
    let mut ui: usize = 0;
    while ui < unconstrained.len()
        invariant
            ui <= unconstrained@.len(),
            sim0 == *old(sim),
            ctx_wf(*ctx),
            sim_ready(*sim),
            sim_frame(sim0, *sim),
            sim_linked(*ctx, *sim),
            clusters_independent(*ctx, sim0, clusters@, unconstrained@),
            forall|k: int|
                0 <= k < clusters@.len() ==> cluster_sampling_ok(*ctx, sim0, #[trigger] clusters@[k]),
            forall|i: int|
                0 <= i < unconstrained@.len() ==> ctx_has(*ctx, #[trigger] unconstrained@[i])
                    && samplable(*ctx, sim0, unconstrained@[i]),
            forall|k: int, i: int|
                0 <= k < clusters@.len() && 0 <= i < clusters@[k].exprs_seq().len() ==> sim_true(
                    *sim,
                    #[trigger] clusters@[k].exprs_seq()[i],
                ),
            forall|s: u32|
                (exists|k: int|
                    0 <= k < clusters@.len() && (#[trigger] clusters@[k].inputs_seq().contains(s)))
                    ==> holds_drawn(*ctx, *sim, s),
            forall|q: int|
                0 <= q < ui ==> holds_drawn(*ctx, *sim, #[trigger] unconstrained@[q]),
            forall|s: u32|
                sim_symbols(sim0).contains(s) && !sampled_sym(clusters@, unconstrained@, s)
                    ==> #[trigger] sim_word(*sim, s) == sim_word(sim0, s),
        decreases unconstrained.len() - ui,
    {
        let symbol = unconstrained[ui];
        proof {
            assert(samplable(*ctx, sim0, unconstrained@[ui as int]));
            assert(sim_symbols(*sim) == sim_symbols(sim0));
            assert(sampled_sym(clusters@, unconstrained@, symbol)) by {
                assert(unconstrained@.contains(symbol)) by {
                    assert(unconstrained@[ui as int] == symbol);
                }
            }
        }
        let ghost pre_sim = *sim;
        randomize_symbol(ctx, rng, symbol, sim);
        proof {
            lemma_frame_trans(sim0, pre_sim, *sim);
            assert(unconstrained@.contains(symbol)) by {
                assert(unconstrained@[ui as int] == symbol);
            }
            sampling_step_facts(
                *ctx,
                sim0,
                pre_sim,
                *sim,
                clusters@,
                unconstrained@,
                clusters@.len() as int,
                symbol,
            );
            assert forall|q: int|
                0 <= q <= ui implies holds_drawn(*ctx, *sim, #[trigger] unconstrained@[q]) by {
                if unconstrained@[q] == symbol {
                    assert(holds_drawn(*ctx, *sim, symbol)) by {
                        assert(bv_width_of(*ctx, symbol) is Some);
                    }
                } else {
                    assert(sim_symbols(pre_sim).contains(unconstrained@[q])) by {
                        assert(samplable(*ctx, sim0, unconstrained@[q]));
                    }
                    assert(sim_word(*sim, unconstrained@[q]) == sim_word(pre_sim, unconstrained@[q]));
                }
            }
        }
        ui = ui + 1;
    }
    proof {
        assert forall|s: u32|
            #[trigger] sampled_sym(clusters@, unconstrained@, s) implies holds_drawn(
            *ctx,
            *sim,
            s,
        ) by {
            if !(exists|k: int|
                0 <= k < clusters@.len() && (#[trigger] clusters@[k].inputs_seq().contains(s))) {
                assert(unconstrained@.contains(s));
                let q = choose|q: int|
                    0 <= q < unconstrained@.len() && #[trigger] unconstrained@[q] == s;
                assert(holds_drawn(*ctx, *sim, unconstrained@[q]));
            }
        }
    }
    true
}

/// One sampling step preserves what earlier sampling established: accepted
/// clusters stay satisfied (the drawn symbol is outside their constraints'
/// cones), other clusters' drawn inputs keep their values, and untouched
/// symbols keep theirs.
proof fn sampling_step_facts(
    ctx: Context,
    sim0: Interpreter,
    s1: Interpreter,
    s2: Interpreter,
    clusters: Seq<ConstraintCluster>,
    unconstrained: Seq<u32>,
    upto: int,
    symbol: u32,
)
    requires
        clusters_independent(ctx, sim0, clusters, unconstrained),
        forall|k: int|
            0 <= k < clusters.len() ==> cluster_sampling_ok(ctx, sim0, #[trigger] clusters[k]),
        sampled_sym(clusters, unconstrained, symbol),
        sim_frame(sim0, s1),
        sim_frame(s1, s2),
        upto <= clusters.len(),
        forall|s: u32|
            s != symbol && sim_symbols(s1).contains(s) ==> #[trigger] sim_word(s2, s) == sim_word(
                s1,
                s,
            ),
        forall|x: u32|
            sim_scope(s1).contains(x) && !sim_dep(s1, x).contains(symbol) ==> #[trigger] sim_word(
                s2,
                x,
            ) == sim_word(s1, x),
        (exists|k: int|
            0 <= k < clusters.len() && upto <= k && (#[trigger] clusters[k].inputs_seq().contains(
                symbol,
            ))) || unconstrained.contains(symbol),
    ensures
        forall|k: int, i: int|
            0 <= k < upto && 0 <= i < clusters[k].exprs_seq().len() && sim_true(
                s1,
                #[trigger] clusters[k].exprs_seq()[i],
            ) ==> sim_true(s2, clusters[k].exprs_seq()[i]),
        forall|s: u32|
            s != symbol && (exists|k: int|
                0 <= k < clusters.len() && (#[trigger] clusters[k].inputs_seq().contains(s)))
                && holds_drawn(ctx, s1, s) ==> holds_drawn(ctx, s2, s),
        forall|s: u32|
            s != symbol && sim_symbols(sim0).contains(s) ==> #[trigger] sim_word(s2, s) == sim_word(
                s1,
                s,
            ),
{
    assert forall|k: int, i: int|
        0 <= k < upto && 0 <= i < clusters[k].exprs_seq().len() && sim_true(
        s1,
        #[trigger] clusters[k].exprs_seq()[i],
    ) implies sim_true(s2, clusters[k].exprs_seq()[i]) by {
        let x = clusters[k].exprs_seq()[i];
        assert(cluster_sampling_ok(ctx, sim0, clusters[k]));
        assert(sim_scope(sim0).contains(x));
        assert(sim_scope(s1) == sim_scope(sim0));
        assert(clusters[k].exprs_seq().contains(x));
        assert(!sim_dep(sim0, x).contains(symbol)) by {
            if sim_dep(sim0, x).contains(symbol) {
                assert(clusters[k].inputs_seq().contains(symbol));
                if exists|kk: int|
                    0 <= kk < clusters.len() && upto <= kk && (
                    #[trigger] clusters[kk].inputs_seq().contains(symbol)) {
                    let kk = choose|kk: int|
                        0 <= kk < clusters.len() && upto <= kk && (
                        #[trigger] clusters[kk].inputs_seq().contains(symbol));
                    assert(kk != k);
                    assert(false);
                } else {
                    assert(unconstrained.contains(symbol));
                    assert(false);
                }
            }
        }
        assert(sim_dep(s1, x) == sim_dep(sim0, x));
        assert(sim_word(s2, x) == sim_word(s1, x));
    }
    assert forall|s: u32|
        s != symbol && (exists|k: int|
            0 <= k < clusters.len() && (#[trigger] clusters[k].inputs_seq().contains(s)))
            && holds_drawn(ctx, s1, s) implies holds_drawn(ctx, s2, s) by {
        let k = choose|k: int|
            0 <= k < clusters.len() && (#[trigger] clusters[k].inputs_seq().contains(s));
        let q = choose|q: int|
            0 <= q < clusters[k].inputs_seq().len() && clusters[k].inputs_seq()[q] == s;
        assert(cluster_sampling_ok(ctx, sim0, clusters[k]));
        assert(samplable(ctx, sim0, clusters[k].inputs_seq()[q]));
        assert(sim_symbols(s1) == sim_symbols(sim0));
        assert(sim_word(s2, s) == sim_word(s1, s));
    }
    assert forall|s: u32|
        s != symbol && sim_symbols(sim0).contains(s) implies #[trigger] sim_word(s2, s)
        == sim_word(s1, s) by {
        assert(sim_symbols(s1) == sim_symbols(sim0));
    }
}

/// The simulator frame relation is transitive.
proof fn lemma_frame_trans(s1: Interpreter, s2: Interpreter, s3: Interpreter)
    requires
        sim_frame(s1, s2),
        sim_frame(s2, s3),
    ensures
        sim_frame(s1, s3),
{
}

/// Samples the episode length: with probability `large_k_prob / 2^64` a
/// bound in `[small_k, large_k]`, otherwise one in `[1, small_k]`.  The
/// result and the generator's new state are functions of its old state, so
/// a run can be replayed exactly.
pub fn sample_k_max(rng: &mut Xoshiro256, opts: &RandomOptions) -> (r: u64)
    requires
        1 <= opts.small_k <= opts.large_k,
    ensures
        1 <= r <= opts.large_k,
        ({
            let w = spec_next_out(*old(rng));
            let s1 = spec_next_state(*old(rng));
            *final(rng) == spec_next_state(s1) && r == (if w < opts.large_k_prob {
                spec_in_range(spec_next_out(s1), opts.small_k, opts.large_k)
            } else {
                spec_in_range(spec_next_out(s1), 1, opts.small_k)
            })
        }),
{
    let w = rng.next_u64();
    let pick_large = w < opts.large_k_prob;
    if pick_large {
        rng.next_in_range(opts.small_k, opts.large_k)
    } else {
        rng.next_in_range(1, opts.small_k)
    }
}

} // verus!
verus! {

/// What the search asks of the system: it is self-contained in the context,
/// no symbol is both a state and an input, every constraint is a 1-bit
/// expression, every bad predicate is interned, every input is a bit vector
/// of at most 64 bits, and every state symbol is interned, with a bit-vector
/// width wherever the state has no computed initial value.
pub open spec fn searchable(ctx: Context, sys: TransitionSystem) -> bool {
    sys_closed(ctx, sys) && (forall|s: u32|
        !(#[trigger] state_symbol_set(sys).contains(s) && sys_inputs(sys).contains(s)))
        && constraints_wf(ctx, sys) && (forall|i: int|
        0 <= i < sys_bads(sys).len() ==> ctx_has(ctx, #[trigger] sys_bads(sys)[i])) && (forall|
        i: int,
    |
        0 <= i < sys_inputs(sys).len() ==> ctx_has(ctx, #[trigger] sys_inputs(sys)[i])
            && match bv_width_of(ctx, sys_inputs(sys)[i]) {
            Some(w) => 1 <= w <= 64,
            None => false,
        }) && (forall|i: int|
        0 <= i < sys_states(sys).len() ==> ctx_has(ctx, (#[trigger] sys_states(sys)[i]).symbol) && (
        sys_states(sys)[i].init is None ==> bv_width_of(ctx, sys_states(sys)[i].symbol) is Some))
}

/// The concatenated value words of the states without a computed initial
/// value, as the simulator currently holds them, from state `i` on.
pub open spec fn state_init_words(sim: Interpreter, states: Seq<StateInfo>, i: int) -> Seq<u64>
    decreases states.len() - i,
{
    if 0 <= i < states.len() {
        (match states[i].init {
            Some(_) => Seq::empty(),
            None => match sim_word(sim, states[i].symbol) {
                Some(v) => v,
                None => Seq::empty(),
            },
        }) + state_init_words(sim, states, i + 1)
    } else {
        Seq::empty()
    }
}

/// Replays an episode from the restored snapshot with the saved generator
/// state and records the witness: the initial values of all states without
/// a computed initial value (read from the entry simulator, exactly in
/// system state order), and every input value of every cycle up to
/// `k_bad`, cycle-major in system order.  Every replayed cycle is checked
/// against the cluster constraints, and at `k_bad` at least one bad
/// predicate must hold again.  Returns `None` only if the replay sampling
/// exhausts its retry budget or the replay diverges from the search.
#[verifier::rlimit(30)]
pub fn record_witness(
    ctx: &Context,
    sys: &TransitionSystem,
    clusters: &Vec<ConstraintCluster>,
    unconstrained: &Vec<u32>,
    bad_exprs: &Vec<u32>,
    sim: &mut Interpreter,
    rng_start: Xoshiro256,
    k_bad: StepInt,
    bads: Vec<usize>,
) -> (r: Option<Witness>)
    requires
        ctx_wf(*ctx),
        searchable(*ctx, *sys),
        sim_ready(*old(sim)),
        sim_closed(*old(sim)),
        sim_linked(*ctx, *old(sim)),
        sim_covers(*old(sim), *sys),
        sim_symbols(*old(sim)) == sys_symbols(*sys),
        clusters_independent(*ctx, *old(sim), clusters@, unconstrained@),
        forall|k: int|
            0 <= k < clusters@.len() ==> cluster_sampling_ok(*ctx, *old(sim), #[trigger] clusters@[k]),
        forall|i: int|
            0 <= i < unconstrained@.len() ==> ctx_has(*ctx, #[trigger] unconstrained@[i])
                && samplable(*ctx, *old(sim), unconstrained@[i]),
        forall|k: int, i: int|
            0 <= k < clusters@.len() && 0 <= i < clusters@[k].inputs_seq().len() ==> ctx_has(
                *ctx,
                #[trigger] clusters@[k].inputs_seq()[i],
            ),
        forall|i: int|
            0 <= i < bad_exprs@.len() ==> sim_scope(*old(sim)).contains(#[trigger] bad_exprs@[i]),
        k_bad < u64::MAX,
    ensures
        sim_frame(*old(sim), *final(sim)),
        match r {
            Some(w) => w.k == k_bad && w.failed_safety@ == bads@ && w.state_init@
                == state_init_words(*old(sim), sys_states(*sys), 0) && w.state_init@.len()
                == state_words_from(*ctx, sys_states(*sys), 0) && w.input_data@.len() == (k_bad
                + 1) * rec_input_words(*ctx, sys_inputs(*sys), 0),
            None => true,
        },
{
    let mut rng = rng_start;
    // initial values of the states without a computed initial value
    let states = get_states(sys);
    let ghost sts = sys_states(*sys);
    let mut state_init: Vec<u64> = Vec::new();
    let mut si: usize = 0;
    while si < states.len()
        invariant
            si <= sts.len(),
            sts == sys_states(*sys),
            states@ == sts,
            ctx_wf(*ctx),
            searchable(*ctx, *sys),
            sim_ready(*sim),
            sim_linked(*ctx, *sim),
            sim_covers(*sim, *sys),
            *sim == *old(sim),
            state_init@.len() + state_words_from(*ctx, sts, si as int) == state_words_from(
                *ctx,
                sts,
                0,
            ),
            state_init@ + state_init_words(*sim, sts, si as int) == state_init_words(
                *sim,
                sts,
                0,
            ),
        decreases sts.len() - si,
    {
        let st = states[si];
        proof {
            assert(sts[si as int] == sys_states(*sys)[si as int]);
            assert(ctx_has(*ctx, sys_states(*sys)[si as int].symbol));
            assert(sys_scope(*sys).contains(st.symbol)) by {
                assert(state_symbol_set(*sys).contains(st.symbol));
            }
        }
        match st.init {
            Some(_) => {
                proof {
                    assert(state_init_words(*sim, sts, si as int) == Seq::<u64>::empty()
                        + state_init_words(*sim, sts, si as int + 1));
                    assert(Seq::<u64>::empty() + state_init_words(*sim, sts, si as int + 1)
                        =~= state_init_words(*sim, sts, si as int + 1));
                }
            },
            None => {
                proof {
                    assert(sys_states(*sys)[si as int].init is None);
                    assert(bv_width_of(*ctx, sys_states(*sys)[si as int].symbol) is Some);
                    assert(sim_width(*sim, st.symbol) == bv_width_of(*ctx, st.symbol));
                }
                let words = match sim_get_words(sim, st.symbol) {
                    Some(v) => v,
                    None => {
                        proof {
                            assert(false);
                        }
                        Vec::new()
                    },
                };
                proof {
                    assert(words@.len() == words_for(bv_width_of(*ctx, st.symbol)->Some_0));
                }
                let ghost pre = state_init@;
                let mut q: usize = 0;
                while q < words.len()
                    invariant
                        q <= words@.len(),
                        state_init@ == pre + words@.take(q as int),
                    decreases words.len() - q,
                {
                    state_init.push(words[q]);
                    proof {
                        assert(state_init@ =~= pre + words@.take(q as int + 1));
                    }
                    q = q + 1;
                }
                proof {
                    assert(words@.take(words@.len() as int) =~= words@);
                    assert(sim_word(*sim, sts[si as int].symbol) == Some(words@));
                    assert(state_init_words(*sim, sts, si as int) == words@ + state_init_words(
                        *sim,
                        sts,
                        si as int + 1,
                    ));
                    assert(state_init@ + state_init_words(*sim, sts, si as int + 1) =~= pre
                        + state_init_words(*sim, sts, si as int));
                }
            },
        }
        si = si + 1;
    }
    proof {
        assert(state_init@.len() == state_words_from(*ctx, sts, 0));
        assert(state_init@ + state_init_words(*sim, sts, sts.len() as int) =~= state_init@);
        assert(state_init@ == state_init_words(*old(sim), sts, 0));
    }
    // replay the sampled cycles and capture every input value
    let inputs = get_inputs(sys);
    let ghost ins = sys_inputs(*sys);
    let ghost frame_words = rec_input_words(*ctx, ins, 0);
    let mut input_data: Vec<u64> = Vec::new();
    let mut k: u64 = 0;
    let ghost sim_before = *sim;
    while k <= k_bad
        invariant
            k <= k_bad + 1,
            k_bad < u64::MAX,
            ins == sys_inputs(*sys),
            inputs@ == ins,
            sim_before == *old(sim),
            ctx_wf(*ctx),
            searchable(*ctx, *sys),
            sim_ready(*sim),
            sim_frame(sim_before, *sim),
            sim_linked(*ctx, *sim),
            sim_covers(*sim, *sys),
            sim_symbols(*sim) == sys_symbols(*sys),
            sim_closed(sim_before),
            clusters_independent(*ctx, sim_before, clusters@, unconstrained@),
            forall|kk: int|
                0 <= kk < clusters@.len() ==> cluster_sampling_ok(
                    *ctx,
                    sim_before,
                    #[trigger] clusters@[kk],
                ),
            forall|i: int|
                0 <= i < unconstrained@.len() ==> ctx_has(*ctx, #[trigger] unconstrained@[i])
                    && samplable(*ctx, sim_before, unconstrained@[i]),
            forall|kk: int, i: int|
                0 <= kk < clusters@.len() && 0 <= i < clusters@[kk].inputs_seq().len() ==> ctx_has(
                    *ctx,
                    #[trigger] clusters@[kk].inputs_seq()[i],
                ),
            forall|i: int|
                0 <= i < bad_exprs@.len() ==> sim_scope(sim_before).contains(
                    #[trigger] bad_exprs@[i],
                ),
            frame_words == rec_input_words(*ctx, ins, 0),
            input_data@.len() == k * frame_words,
        decreases k_bad + 1 - k,
    {
        let ghost pre_sim = *sim;
        proof {
            assert forall|kk: int|
                0 <= kk < clusters@.len() implies cluster_sampling_ok(
                *ctx,
                *sim,
                #[trigger] clusters@[kk],
            ) by {
                assert(cluster_sampling_ok(*ctx, sim_before, clusters@[kk]));
                assert(sim_symbols(*sim) == sim_symbols(sim_before));
                assert(sim_scope(*sim) == sim_scope(sim_before));
            }
            assert forall|i: int|
                0 <= i < unconstrained@.len() implies samplable(
                *ctx,
                *sim,
                #[trigger] unconstrained@[i],
            ) by {
                assert(samplable(*ctx, sim_before, unconstrained@[i]));
                assert(sim_symbols(*sim) == sim_symbols(sim_before));
            }
            lemma_independent_frame(*ctx, sim_before, *sim, clusters@, unconstrained@);
        }
        let ok = randomize_inputs(ctx, &mut rng, clusters, unconstrained, sim);
        proof {
            lemma_frame_trans(sim_before, pre_sim, *sim);
        }
        if !ok {
            return None;
        }
        // capture the sampled input values, in system input order
        let ghost frame_base = input_data@.len() as int;
        let mut ii: usize = 0;
        while ii < inputs.len()
            invariant
                ii <= ins.len(),
                ins == sys_inputs(*sys),
                inputs@ == ins,
                ctx_wf(*ctx),
                searchable(*ctx, *sys),
                sim_ready(*sim),
                sim_linked(*ctx, *sim),
                sim_covers(*sim, *sys),
                input_data@.len() as int == frame_base + rec_input_words(*ctx, ins, 0)
                    - rec_input_words(*ctx, ins, ii as int),
            decreases ins.len() - ii,
        {
            let input = inputs[ii];
            proof {
                assert(ins[ii as int] == sys_inputs(*sys)[ii as int]);
                assert(ctx_has(*ctx, sys_inputs(*sys)[ii as int]));
                assert(sys_scope(*sys).contains(input)) by {
                    assert(sys_inputs(*sys).contains(input));
                }
                assert(sim_width(*sim, input) == bv_width_of(*ctx, input));
                assert(bv_width_of(*ctx, sys_inputs(*sys)[ii as int]) is Some);
            }
            let words = match sim_get_words(sim, input) {
                Some(v) => v,
                None => {
                    proof {
                        assert(false);
                    }
                    Vec::new()
                },
            };
            proof {
                assert(words@.len() == words_for(bv_width_of(*ctx, input)->Some_0));
            }
            let ghost pre = input_data@;
            let mut q: usize = 0;
            while q < words.len()
                invariant
                    q <= words@.len(),
                    input_data@ == pre + words@.take(q as int),
                decreases words.len() - q,
            {
                input_data.push(words[q]);
                proof {
                    assert(input_data@ =~= pre + words@.take(q as int + 1));
                }
                q = q + 1;
            }
            proof {
                assert(words@.take(words@.len() as int) =~= words@);
            }
            ii = ii + 1;
        }
        proof {
            assert(rec_input_words(*ctx, ins, ins.len() as int) == 0);
            assert(input_data@.len() as int == frame_base + frame_words);
            assert((k + 1) * frame_words == k * frame_words + frame_words) by (nonlinear_arith);
        }
        // the replay must satisfy every cluster constraint again
        let mut ci: usize = 0;
        while ci < clusters.len()
            invariant
                ci <= clusters@.len(),
                sim_before == *old(sim),
                sim_ready(*sim),
                sim_frame(sim_before, *sim),
                forall|kk: int|
                    0 <= kk < clusters@.len() ==> cluster_sampling_ok(
                        *ctx,
                        sim_before,
                        #[trigger] clusters@[kk],
                    ),
            decreases clusters.len() - ci,
        {
            proof {
                assert(cluster_sampling_ok(*ctx, sim_before, clusters@[ci as int]));
                assert(sim_scope(*sim) == sim_scope(sim_before));
            }
            if !check_exprs_true(clusters[ci].exprs(), sim) {
                return None;
            }
            ci = ci + 1;
        }
        // at the detection cycle, a bad predicate must hold again
        if k == k_bad {
            proof {
                assert forall|i: int|
                    0 <= i < bad_exprs@.len() implies sim_scope(*sim).contains(
                    #[trigger] bad_exprs@[i],
                ) by {
                    assert(sim_scope(*sim) == sim_scope(sim_before));
                }
            }
            let replay_bads = check_for_bad_states(bad_exprs, sim);
            if replay_bads.len() == 0 {
                return None;
            }
        }
        let ghost pre_step = *sim;
        proof {
            assert(sim_closed(*sim)) by {
                assert(sim_closed(*sim) == sim_closed(sim_before));
            }
        }
        sim_step(sim);
        proof {
            lemma_frame_trans(sim_before, pre_step, *sim);
        }
        k = k + 1;
    }
    proof {
        assert(input_data@.len() == (k_bad + 1) * frame_words);
    }
    Some(Witness { input_data, state_init, k: k_bad, failed_safety: bads })
}

} // verus!
verus! {

/// `state_words_from` only depends on widths the context already assigns,
/// so it survives interning further nodes.
proof fn lemma_state_words_stable(c1: Context, c2: Context, states: Seq<StateInfo>, i: int)
    requires
        ctx_extends(c1, c2),
        forall|q: int| 0 <= q < states.len() ==> ctx_has(c1, (#[trigger] states[q]).symbol),
    ensures
        state_words_from(c2, states, i) == state_words_from(c1, states, i),
    decreases states.len() - i,
{
    if 0 <= i < states.len() {
        lemma_state_words_stable(c1, c2, states, i + 1);
        assert(bv_width_of(c2, states[i].symbol) == bv_width_of(c1, states[i].symbol));
    }
}

/// `rec_input_words` only depends on widths the context already assigns.
proof fn lemma_rec_input_words_stable(c1: Context, c2: Context, inputs: Seq<u32>, i: int)
    requires
        ctx_extends(c1, c2),
        forall|q: int| 0 <= q < inputs.len() ==> ctx_has(c1, #[trigger] inputs[q]),
    ensures
        rec_input_words(c2, inputs, i) == rec_input_words(c1, inputs, i),
    decreases inputs.len() - i,
{
    if 0 <= i < inputs.len() {
        lemma_rec_input_words_stable(c1, c2, inputs, i + 1);
        assert(bv_width_of(c2, inputs[i]) == bv_width_of(c1, inputs[i]));
    }
}

/// Whether `x` occurs in `v`.
fn contains_u32(v: &Vec<u32>, x: u32) -> (r: bool)
    ensures
        r == v@.contains(x),
{
    let mut i: usize = 0;
    while i < v.len()
        invariant
            i <= v.len(),
            forall|j: int| 0 <= j < i ==> v@[j] != x,
        decreases v.len() - i,
    {
        if v[i] == x {
            return true;
        }
        i = i + 1;
    }
    false
}

/// Searches for an input trace that drives the system into a bad state.
///
/// The constraints are analyzed into clusters once; then episodes of a
/// randomly drawn length are run from a snapshot of the zero-initialized
/// state: every cycle samples the inputs under per-cluster rejection
/// sampling, checks the bad predicates, and steps the simulator.  On a hit,
/// the episode is replayed with the saved generator state and the witness is
/// recorded.  The search is deterministic for a fixed `(ctx, sys, seed)`.
///
/// The verdict is never `UnSat`.  A `Sat` verdict carries a witness with at
/// least one failed bad predicate, all predicate indices in ascending order
/// and in range, and exactly the value words that the states without a
/// computed initial value and `k + 1` cycles of inputs occupy.  `Unknown` is
/// returned when the cycle budget (`max_cycles`, or effectively unbounded
/// without it) runs out, or when rejection sampling exhausts its retry
/// budget on an unsatisfiable cluster.
pub fn random_testing(ctx: Context, sys: TransitionSystem, opts: RandomOptions, seed: u64) -> (r:
    ModelCheckResult)
    requires
        ctx_wf(ctx),
        searchable(ctx, sys),
        1 <= opts.small_k <= opts.large_k,
        opts.large_k < u64::MAX,
    ensures
        !(r is UnSat),
        opts.max_cycles == Some(0u64) ==> r is Unknown,
        match r {
            ModelCheckResult::Sat(w) => w.failed_safety@.len() > 0 && (forall|q1: int, q2: int|
                0 <= q1 < q2 < w.failed_safety@.len() ==> w.failed_safety@[q1]
                    < w.failed_safety@[q2]) && (forall|q: int|
                0 <= q < w.failed_safety@.len() ==> #[trigger] w.failed_safety@[q] < sys_bads(
                    sys,
                ).len()) && w.k < u64::MAX && (opts.max_cycles matches Some(m) ==> w.k < m)
                && w.state_init@.len() == state_words_from(ctx, sys_states(sys), 0)
                && w.input_data@.len() == (w.k + 1) * rec_input_words(ctx, sys_inputs(sys), 0),
            _ => true,
        },
{
    let mut cx = ctx;
    // group the constraints into clusters over shared input support
    let clusters = analyze_constraints(&mut cx, &sys, false);
    proof {
        assert forall|i: int|
            0 <= i < sys_constraints(sys).len() implies ctx_has(
            cx,
            #[trigger] sys_constraints(sys)[i],
        ) && bv_width_of(cx, sys_constraints(sys)[i]) == Some(1u32) by {
            assert(ctx_has(ctx, sys_constraints(sys)[i]));
        }
        assert forall|i: int|
            0 <= i < sys_inputs(sys).len() implies ctx_has(cx, #[trigger] sys_inputs(sys)[i])
            && bv_width_of(cx, sys_inputs(sys)[i]) == bv_width_of(ctx, sys_inputs(sys)[i]) by {
            assert(ctx_has(ctx, sys_inputs(sys)[i]));
        }
        assert forall|i: int|
            0 <= i < sys_states(sys).len() implies ctx_has(
            cx,
            (#[trigger] sys_states(sys)[i]).symbol,
        ) && bv_width_of(cx, sys_states(sys)[i].symbol) == bv_width_of(
            ctx,
            sys_states(sys)[i].symbol,
        ) by {
            assert(ctx_has(ctx, sys_states(sys)[i].symbol));
        }
        assert forall|i: int|
            0 <= i < sys_bads(sys).len() implies ctx_has(cx, #[trigger] sys_bads(sys)[i]) by {
            assert(ctx_has(ctx, sys_bads(sys)[i]));
        }
        assert(searchable(cx, sys));
    }
    // inputs that appear in no cluster are sampled without rejection
    let inputs = get_inputs(&sys);
    let mut unconstrained: Vec<u32> = Vec::new();
    let mut ii: usize = 0;
    while ii < inputs.len()
        invariant
            ii <= inputs@.len(),
            inputs@ == sys_inputs(sys),
            forall|q: int|
                0 <= q < unconstrained@.len() ==> sys_inputs(sys).contains(
                    #[trigger] unconstrained@[q],
                ),
            forall|q: int, k: int|
                0 <= q < unconstrained@.len() && 0 <= k < clusters@.len()
                    ==> !(#[trigger] clusters@[k].inputs_seq().contains(unconstrained@[q])),
        decreases inputs.len() - ii,
    {
        let inp = inputs[ii];
        let mut in_cluster = false;
        let mut ci: usize = 0;
        while ci < clusters.len()
            invariant
                ci <= clusters@.len(),
                in_cluster == (exists|k: int|
                    0 <= k < ci && (#[trigger] clusters@[k].inputs_seq().contains(inp))),
            decreases clusters.len() - ci,
    {
            let hit = contains_u32(clusters[ci].inputs(), inp);
            if hit {
                in_cluster = true;
            }
            proof {
                assert(in_cluster == (exists|k: int|
                    0 <= k < ci + 1 && (#[trigger] clusters@[k].inputs_seq().contains(inp)))) by {
                    if in_cluster {
                        if hit {
                            assert(clusters@[ci as int].inputs_seq().contains(inp));
                        }
                    } else {
                        if exists|k: int|
                            0 <= k < ci + 1 && (#[trigger] clusters@[k].inputs_seq().contains(
                                inp,
                            )) {
                            let k = choose|k: int|
                                0 <= k < ci + 1 && (#[trigger] clusters@[k].inputs_seq().contains(
                                    inp,
                                ));
                            assert(k == ci);
                            assert(false);
                        }
                    }
                }
            }
            ci = ci + 1;
        }
        if !in_cluster {
            let ghost pre_unc = unconstrained@;
            unconstrained.push(inp);
            proof {
                assert(sys_inputs(sys).contains(inp)) by {
                    assert(sys_inputs(sys)[ii as int] == inp);
                }
                assert forall|q: int, k: int|
                    0 <= q < unconstrained@.len() && 0 <= k < clusters@.len() implies !(
                #[trigger] clusters@[k].inputs_seq().contains(unconstrained@[q])) by {
                    if q < pre_unc.len() {
                        assert(unconstrained@[q] == pre_unc[q]);
                    } else {
                        assert(unconstrained@[q] == inp);
                    }
                }
            }
        }
        ii = ii + 1;
    }
    let bads = get_bads(&sys);
    // build and initialize the simulator, then snapshot the starting state
    let mut sim = sim_new(&cx, &sys);
    sim_init_zero(&mut sim);
    let s0 = sim_take_snapshot(&mut sim);
    let ghost sim_base = sim;
    proof {
        assert(sim_linked(cx, sim));
        assert(sim_covers(sim, sys));
        assert(sim_symbols(sim) == sys_symbols(sys));
        assert(sim_snap_ready(sim, s0));
        assert((s0 as nat) < sim_snaps(sim));
        // the cluster constraints can be evaluated: the evaluable set is
        // closed under the splitter's moves and holds every constraint
        assert(all_in(sim_scope(sim), sys_constraints(sys))) by {
            assert forall|i: int|
                0 <= i < sys_constraints(sys).len() implies sim_scope(sim).contains(
                #[trigger] sys_constraints(sys)[i],
            ) by {
                assert(sys_scope(sys).contains(sys_constraints(sys)[i]));
            }
        }
        assert forall|k: int|
            0 <= k < clusters@.len() implies cluster_sampling_ok(
            cx,
            sim,
            #[trigger] clusters@[k],
        ) by {
            assert forall|i: int|
                0 <= i < clusters@[k].inputs_seq().len() implies samplable(
                cx,
                sim,
                #[trigger] clusters@[k].inputs_seq()[i],
            ) by {
                assert(clusters@[k].inputs_seq().contains(clusters@[k].inputs_seq()[i]));
                assert(sys_inputs(sys).contains(clusters@[k].inputs_seq()[i]));
                let q = choose|q: int|
                    0 <= q < sys_inputs(sys).len() && sys_inputs(sys)[q] == clusters@[
                    k].inputs_seq()[i];
                assert(sys_symbols(sys).contains(clusters@[k].inputs_seq()[i]));
            }
            assert forall|i: int|
                0 <= i < clusters@[k].exprs_seq().len() implies sim_scope(sim).contains(
                #[trigger] clusters@[k].exprs_seq()[i],
            ) by {
                assert(clusters@[k].exprs_seq().contains(clusters@[k].exprs_seq()[i]));
                assert(scope_closed(cx, sim_scope(sim)) && all_in(
                    sim_scope(sim),
                    sys_constraints(sys),
                ));
            }
        }
        assert forall|i: int|
            0 <= i < unconstrained@.len() implies ctx_has(cx, #[trigger] unconstrained@[i])
            && samplable(cx, sim, unconstrained@[i]) by {
            assert(sys_inputs(sys).contains(unconstrained@[i]));
            let q = choose|q: int|
                0 <= q < sys_inputs(sys).len() && sys_inputs(sys)[q] == unconstrained@[i];
            assert(ctx_has(cx, sys_inputs(sys)[q]));
            assert(sys_symbols(sys).contains(unconstrained@[i]));
        }
        assert forall|k: int, i: int|
            0 <= k < clusters@.len() && 0 <= i < clusters@[k].inputs_seq().len() implies ctx_has(
            cx,
            #[trigger] clusters@[k].inputs_seq()[i],
        ) by {
            assert(clusters@[k].inputs_seq().contains(clusters@[k].inputs_seq()[i]));
            assert(sys_inputs(sys).contains(clusters@[k].inputs_seq()[i]));
            let q = choose|q: int|
                0 <= q < sys_inputs(sys).len() && sys_inputs(sys)[q] == clusters@[
                k].inputs_seq()[i];
            assert(ctx_has(cx, sys_inputs(sys)[q]));
        }
        assert forall|i: int|
            0 <= i < bads@.len() implies sim_scope(sim).contains(#[trigger] bads@[i]) by {
            assert(sys_scope(sys).contains(sys_bads(sys)[i]));
        }
        // cluster independence: no shared inputs, unconstrained inputs are
        // excluded by construction, and a cluster constraint's cone meets
        // the sampled symbols only at the cluster's own inputs
        assert forall|k: int, sy: u32|
            0 <= k < clusters@.len() && #[trigger] clusters@[k].inputs_seq().contains(
                sy,
            ) implies !unconstrained@.contains(sy) by {
            if unconstrained@.contains(sy) {
                let q = choose|q: int|
                    0 <= q < unconstrained@.len() && #[trigger] unconstrained@[q] == sy;
                assert(!clusters@[k].inputs_seq().contains(unconstrained@[q]));
            }
        }
        assert forall|k: int, x: u32, sy: u32|
            0 <= k < clusters@.len() && #[trigger] clusters@[k].exprs_seq().contains(x)
                && #[trigger] sim_dep(sim, x).contains(sy) && sampled_sym(
                clusters@,
                unconstrained@,
                sy,
            ) implies clusters@[k].inputs_seq().contains(sy) by {
            assert(sim_dep(sim, x) == coi_comb_of(cx, sys, x).to_set());
            assert(coi_comb_of(cx, sys, x).contains(sy));
            assert(sys_inputs(sys).contains(sy)) by {
                if exists|kk: int|
                    0 <= kk < clusters@.len() && (#[trigger] clusters@[kk].inputs_seq().contains(
                        sy,
                    )) {
                    let kk = choose|kk: int|
                        0 <= kk < clusters@.len() && (
                        #[trigger] clusters@[kk].inputs_seq().contains(sy));
                } else {
                    assert(unconstrained@.contains(sy));
                    let q = choose|q: int|
                        0 <= q < unconstrained@.len() && #[trigger] unconstrained@[q] == sy;
                    assert(sys_inputs(sys).contains(unconstrained@[q]));
                }
            }
            assert(!state_symbol_set(sys).contains(sy));
            assert(atom_leaves(cx, sys, x, false).contains(sy));
            assert(cluster_supports(cx, sys, false, clusters@[k], sy)) by {
                assert(clusters@[k].exprs_seq().contains(x) && atom_leaves(
                    cx,
                    sys,
                    x,
                    false,
                ).contains(sy));
            }
            assert(cluster_symbol(clusters@[k], sy));
            assert(!clusters@[k].states_seq().contains(sy));
        }
        assert(clusters_independent(cx, sim, clusters@, unconstrained@));
    }
    // the deterministic generator for this worker
    let mut rng = Xoshiro256::seed_from_u64(seed);
    let mut budget: u64 = match opts.max_cycles {
        Some(m) => m,
        None => u64::MAX,
    };
    if budget == 0 {
        return ModelCheckResult::Unknown;
    }
    while budget > 0
        invariant
            (opts.max_cycles matches Some(m) ==> budget <= m),
            ctx_wf(cx),
            searchable(cx, sys),
            ctx_extends(ctx, cx),
            searchable(ctx, sys),
            1 <= opts.small_k <= opts.large_k,
            opts.large_k < u64::MAX,
            sim_ready(sim),
            sim_frame(sim_base, sim),
            sim_closed(sim_base),
            clusters_independent(cx, sim_base, clusters@, unconstrained@),
            sim_linked(cx, sim),
            sim_covers(sim, sys),
            sim_symbols(sim) == sys_symbols(sys),
            sim_snap_ready(sim, s0),
            (s0 as nat) < sim_snaps(sim),
            bads@ == sys_bads(sys),
            forall|k: int|
                0 <= k < clusters@.len() ==> cluster_sampling_ok(
                    cx,
                    sim_base,
                    #[trigger] clusters@[k],
                ),
            forall|i: int|
                0 <= i < unconstrained@.len() ==> ctx_has(cx, #[trigger] unconstrained@[i])
                    && samplable(cx, sim_base, unconstrained@[i]),
            forall|k: int, i: int|
                0 <= k < clusters@.len() && 0 <= i < clusters@[k].inputs_seq().len() ==> ctx_has(
                    cx,
                    #[trigger] clusters@[k].inputs_seq()[i],
                ),
        decreases budget,
    {
        let k_max = sample_k_max(&mut rng, &opts);
        let ghost pre_restore = sim;
        sim_restore(&mut sim, s0);
        proof {
            lemma_frame_trans(sim_base, pre_restore, sim);
        }
        // the replay seed: the generator state at the start of the episode
        let rng_start = rng;
        let mut k: u64 = 0;
        let ghost budget0 = budget;
        while k <= k_max && budget > 0
            invariant
                k <= k_max + 1,
                k_max < u64::MAX,
                budget + k == budget0,
                (opts.max_cycles matches Some(m) ==> budget0 <= m),
                ctx_wf(cx),
                searchable(cx, sys),
                ctx_extends(ctx, cx),
                searchable(ctx, sys),
                sim_ready(sim),
                sim_frame(sim_base, sim),
                sim_closed(sim_base),
                clusters_independent(cx, sim_base, clusters@, unconstrained@),
                sim_linked(cx, sim),
                sim_covers(sim, sys),
                sim_symbols(sim) == sys_symbols(sys),
                sim_snap_ready(sim, s0),
                (s0 as nat) < sim_snaps(sim),
                bads@ == sys_bads(sys),
                forall|kk: int|
                    0 <= kk < clusters@.len() ==> cluster_sampling_ok(
                        cx,
                        sim_base,
                        #[trigger] clusters@[kk],
                    ),
                forall|i: int|
                    0 <= i < unconstrained@.len() ==> ctx_has(cx, #[trigger] unconstrained@[i])
                        && samplable(cx, sim_base, unconstrained@[i]),
                forall|kk: int, i: int|
                    0 <= kk < clusters@.len() && 0 <= i < clusters@[kk].inputs_seq().len()
                        ==> ctx_has(cx, #[trigger] clusters@[kk].inputs_seq()[i]),
            decreases budget,
        {
            proof {
                assert forall|kk: int|
                    0 <= kk < clusters@.len() implies cluster_sampling_ok(
                    cx,
                    sim,
                    #[trigger] clusters@[kk],
                ) by {
                    assert(cluster_sampling_ok(cx, sim_base, clusters@[kk]));
                    assert(sim_symbols(sim) == sim_symbols(sim_base));
                    assert(sim_scope(sim) == sim_scope(sim_base));
                }
                assert forall|i: int|
                    0 <= i < unconstrained@.len() implies samplable(
                    cx,
                    sim,
                    #[trigger] unconstrained@[i],
                ) by {
                    assert(samplable(cx, sim_base, unconstrained@[i]));
                    assert(sim_symbols(sim) == sim_symbols(sim_base));
                }
            }
            proof {
                lemma_independent_frame(cx, sim_base, sim, clusters@, unconstrained@);
            }
            let ghost pre_sample = sim;
            let ok = randomize_inputs(&cx, &mut rng, &clusters, &unconstrained, &mut sim);
            proof {
                lemma_frame_trans(sim_base, pre_sample, sim);
            }
            if !ok {
                // rejection sampling exhausted its retry budget
                return ModelCheckResult::Unknown;
            }
            proof {
                assert forall|i: int|
                    0 <= i < bads@.len() implies sim_scope(sim).contains(#[trigger] bads@[i]) by {
                    assert(sys_scope(sys).contains(sys_bads(sys)[i]));
                }
            }
            let bads_now = check_for_bad_states(&bads, &sim);
            if bads_now.len() > 0 {
                // replay the episode to record the witness
                let ghost pre_restore2 = sim;
                sim_restore(&mut sim, s0);
                proof {
                    lemma_frame_trans(sim_base, pre_restore2, sim);
                    assert forall|kk: int|
                        0 <= kk < clusters@.len() implies cluster_sampling_ok(
                        cx,
                        sim,
                        #[trigger] clusters@[kk],
                    ) by {
                        assert(cluster_sampling_ok(cx, sim_base, clusters@[kk]));
                        assert(sim_symbols(sim) == sim_symbols(sim_base));
                        assert(sim_scope(sim) == sim_scope(sim_base));
                    }
                    assert forall|i: int|
                        0 <= i < unconstrained@.len() implies samplable(
                        cx,
                        sim,
                        #[trigger] unconstrained@[i],
                    ) by {
                        assert(samplable(cx, sim_base, unconstrained@[i]));
                        assert(sim_symbols(sim) == sim_symbols(sim_base));
                    }
                }
                proof {
                    lemma_independent_frame(cx, sim_base, sim, clusters@, unconstrained@);
                    assert(sim_closed(sim) == sim_closed(sim_base));
                }
                let wit = record_witness(
                    &cx,
                    &sys,
                    &clusters,
                    &unconstrained,
                    &bads,
                    &mut sim,
                    rng_start,
                    k,
                    bads_now,
                );
                match wit {
                    Some(w) => {
                        proof {
                            lemma_state_words_stable(ctx, cx, sys_states(sys), 0);
                            lemma_rec_input_words_stable(ctx, cx, sys_inputs(sys), 0);
                        }
                        return ModelCheckResult::Sat(w);
                    },
                    None => {
                        return ModelCheckResult::Unknown;
                    },
                }
            }
            let ghost pre_step = sim;
            proof {
                assert(sim_closed(sim) == sim_closed(sim_base));
            }
            sim_step(&mut sim);
            proof {
                lemma_frame_trans(sim_base, pre_step, sim);
            }
            budget = budget - 1;
            k = k + 1;
        }
        proof {
            assert(budget < budget0);
        }
    }
    ModelCheckResult::Unknown
}

} // verus!
