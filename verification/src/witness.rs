//! Witnesses and their textual form.
//!
//! A witness holds the concrete initial state values and the per-cycle input
//! assignments that drive the system into a bad state at cycle `k`.  Its
//! textual form is the conventional witness format of the transition-system
//! file type: the failed property indices, an initial-state frame, one input
//! frame per cycle, and a `.` trailer, with every value printed as an
//! MSB-first bit string of exactly its declared width.

use vstd::prelude::*;

use crate::ir::{
    bv_width_of, ctx_has, ctx_sym_name, ctx_wf, get_inputs, get_states, sym_name_of, sys_inputs,
    sys_states, StateInfo,
};
use crate::StepInt;
use patronus::expr::Context;
use patronus::system::TransitionSystem;

verus! {

/// Result of a bounded randomized search.
#[derive(Debug, Clone)]
pub enum ModelCheckResult {
    /// The search ended without a verdict.
    Unknown,
    /// The property can never fail.  No code path of this library produces
    /// this verdict; it exists for completeness of the result type.
    UnSat,
    /// A trace into a bad state was found.
    Sat(Witness),
}

/// In-memory representation of a witness.
#[derive(Debug, Clone)]
pub struct Witness {
    /// The concatenated value words of all inputs, for cycles `0..=k`, in
    /// system input iteration order, cycle-major.
    pub input_data: Vec<u64>,
    /// The concatenated value words of the initial values of every state
    /// that has no computed initial value, in system state order.
    pub state_init: Vec<u64>,
    /// The zero-based cycle at which a bad predicate held.
    pub k: StepInt,
    /// The indices of the bad predicates that held at cycle `k`.
    pub failed_safety: Vec<usize>,
}

/// How many 64-bit words carry a value of `w` bits.
pub open spec fn words_for(w: u32) -> nat {
    ((w + 63) / 64) as nat
}

/// Decimal digit characters.
pub open spec fn digit(d: nat) -> char {
    if d == 0 {
        '0'
    } else if d == 1 {
        '1'
    } else if d == 2 {
        '2'
    } else if d == 3 {
        '3'
    } else if d == 4 {
        '4'
    } else if d == 5 {
        '5'
    } else if d == 6 {
        '6'
    } else if d == 7 {
        '7'
    } else if d == 8 {
        '8'
    } else {
        '9'
    }
}

/// The decimal form of a number.
pub open spec fn dec_spec(n: nat) -> Seq<char>
    decreases n,
{
    if n < 10 {
        seq![digit(n)]
    } else {
        dec_spec(n / 10).push(digit(n % 10))
    }
}

/// Bit `i` (little-endian) of a word vector.
pub open spec fn bit_at(words: Seq<u64>, i: nat) -> bool {
    (words[(i / 64) as int] >> ((i % 64) as u64)) & 1u64 == 1u64
}

/// The MSB-first bit string of the low `width` bits of a word vector.
pub open spec fn bits_spec(words: Seq<u64>, width: nat) -> Seq<char> {
    Seq::new(
        width,
        |j: int|
            if bit_at(words, (width - 1 - j) as nat) {
                '1'
            } else {
                '0'
            },
    )
}

/// A run of `width` zero characters.
pub open spec fn zeros_spec(width: nat) -> Seq<char> {
    Seq::new(width, |j: int| '0')
}

fn digit_char(d: u64) -> (r: char)
    requires
        d < 10,
    ensures
        r == digit(d as nat),
{
    if d == 0 {
        '0'
    } else if d == 1 {
        '1'
    } else if d == 2 {
        '2'
    } else if d == 3 {
        '3'
    } else if d == 4 {
        '4'
    } else if d == 5 {
        '5'
    } else if d == 6 {
        '6'
    } else if d == 7 {
        '7'
    } else if d == 8 {
        '8'
    } else {
        '9'
    }
}

/// Appends the decimal form of `n`.
fn push_dec(out: &mut Vec<char>, n: u64)
    ensures
        final(out)@ == old(out)@ + dec_spec(n as nat),
    decreases n,
{
    if n < 10 {
        out.push(digit_char(n));
        proof {
            assert(final(out)@ =~= old(out)@ + dec_spec(n as nat));
        }
    } else {
        push_dec(out, n / 10);
        out.push(digit_char(n % 10));
        proof {
            assert(final(out)@ =~= old(out)@ + dec_spec(n as nat));
        }
    }
}

/// Appends the MSB-first bit string of the low `width` bits of `words`.
fn push_bits(out: &mut Vec<char>, words: &Vec<u64>, width: u32)
    requires
        words@.len() == words_for(width),
        width >= 1,
    ensures
        final(out)@ == old(out)@ + bits_spec(words@, width as nat),
{
    let mut j: u32 = 0;
    while j < width
        invariant
            j <= width,
            width >= 1,
            words@.len() == words_for(width),
            out@ == old(out)@ + bits_spec(words@, width as nat).take(j as int),
        decreases width - j,
    {
        let ghost pre = out@;
        let i = width - 1 - j;
        let wi = (i / 64) as usize;
        proof {
            assert(wi < words@.len()) by {
                assert(i / 64 <= (width - 1) / 64);
                assert((width - 1) / 64 < words_for(width));
            }
        }
        let bit = (words[wi] >> ((i % 64) as u64)) & 1u64;
        if bit == 1 {
            out.push('1');
        } else {
            out.push('0');
        }
        proof {
            assert(bits_spec(words@, width as nat)[j as int] == (if bit_at(
                words@,
                (width - 1 - j) as nat,
            ) {
                '1'
            } else {
                '0'
            }));
            assert(out@ =~= old(out)@ + bits_spec(words@, width as nat).take(j as int + 1));
        }
        j = j + 1;
    }
    proof {
        assert(bits_spec(words@, width as nat).take(width as int) =~= bits_spec(
            words@,
            width as nat,
        ));
    }
}

/// Appends `width` zero characters.
fn push_zeros(out: &mut Vec<char>, width: u32)
    ensures
        final(out)@ == old(out)@ + zeros_spec(width as nat),
{
    let mut j: u32 = 0;
    while j < width
        invariant
            j <= width,
            out@ == old(out)@ + zeros_spec(width as nat).take(j as int),
        decreases width - j,
    {
        out.push('0');
        proof {
            assert(out@ =~= old(out)@ + zeros_spec(width as nat).take(j as int + 1));
        }
        j = j + 1;
    }
    proof {
        assert(zeros_spec(width as nat).take(width as int) =~= zeros_spec(width as nat));
    }
}

/// Appends a copy of `s`.
fn push_seq(out: &mut Vec<char>, s: &Vec<char>)
    ensures
        final(out)@ == old(out)@ + s@,
{
    let mut j: usize = 0;
    while j < s.len()
        invariant
            j <= s@.len(),
            out@ == old(out)@ + s@.take(j as int),
        decreases s@.len() - j,
    {
        out.push(s[j]);
        proof {
            assert(out@ =~= old(out)@ + s@.take(j as int + 1));
        }
        j = j + 1;
    }
    proof {
        assert(s@.take(s@.len() as int) =~= s@);
    }
}

/// Relies on `String::from_iter`: collects the characters into a `String`.
#[verifier::external_body]
pub fn chars_to_string(v: &Vec<char>) -> (r: String)
    ensures
        r@ == v@,
{
    v.iter().collect()
}

} // verus!
verus! {

/// The name prefix of inputs that the simplifier eliminated (the reserved
/// `DEFAULT_INPUT_PREFIX` of the btor2 parser): their values were never
/// sampled and are printed as zeros.
pub open spec fn anon_prefix_spec() -> Seq<char> {
    seq!['_', 'i', 'n', 'p', 'u', 't']
}

/// Whether a symbol name carries the reserved anonymous-input prefix.
pub open spec fn is_anon(name: Seq<char>) -> bool {
    name.len() >= 6 && name.take(6) == anon_prefix_spec()
}

/// The line of failed bad-property indices, from position `i` on.
pub open spec fn bads_text(fs: Seq<usize>, i: int) -> Seq<char>
    decreases fs.len() - i,
{
    if 0 <= i < fs.len() {
        seq!['b'] + dec_spec(fs[i] as nat) + (if i + 1 == fs.len() {
            seq!['\n']
        } else {
            seq![' ']
        }) + bads_text(fs, i + 1)
    } else {
        Seq::empty()
    }
}

/// The words that the states from position `i` on contribute to
/// `state_init` (states with a computed initial value contribute none).
pub open spec fn state_words_from(ctx: Context, states: Seq<StateInfo>, i: int) -> nat
    decreases states.len() - i,
{
    if 0 <= i < states.len() {
        (match states[i].init {
            Some(_) => 0,
            None => words_for(bv_width_of(ctx, states[i].symbol)->Some_0),
        }) + state_words_from(ctx, states, i + 1)
    } else {
        0
    }
}

/// The name a state is printed under.
pub open spec fn state_name(ctx: Context, sym: u32, i: int) -> Seq<char> {
    match sym_name_of(ctx, sym) {
        Some(n) => n,
        None => seq!['s', 't', 'a', 't', 'e', '_'] + dec_spec(i as nat),
    }
}

/// The initial-state lines from state `i` on, reading words at `off`.
pub open spec fn states_text(
    ctx: Context,
    states: Seq<StateInfo>,
    data: Seq<u64>,
    i: int,
    off: int,
) -> Seq<char>
    decreases states.len() - i,
{
    if 0 <= i < states.len() {
        match states[i].init {
            Some(_) => states_text(ctx, states, data, i + 1, off),
            None => {
                let w = bv_width_of(ctx, states[i].symbol)->Some_0;
                dec_spec(i as nat) + seq![' '] + bits_spec(
                    data.subrange(off, off + words_for(w)),
                    w as nat,
                ) + seq![' '] + state_name(ctx, states[i].symbol, i) + seq!['#', '0', '\n']
                    + states_text(ctx, states, data, i + 1, off + words_for(w))
            },
        }
    } else {
        Seq::empty()
    }
}

/// The words that the inputs from position `i` on consume per cycle
/// (anonymous inputs consume none).
pub open spec fn input_words_from(ctx: Context, inputs: Seq<u32>, i: int) -> nat
    decreases inputs.len() - i,
{
    if 0 <= i < inputs.len() {
        (if is_anon(sym_name_of(ctx, inputs[i])->Some_0) {
            0
        } else {
            words_for(bv_width_of(ctx, inputs[i])->Some_0)
        }) + input_words_from(ctx, inputs, i + 1)
    } else {
        0
    }
}

/// The input lines of cycle `k` from input `i` on, reading words at `off`.
pub open spec fn inputs_text(
    ctx: Context,
    inputs: Seq<u32>,
    data: Seq<u64>,
    k: nat,
    i: int,
    off: int,
) -> Seq<char>
    decreases inputs.len() - i,
{
    if 0 <= i < inputs.len() {
        let name = sym_name_of(ctx, inputs[i])->Some_0;
        let w = bv_width_of(ctx, inputs[i])->Some_0;
        dec_spec(i as nat) + seq![' '] + (if is_anon(name) {
            zeros_spec(w as nat)
        } else {
            bits_spec(data.subrange(off, off + words_for(w)), w as nat)
        }) + seq![' '] + name + seq!['@'] + dec_spec(k) + seq!['\n'] + inputs_text(
            ctx,
            inputs,
            data,
            k,
            i + 1,
            off + (if is_anon(name) {
                0
            } else {
                words_for(w) as int
            }),
        )
    } else {
        Seq::empty()
    }
}

/// The input frames for cycles `k..=k_bad`, reading words at `off`.
pub open spec fn frames_text(
    ctx: Context,
    inputs: Seq<u32>,
    data: Seq<u64>,
    k_bad: nat,
    k: nat,
    off: int,
) -> Seq<char>
    decreases k_bad + 1 - k,
{
    if k <= k_bad {
        seq!['@'] + dec_spec(k) + seq!['\n'] + inputs_text(ctx, inputs, data, k, 0, off)
            + frames_text(ctx, inputs, data, k_bad, k + 1, off + input_words_from(ctx, inputs, 0))
    } else {
        Seq::empty()
    }
}

/// The complete textual form of a witness.
pub open spec fn witness_text(ctx: Context, sys: TransitionSystem, wit: Witness) -> Seq<char> {
    bads_text(wit.failed_safety@, 0) + (if sys_states(sys).len() > 0 {
        seq!['#', '0', '\n'] + states_text(ctx, sys_states(sys), wit.state_init@, 0, 0)
    } else {
        Seq::empty()
    }) + frames_text(ctx, sys_inputs(sys), wit.input_data@, wit.k as nat, 0, 0) + seq!['.', '\n']
}

/// What `print` asks of the system relative to the printing context: every
/// state symbol is interned, every state without a computed initial value
/// is a bit vector, and every input is a named bit vector.
pub open spec fn printable(ctx: Context, sys: TransitionSystem) -> bool {
    (forall|i: int|
        0 <= i < sys_states(sys).len() ==> ctx_has(ctx, (#[trigger] sys_states(sys)[i]).symbol)
            && (sys_states(sys)[i].init is None ==> match bv_width_of(
            ctx,
            sys_states(sys)[i].symbol,
        ) {
            Some(w) => 1 <= w,
            None => false,
        })) && (forall|i: int|
        0 <= i < sys_inputs(sys).len() ==> ctx_has(ctx, #[trigger] sys_inputs(sys)[i])
            && sym_name_of(ctx, sys_inputs(sys)[i]) is Some && match bv_width_of(
            ctx,
            sys_inputs(sys)[i],
        ) {
            Some(w) => 1 <= w,
            None => false,
        })
}

/// Whether a name starts with the anonymous-input prefix.
fn name_is_anon(name: &Vec<char>) -> (r: bool)
    ensures
        r == is_anon(name@),
{
    if name.len() < 6 {
        proof {
            assert(!is_anon(name@));
        }
        return false;
    }
    let r = name[0] == '_' && name[1] == 'i' && name[2] == 'n' && name[3] == 'p' && name[4] == 'u'
        && name[5] == 't';
    proof {
        if r {
            assert(name@.take(6) =~= anon_prefix_spec());
        } else {
            if name@.take(6) == anon_prefix_spec() {
                assert(name@[0] == '_' && name@[1] == 'i' && name@[2] == 'n' && name@[3] == 'p'
                    && name@[4] == 'u' && name@[5] == 't') by {
                    assert(name@.take(6)[0] == anon_prefix_spec()[0]);
                    assert(name@.take(6)[1] == anon_prefix_spec()[1]);
                    assert(name@.take(6)[2] == anon_prefix_spec()[2]);
                    assert(name@.take(6)[3] == anon_prefix_spec()[3]);
                    assert(name@.take(6)[4] == anon_prefix_spec()[4]);
                    assert(name@.take(6)[5] == anon_prefix_spec()[5]);
                }
            }
        }
    }
    r
}

} // verus!
verus! {

impl Witness {
    /// Renders the witness in the canonical textual witness format, against
    /// the original (pre-simplification) context and system.
    pub fn print(&self, ctx: &Context, sys: &TransitionSystem) -> (r: String)
        requires
            ctx_wf(*ctx),
            printable(*ctx, *sys),
            self.k < u64::MAX,
            self.state_init@.len() == state_words_from(*ctx, sys_states(*sys), 0),
            self.input_data@.len() == (self.k + 1) * input_words_from(*ctx, sys_inputs(*sys), 0),
        ensures
            r@ == witness_text(*ctx, *sys, *self),
    {
        let mut out: Vec<char> = Vec::new();
        // failed property indices
        let ghost fs = self.failed_safety@;
        let mut bi: usize = 0;
        while bi < self.failed_safety.len()
            invariant
                bi <= fs.len(),
                fs == self.failed_safety@,
                out@ + bads_text(fs, bi as int) == bads_text(fs, 0),
            decreases fs.len() - bi,
        {
            let ghost pre = out@;
            out.push('b');
            push_dec(&mut out, self.failed_safety[bi] as u64);
            if bi + 1 == self.failed_safety.len() {
                out.push('\n');
            } else {
                out.push(' ');
            }
            proof {
                assert(out@ =~= pre + (seq!['b'] + dec_spec(fs[bi as int] as nat) + (if bi as int
                    + 1 == fs.len() {
                    seq!['\n']
                } else {
                    seq![' ']
                })));
                assert(out@ + bads_text(fs, bi as int + 1) =~= pre + bads_text(fs, bi as int));
            }
            bi = bi + 1;
        }
        proof {
            assert(out@ + bads_text(fs, fs.len() as int) =~= out@);
            assert(out@ == bads_text(fs, 0));
        }
        let ghost text_bads = out@;
        // initial state frame
        let states = get_states(sys);
        let ghost sts = sys_states(*sys);
        let ghost sdata = self.state_init@;
        if states.len() > 0 {
            out.push('#');
            out.push('0');
            out.push('\n');
            let ghost text_head = out@;
            let mut si: usize = 0;
            let mut soff: usize = 0;
            while si < states.len()
                invariant
                    si <= sts.len(),
                    sts == sys_states(*sys),
                    states@ == sts,
                    sdata == self.state_init@,
                    ctx_wf(*ctx),
                    printable(*ctx, *sys),
                    soff + state_words_from(*ctx, sts, si as int) == sdata.len(),
                    out@ + states_text(*ctx, sts, sdata, si as int, soff as int) == text_head
                        + states_text(*ctx, sts, sdata, 0, 0),
                decreases sts.len() - si,
            {
                let ghost pre = out@;
                let st = states[si];
                proof {
                    assert(sts[si as int] == sys_states(*sys)[si as int]);
                    assert(st == sys_states(*sys)[si as int]);
                    assert(ctx_has(*ctx, sys_states(*sys)[si as int].symbol));
                }
                match st.init {
                    Some(_) => {
                        proof {
                            assert(states_text(*ctx, sts, sdata, si as int, soff as int)
                                == states_text(*ctx, sts, sdata, si as int + 1, soff as int));
                        }
                    },
                    None => {
                        proof {
                            assert(sys_states(*sys)[si as int].init is None);
                            assert(match bv_width_of(*ctx, sys_states(*sys)[si as int].symbol) {
                                Some(w) => 1 <= w,
                                None => false,
                            });
                        }
                        let width = match crate::ir::ctx_bv_width(ctx, st.symbol) {
                            Some(w) => w,
                            None => {
                                proof {
                                    assert(false);
                                }
                                1
                            },
                        };
                        let data_len = self.state_init.len();
                        let nwords64: u64 = (width as u64 + 63) / 64;
                        proof {
                            assert(nwords64 == words_for(width));
                            assert(words_for(width) <= state_words_from(*ctx, sts, si as int));
                            assert(soff + nwords64 <= self.state_init@.len());
                            assert(self.state_init@.len() == data_len);
                        }
                        let nwords = nwords64 as usize;
                        let mut wv: Vec<u64> = Vec::new();
                        let mut q: usize = 0;
                        while q < nwords
                            invariant
                                q <= nwords,
                                data_len == self.state_init@.len(),
                                soff + nwords <= data_len,
                                wv@ == self.state_init@.subrange(
                                    soff as int,
                                    soff as int + q as int,
                                ),
                            decreases nwords - q,
                        {
                            wv.push(self.state_init[soff + q]);
                            proof {
                                assert(wv@ =~= self.state_init@.subrange(
                                    soff as int,
                                    soff as int + q as int + 1,
                                ));
                            }
                            q = q + 1;
                        }
                        push_dec(&mut out, si as u64);
                        out.push(' ');
                        push_bits(&mut out, &wv, width);
                        out.push(' ');
                        match crate::ir::ctx_sym_name(ctx, st.symbol) {
                            Some(name) => {
                                push_seq(&mut out, &name);
                            },
                            None => {
                                out.push('s');
                                out.push('t');
                                out.push('a');
                                out.push('t');
                                out.push('e');
                                out.push('_');
                                push_dec(&mut out, si as u64);
                                proof {
                                    assert(seq!['s', 't', 'a', 't', 'e', '_'] + dec_spec(
                                        si as nat,
                                    ) =~= state_name(*ctx, sts[si as int].symbol, si as int));
                                }
                            },
                        }
                        out.push('#');
                        out.push('0');
                        out.push('\n');
                        proof {
                            assert(out@ =~= pre + (dec_spec(si as nat) + seq![' '] + bits_spec(
                                sdata.subrange(soff as int, soff as int + words_for(width)),
                                width as nat,
                            ) + seq![' '] + state_name(*ctx, sts[si as int].symbol, si as int)
                                + seq!['#', '0', '\n']));
                            assert(out@ + states_text(
                                *ctx,
                                sts,
                                sdata,
                                si as int + 1,
                                soff as int + words_for(width),
                            ) =~= pre + states_text(*ctx, sts, sdata, si as int, soff as int));
                        }
                        soff = soff + nwords;
                    },
                }
                si = si + 1;
            }
            proof {
                assert(out@ + states_text(*ctx, sts, sdata, sts.len() as int, soff as int)
                    =~= out@);
                assert(out@ == text_head + states_text(*ctx, sts, sdata, 0, 0));
                assert(out@ =~= text_bads + (seq!['#', '0', '\n'] + states_text(
                    *ctx,
                    sts,
                    sdata,
                    0,
                    0,
                )));
            }
        } else {
            proof {
                assert(out@ =~= text_bads + Seq::<char>::empty());
            }
        }
        let ghost text_states = out@;
        // input frames
        let inputs = get_inputs(sys);
        let ghost ins = sys_inputs(*sys);
        let ghost idata = self.input_data@;
        let ghost frame_words = input_words_from(*ctx, ins, 0);
        proof {
            assert(ins == sys_inputs(*sys));
            assert(frame_words == input_words_from(*ctx, sys_inputs(*sys), 0));
            assert(idata.len() == (self.k + 1) * frame_words);
        }
        let mut k: u64 = 0;
        let mut ioff: usize = 0;
        while k <= self.k
            invariant
                k <= self.k + 1,
                self.k < u64::MAX,
                ins == sys_inputs(*sys),
                inputs@ == ins,
                idata == self.input_data@,
                ctx_wf(*ctx),
                printable(*ctx, *sys),
                ioff == k * frame_words,
                frame_words == input_words_from(*ctx, ins, 0),
                idata.len() == (self.k + 1) * frame_words,
                out@ + frames_text(*ctx, ins, idata, self.k as nat, k as nat, ioff as int)
                    == text_states + frames_text(*ctx, ins, idata, self.k as nat, 0, 0),
            decreases self.k + 1 - k,
        {
            let ghost pre_frame = out@;
            out.push('@');
            push_dec(&mut out, k);
            out.push('\n');
            let ghost text_at = out@;
            let mut ii: usize = 0;
            let ghost foff = ioff as int;
            proof {
                assert(k * frame_words + frame_words + (self.k - k) * frame_words == (self.k + 1)
                    * frame_words) by (nonlinear_arith)
                    requires k <= self.k;
            }
            while ii < inputs.len()
                invariant
                    ii <= ins.len(),
                    ins == sys_inputs(*sys),
                    inputs@ == ins,
                    idata == self.input_data@,
                    ctx_wf(*ctx),
                    printable(*ctx, *sys),
                    k <= self.k,
                    ioff as int == foff + input_words_from(*ctx, ins, 0) - input_words_from(
                        *ctx,
                        ins,
                        ii as int,
                    ),
                    foff == k * frame_words,
                    frame_words == input_words_from(*ctx, ins, 0),
                    idata.len() == (self.k + 1) * frame_words,
                    ioff + input_words_from(*ctx, ins, ii as int) + (self.k - k) * frame_words
                        == idata.len(),
                    out@ + inputs_text(*ctx, ins, idata, k as nat, ii as int, ioff as int)
                        == text_at + inputs_text(*ctx, ins, idata, k as nat, 0, foff),
                decreases ins.len() - ii,
            {
                let ghost pre = out@;
                let input = inputs[ii];
                proof {
                    assert(ins[ii as int] == sys_inputs(*sys)[ii as int]);
                    assert(input == sys_inputs(*sys)[ii as int]);
                    assert(ctx_has(*ctx, sys_inputs(*sys)[ii as int]));
                    assert(sym_name_of(*ctx, sys_inputs(*sys)[ii as int]) is Some);
                    assert(match bv_width_of(*ctx, sys_inputs(*sys)[ii as int]) {
                        Some(w) => 1 <= w,
                        None => false,
                    });
                }
                let name = match crate::ir::ctx_sym_name(ctx, input) {
                    Some(n) => n,
                    None => {
                        proof {
                            assert(false);
                        }
                        Vec::new()
                    },
                };
                let width = match crate::ir::ctx_bv_width(ctx, input) {
                    Some(w) => w,
                    None => {
                        proof {
                            assert(false);
                        }
                        1
                    },
                };
                let anon = name_is_anon(&name);
                push_dec(&mut out, ii as u64);
                out.push(' ');
                if anon {
                    push_zeros(&mut out, width);
                } else {
                    let nwords64: u64 = (width as u64 + 63) / 64;
                    proof {
                        assert(nwords64 == words_for(width));
                        assert(words_for(width) <= input_words_from(*ctx, ins, ii as int));
                        assert((self.k - k) * frame_words >= 0) by (nonlinear_arith)
                            requires k <= self.k && frame_words >= 0;
                        assert(ioff + nwords64 <= self.input_data@.len());
                    }
                    let nwords = nwords64 as usize;
                    let data_len = self.input_data.len();
                    let mut wv: Vec<u64> = Vec::new();
                    let mut q: usize = 0;
                    while q < nwords
                        invariant
                            q <= nwords,
                            data_len == self.input_data@.len(),
                            ioff + nwords <= data_len,
                            wv@ == self.input_data@.subrange(ioff as int, ioff as int + q as int),
                        decreases nwords - q,
                    {
                        wv.push(self.input_data[ioff + q]);
                        proof {
                            assert(wv@ =~= self.input_data@.subrange(
                                ioff as int,
                                ioff as int + q as int + 1,
                            ));
                        }
                        q = q + 1;
                    }
                    push_bits(&mut out, &wv, width);
                }
                out.push(' ');
                push_seq(&mut out, &name);
                out.push('@');
                push_dec(&mut out, k);
                out.push('\n');
                proof {
                    assert(out@ =~= pre + (dec_spec(ii as nat) + seq![' '] + (if is_anon(name@) {
                        zeros_spec(width as nat)
                    } else {
                        bits_spec(
                            idata.subrange(ioff as int, ioff as int + words_for(width)),
                            width as nat,
                        )
                    }) + seq![' '] + name@ + seq!['@'] + dec_spec(k as nat) + seq!['\n']));
                    assert(out@ + inputs_text(
                        *ctx,
                        ins,
                        idata,
                        k as nat,
                        ii as int + 1,
                        ioff as int + (if is_anon(name@) {
                            0
                        } else {
                            words_for(width) as int
                        }),
                    ) =~= pre + inputs_text(*ctx, ins, idata, k as nat, ii as int, ioff as int));
                }
                if !anon {
                    let nwords64: u64 = (width as u64 + 63) / 64;
                    let data_len = self.input_data.len();
                    proof {
                        assert(nwords64 == words_for(width));
                        assert(words_for(width) <= input_words_from(*ctx, ins, ii as int));
                        assert((self.k - k) * frame_words >= 0) by (nonlinear_arith)
                            requires k <= self.k && frame_words >= 0;
                        assert(ioff + nwords64 <= self.input_data@.len());
                        assert(self.input_data@.len() == data_len);
                    }
                    ioff = ioff + (nwords64 as usize);
                }
                ii = ii + 1;
            }
            proof {
                assert(out@ + inputs_text(*ctx, ins, idata, k as nat, ins.len() as int, ioff as int)
                    =~= out@);
                assert(input_words_from(*ctx, ins, ins.len() as int) == 0);
                assert(ioff as int == foff + frame_words);
                assert(out@ + frames_text(
                    *ctx,
                    ins,
                    idata,
                    self.k as nat,
                    k as nat + 1,
                    ioff as int,
                ) =~= pre_frame + frames_text(*ctx, ins, idata, self.k as nat, k as nat, foff));
                assert((k + 1) * frame_words == k * frame_words + frame_words) by (nonlinear_arith);
                assert((self.k - (k + 1)) * frame_words + frame_words == (self.k - k)
                    * frame_words) by (nonlinear_arith);
            }
            k = k + 1;
        }
        proof {
            assert(out@ + frames_text(*ctx, ins, idata, self.k as nat, k as nat, ioff as int)
                =~= out@);
            assert(out@ == text_states + frames_text(*ctx, ins, idata, self.k as nat, 0, 0));
        }
        out.push('.');
        out.push('\n');
        proof {
            assert(out@ =~= witness_text(*ctx, *sys, *self));
        }
        chars_to_string(&out)
    }
}

} // verus!
