use vstd::prelude::*;

verus! {

/// Magnitude of a fully converged spin; also the largest magnitude a
/// pattern or state entry may take (the fixed-point image of 1.0).
pub const SPIN: i64 = 255;

/// Largest magnitude a Hebbian weight can take: SPIN * SPIN.
pub const WEIGHT_BOUND: i64 = 255 * 255;

/// Largest supported pattern length; keeps every flat matrix index and
/// every activation sum within machine range.
pub const MAX_NEURONS: usize = 65535;

/// A sequence of machine integers, read as mathematical integers.
pub open spec fn as_ints(v: Seq<i64>) -> Seq<int> {
    v.map_values(|x: i64| x as int)
}

/// A sequence of machine indices, read as mathematical integers.
pub open spec fn as_int_indices(v: Seq<usize>) -> Seq<int> {
    v.map_values(|x: usize| x as int)
}

/// Entry (i, j) of a P x P matrix stored row-major in a flat sequence.
pub open spec fn mat_at(w: Seq<int>, p: int, i: int, j: int) -> int {
    w[i * p + j]
}

/// The Hebbian weight between neurons i and j of a stored pattern: the
/// outer product of the pattern with itself, with the diagonal forced to
/// zero so that no neuron reinforces its own state.
pub open spec fn weight_value(x: Seq<int>, i: int, j: int) -> int {
    if i == j {
        0
    } else {
        x[i] * x[j]
    }
}

/// w is exactly the Hebbian weight matrix of pattern x.
pub open spec fn is_hebbian(w: Seq<int>, x: Seq<int>) -> bool {
    let p = x.len() as int;
    &&& w.len() == p * p
    &&& forall|i: int, j: int|
        0 <= i < p && 0 <= j < p ==> #[trigger] mat_at(w, p, i, j) == weight_value(x, i, j)
}

/// Every entry lies in the working range [-SPIN, SPIN].
pub open spec fn in_working_range(x: Seq<int>) -> bool {
    forall|i: int| 0 <= i < x.len() ==> -(SPIN as int) <= #[trigger] x[i] <= SPIN as int
}

/// A pattern the network accepts: non-empty, not longer than MAX_NEURONS,
/// every entry within the working range.
pub open spec fn valid_pattern(x: Seq<int>) -> bool {
    &&& 1 <= x.len() <= MAX_NEURONS
    &&& in_working_range(x)
}

/// Every entry is a full spin, +SPIN or -SPIN.
pub open spec fn is_spin_pattern(x: Seq<int>) -> bool {
    forall|i: int| 0 <= i < x.len() ==> (#[trigger] x[i] == SPIN as int || x[i] == -(SPIN as int))
}

/// Partial dot product of row i of the weight matrix with the state:
/// the sum over columns 0..j.
pub open spec fn activation_prefix(w: Seq<int>, p: int, s: Seq<int>, i: int, j: int) -> int
    decreases j,
{
    if j <= 0 {
        0
    } else {
        activation_prefix(w, p, s, i, j - 1) + mat_at(w, p, i, j - 1) * s[j - 1]
    }
}

/// The activation of neuron i: the dot product of row i of the weight
/// matrix with the full current state.
pub open spec fn activation(w: Seq<int>, p: int, s: Seq<int>, i: int) -> int {
    activation_prefix(w, p, s, i, p)
}

/// The threshold rule: a non-negative activation (ties included) drives
/// the neuron to +SPIN, a negative one to -SPIN.
pub open spec fn updated_value(a: int) -> int {
    if a >= 0 {
        SPIN as int
    } else {
        -(SPIN as int)
    }
}

/// One asynchronous update: neuron i is set to the thresholded sign of its
/// activation; every other neuron keeps its value.
pub open spec fn step_state(w: Seq<int>, p: int, s: Seq<int>, i: int) -> Seq<int> {
    s.update(i, updated_value(activation(w, p, s, i)))
}

/// The state after visiting the neuron indices of idx in order, starting
/// from s: each visit reads the state left by the previous visits.
pub open spec fn relax_seq(w: Seq<int>, p: int, s: Seq<int>, idx: Seq<int>) -> Seq<int>
    decreases idx.len(),
{
    if idx.len() == 0 {
        s
    } else {
        step_state(w, p, relax_seq(w, p, s, idx.drop_last()), idx.last())
    }
}

/// No self-connection: the diagonal of a Hebbian weight matrix is zero.
pub proof fn lemma_diagonal_zero(w: Seq<int>, x: Seq<int>)
    requires
        is_hebbian(w, x),
    ensures
        forall|i: int| 0 <= i < x.len() ==> #[trigger] mat_at(w, x.len() as int, i, i) == 0,
{
}

/// A Hebbian weight matrix is symmetric: it is an outer product of the
/// pattern with itself.
pub proof fn lemma_symmetric(w: Seq<int>, x: Seq<int>)
    requires
        is_hebbian(w, x),
    ensures
        forall|i: int, j: int|
            0 <= i < x.len() && 0 <= j < x.len() ==> #[trigger] mat_at(w, x.len() as int, i, j)
                == mat_at(w, x.len() as int, j, i),
{
    let p = x.len() as int;
    assert forall|i: int, j: int|
        0 <= i < p && 0 <= j < p implies #[trigger] mat_at(w, p, i, j) == mat_at(w, p, j, i) by {
        assert(x[i] * x[j] == x[j] * x[i]) by (nonlinear_arith);
    }
}

/// The flat row-major index of a cell strictly before (a, b) stays below
/// the flat index of (a, b).
pub(crate) proof fn lemma_flat_index_below(p: int, i: int, j: int, a: int, b: int)
    by (nonlinear_arith)
    requires
        0 <= j < p,
        0 <= b,
        0 <= a,
        (0 <= i < a) || (i == a && j < b),
    ensures
        0 <= i * p + j < a * p + b,
{
}

/// A flat index below p * p decomposes into a row below p and a column
/// below p.
pub(crate) proof fn lemma_flat_index_decompose(p: int, k: int)
    requires
        1 <= p,
        0 <= k < p * p,
    ensures
        0 <= k / p < p,
        0 <= k % p < p,
        k == (k / p) * p + k % p,
{
    vstd::arithmetic::div_mod::lemma_fundamental_div_mod(k, p);
    vstd::arithmetic::div_mod::lemma_mod_bound(k, p);
    assert(k == p * (k / p) + k % p);
    assert(p * (k / p) == (k / p) * p) by (nonlinear_arith);
    if k / p < 0 {
        assert((k / p) * p <= -p) by (nonlinear_arith)
            requires
                k / p <= -1 && p >= 1,
        ;
        assert(false);
    }
    if k / p >= p {
        assert((k / p) * p >= p * p) by (nonlinear_arith)
            requires
                k / p >= p && p >= 1,
        ;
        assert(false);
    }
}

/// For a spin s (full magnitude either way), multiplying by s twice
/// scales by the squared magnitude.
pub(crate) proof fn lemma_spin_square(a: int, s: int)
    by (nonlinear_arith)
    requires
        s == 255 || s == -255,
    ensures
        (a * s) * s == 65025 * a,
{
}

/// With the state equal to a stored full-spin pattern, the partial
/// activation of neuron i over columns 0..j sums the squared spin once
/// per visited column other than i itself.
proof fn lemma_activation_prefix_of_stored(w: Seq<int>, x: Seq<int>, i: int, j: int)
    requires
        is_hebbian(w, x),
        is_spin_pattern(x),
        0 <= i < x.len(),
        0 <= j <= x.len(),
    ensures
        activation_prefix(w, x.len() as int, x, i, j) == (WEIGHT_BOUND as int) * x[i] * (
        if i < j {
            j - 1
        } else {
            j
        }),
    decreases j,
{
    let p = x.len() as int;
    let wb = WEIGHT_BOUND as int;
    if j == 0 {
        assert(wb * x[i] * 0 == 0) by (nonlinear_arith);
    } else {
        lemma_activation_prefix_of_stored(w, x, i, j - 1);
        let c: int = if i < j - 1 {
            j - 2
        } else {
            j - 1
        };
        assert(activation_prefix(w, p, x, i, j) == activation_prefix(w, p, x, i, j - 1) + mat_at(
            w,
            p,
            i,
            j - 1,
        ) * x[j - 1]);
        assert(mat_at(w, p, i, j - 1) == weight_value(x, i, j - 1));
        if i == j - 1 {
            assert(weight_value(x, i, j - 1) == 0);
            assert(0 * x[j - 1] == 0) by (nonlinear_arith);
            assert(activation_prefix(w, p, x, i, j) == wb * x[i] * c);
            assert(c == j - 1);
        } else {
            lemma_spin_square(x[i], x[j - 1]);
            assert((x[i] * x[j - 1]) * x[j - 1] == 65025 * x[i]);
            assert(wb * x[i] * c + wb * x[i] == wb * x[i] * (c + 1)) by (nonlinear_arith);
            assert(wb * x[i] == 65025 * x[i]);
        }
    }
}

/// One asynchronous update of any neuron leaves a stored full-spin
/// pattern unchanged: its activation has the sign of its own entry and,
/// with at least two neurons, is never zero.
proof fn lemma_step_fixes_stored(w: Seq<int>, x: Seq<int>, i: int)
    requires
        is_hebbian(w, x),
        is_spin_pattern(x),
        x.len() >= 2,
        0 <= i < x.len(),
    ensures
        step_state(w, x.len() as int, x, i) == x,
{
    let p = x.len() as int;
    let wb = WEIGHT_BOUND as int;
    lemma_activation_prefix_of_stored(w, x, i, p);
    let a = activation(w, p, x, i);
    assert(a == wb * x[i] * (p - 1));
    if x[i] == SPIN as int {
        assert(a == wb * 255 * (p - 1));
        assert(wb * 255 * (p - 1) >= wb * 255) by (nonlinear_arith)
            requires
                p >= 2 && wb == 65025,
        ;
        assert(updated_value(a) == x[i]);
    } else {
        assert(x[i] == -(SPIN as int));
        assert(a == wb * (-255) * (p - 1));
        assert(wb * (-255) * (p - 1) <= wb * (-255)) by (nonlinear_arith)
            requires
                p >= 2 && wb == 65025,
        ;
        assert(updated_value(a) == x[i]);
    }
    assert(x.update(i, x[i]) =~= x);
}

/// A stored full-spin pattern is a fixed point of its own network: from a
/// state equal to the pattern, asynchronous updates leave the state
/// unchanged whatever order the neurons are visited in. (With at least
/// two neurons no activation is zero, so the tie-break never fires; a
/// pattern with entries short of full magnitude is driven to the full
/// spins of the same signs instead and need not be a fixed point.)
pub proof fn lemma_stored_pattern_is_fixed(w: Seq<int>, x: Seq<int>, idx: Seq<int>)
    requires
        is_hebbian(w, x),
        is_spin_pattern(x),
        x.len() >= 2,
        forall|k: int| 0 <= k < idx.len() ==> 0 <= #[trigger] idx[k] < x.len(),
    ensures
        relax_seq(w, x.len() as int, x, idx) == x,
    decreases idx.len(),
{
    if idx.len() > 0 {
        lemma_stored_pattern_is_fixed(w, x, idx.drop_last());
        lemma_step_fixes_stored(w, x, idx.last());
    }
}

/// Construction is deterministic in the pattern: the Hebbian weight
/// matrix of a pattern is unique, so building twice from the same
/// pattern gives identical weights.
pub proof fn lemma_hebbian_unique(w1: Seq<int>, w2: Seq<int>, x: Seq<int>)
    requires
        is_hebbian(w1, x),
        is_hebbian(w2, x),
        x.len() >= 1,
    ensures
        w1 == w2,
{
    let p = x.len() as int;
    assert forall|k: int| 0 <= k < w1.len() implies w1[k] == w2[k] by {
        lemma_flat_index_decompose(p, k);
        let i = k / p;
        let j = k % p;
        assert(mat_at(w1, p, i, j) == weight_value(x, i, j));
        assert(mat_at(w2, p, i, j) == weight_value(x, i, j));
    }
    assert(w1 =~= w2);
}

/// Relaxation is deterministic: the final state is a function of the
/// weights, the starting state and the visited index sequence alone, so
/// two runs over equal inputs end in the same state.
pub proof fn lemma_relaxation_deterministic(
    w1: Seq<int>,
    w2: Seq<int>,
    p: int,
    s1: Seq<int>,
    s2: Seq<int>,
    idx1: Seq<int>,
    idx2: Seq<int>,
)
    requires
        w1 == w2,
        s1 == s2,
        idx1 == idx2,
    ensures
        relax_seq(w1, p, s1, idx1) == relax_seq(w2, p, s2, idx2),
{
}

} // verus!
