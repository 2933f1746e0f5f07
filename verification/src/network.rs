use vstd::prelude::*;

use crate::dynamics::{
    activation, activation_prefix, as_int_indices, as_ints, in_working_range, is_hebbian,
    lemma_flat_index_below, mat_at, relax_seq, step_state, valid_pattern,
    weight_value, MAX_NEURONS, SPIN, WEIGHT_BOUND,
};
use crate::error::HopfieldError;
use crate::randomness::{draw_index, draw_level};
use crate::raster::{lemma_seq_max_ge, lemma_seq_min_le, level_pixel, seq_max, seq_min, span_pixel};

verus! {

/// The error a rejected pattern earns: an empty pattern is degenerate, an
/// oversized one has an unsupported shape, and an entry outside the
/// working range is degenerate as well.
pub open spec fn construction_error(x: Seq<int>) -> HopfieldError {
    if x.len() == 0 {
        HopfieldError::PreconditionViolation
    } else if x.len() > MAX_NEURONS {
        HopfieldError::InvalidShape
    } else {
        HopfieldError::PreconditionViolation
    }
}

/// A Hopfield network: the P x P Hebbian weight matrix of one stored
/// pattern, held row-major in a flat vector, and the current length-P
/// state vector.
pub struct HopfieldNetwork {
    weights: Vec<i64>,
    state: Vec<i64>,
}

impl HopfieldNetwork {
    /// The number of neurons P.
    pub closed spec fn size(self) -> int {
        self.state@.len() as int
    }

    /// The weight matrix, row-major, as mathematical integers.
    pub closed spec fn weights_view(self) -> Seq<int> {
        as_ints(self.weights@)
    }

    /// The state vector as mathematical integers.
    pub closed spec fn state_view(self) -> Seq<int> {
        as_ints(self.state@)
    }

    /// Well-formedness: at least one neuron and at most MAX_NEURONS, a
    /// full P x P weight matrix with every entry within WEIGHT_BOUND, and
    /// every state entry within the working range.
    pub open spec fn wf(self) -> bool {
        &&& 1 <= self.size() <= MAX_NEURONS
        &&& self.weights_view().len() == self.size() * self.size()
        &&& forall|k: int|
            0 <= k < self.weights_view().len() ==> -(WEIGHT_BOUND as int)
                <= #[trigger] self.weights_view()[k] <= WEIGHT_BOUND as int
        &&& in_working_range(self.state_view())
    }

    /// The number of neurons P.
    pub fn len(&self) -> (r: usize)
        ensures
            r == self.size(),
    {
        self.state.len()
    }

    /// The weight between neurons i and j.
    pub fn weight(&self, i: usize, j: usize) -> (r: i64)
        requires
            self.wf(),
            i < self.size(),
            j < self.size(),
        ensures
            r as int == mat_at(self.weights_view(), self.size(), i as int, j as int),
    {
        let p = self.state.len();
        proof {
            lemma_flat_index_below(p as int, i as int, j as int, p as int, 0);
            assert(p * p <= 65535 * 65535) by (nonlinear_arith)
                requires
                    p <= 65535,
            ;
        }
        self.weights[i * p + j]
    }

    /// The current value of neuron i.
    pub fn state_value(&self, i: usize) -> (r: i64)
        requires
            i < self.size(),
        ensures
            r as int == self.state_view()[i as int],
    {
        self.state[i]
    }

    /// Builds the network that stores `pattern`: the weight matrix is the
    /// outer product of the pattern with itself with the diagonal forced
    /// to zero, and the initial state is drawn from the generator, each
    /// neuron independently one of -SPIN, 0, +SPIN.
    ///
    /// An empty pattern or an entry outside [-SPIN, SPIN] is refused as a
    /// precondition violation; a pattern longer than MAX_NEURONS as an
    /// invalid shape.
    pub fn new(pattern: &Vec<i64>, rng: &mut rand::rngs::StdRng) -> (r: Result<
        HopfieldNetwork,
        HopfieldError,
    >)
        ensures
            match r {
                Ok(net) => {
                    &&& valid_pattern(as_ints(pattern@))
                    &&& net.wf()
                    &&& net.size() == pattern@.len()
                    &&& is_hebbian(net.weights_view(), as_ints(pattern@))
                    &&& forall|j: int|
                        0 <= j < net.size() ==> (#[trigger] net.state_view()[j] == SPIN as int
                            || net.state_view()[j] == 0 || net.state_view()[j] == -(SPIN as int))
                },
                Err(e) => {
                    &&& !valid_pattern(as_ints(pattern@))
                    &&& e == construction_error(as_ints(pattern@))
                },
            },
    {
        let p = pattern.len();
        if p == 0 {
            return Err(HopfieldError::PreconditionViolation);
        }
        if p > MAX_NEURONS {
            return Err(HopfieldError::InvalidShape);
        }
        let mut i: usize = 0;
        while i < p
            invariant
                0 < p <= MAX_NEURONS,
                p == pattern@.len(),
                i <= p,
                forall|k: int|
                    0 <= k < i ==> -(SPIN as int) <= #[trigger] as_ints(pattern@)[k] <= SPIN as int,
            decreases p - i,
        {
            let v = pattern[i];
            if v < -SPIN || v > SPIN {
                assert(as_ints(pattern@)[i as int] == v as int);
                assert(!in_working_range(as_ints(pattern@)));
                return Err(HopfieldError::PreconditionViolation);
            }
            assert(as_ints(pattern@)[i as int] == v as int);
            i += 1;
        }
        assert(in_working_range(as_ints(pattern@)));

        let mut weights: Vec<i64> = Vec::new();
        let mut a: usize = 0;
        while a < p
            invariant
                valid_pattern(as_ints(pattern@)),
                p == pattern@.len(),
                p <= MAX_NEURONS,
                a <= p,
                weights@.len() == a * p,
                forall|i2: int, j2: int|
                    0 <= i2 < a && 0 <= j2 < p ==> #[trigger] mat_at(
                        as_ints(weights@),
                        p as int,
                        i2,
                        j2,
                    ) == weight_value(as_ints(pattern@), i2, j2),
                forall|k: int|
                    0 <= k < weights@.len() ==> -(WEIGHT_BOUND as int)
                        <= #[trigger] as_ints(weights@)[k] <= WEIGHT_BOUND as int,
            decreases p - a,
        {
            let mut b: usize = 0;
            while b < p
                invariant
                    valid_pattern(as_ints(pattern@)),
                    p == pattern@.len(),
                    p <= MAX_NEURONS,
                    a < p,
                    b <= p,
                    weights@.len() == a * p + b,
                    forall|i2: int, j2: int|
                        (0 <= i2 < a && 0 <= j2 < p) || (i2 == a && 0 <= j2 < b)
                            ==> #[trigger] mat_at(as_ints(weights@), p as int, i2, j2)
                            == weight_value(as_ints(pattern@), i2, j2),
                    forall|k: int|
                        0 <= k < weights@.len() ==> -(WEIGHT_BOUND as int)
                            <= #[trigger] as_ints(weights@)[k] <= WEIGHT_BOUND as int,
                decreases p - b,
            {
                let val: i64 = if a == b {
                    0
                } else {
                    proof {
                        let ghost pa = pattern@[a as int] as int;
                        let ghost pb = pattern@[b as int] as int;
                        assert(as_ints(pattern@)[a as int] == pa);
                        assert(as_ints(pattern@)[b as int] == pb);
                        assert(-(WEIGHT_BOUND as int) <= pa * pb <= WEIGHT_BOUND as int)
                            by (nonlinear_arith)
                            requires
                                -255 <= pa <= 255 && -255 <= pb <= 255,
                        ;
                    }
                    pattern[a] * pattern[b]
                };
                let ghost old_weights = weights@;
                weights.push(val);
                proof {
                    assert forall|i2: int, j2: int|
                        (0 <= i2 < a && 0 <= j2 < p) || (i2 == a && 0 <= j2 < b
                            + 1) implies #[trigger] mat_at(as_ints(weights@), p as int, i2, j2)
                        == weight_value(as_ints(pattern@), i2, j2) by {
                        if i2 == a && j2 == b {
                            assert(i2 * (p as int) + j2 == old_weights.len());
                        } else {
                            lemma_flat_index_below(p as int, i2, j2, a as int, b as int);
                            assert(mat_at(as_ints(weights@), p as int, i2, j2) == mat_at(
                                as_ints(old_weights),
                                p as int,
                                i2,
                                j2,
                            ));
                        }
                    }
                    assert forall|k: int|
                        0 <= k < weights@.len() implies -(WEIGHT_BOUND as int)
                        <= #[trigger] as_ints(weights@)[k] <= WEIGHT_BOUND as int by {
                        if k < old_weights.len() {
                            assert(as_ints(weights@)[k] == as_ints(old_weights)[k]);
                        } else {
                            assert(as_ints(weights@)[k] == val as int);
                        }
                    }
                }
                b += 1;
            }
            proof {
                assert((a as int + 1) * p == a * p + p) by (nonlinear_arith);
            }
            a += 1;
        }

        let mut state: Vec<i64> = Vec::new();
        let mut j: usize = 0;
        while j < p
            invariant
                j <= p,
                state@.len() == j,
                forall|k: int|
                    0 <= k < j ==> (#[trigger] as_ints(state@)[k] == SPIN as int || as_ints(
                        state@,
                    )[k] == 0 || as_ints(state@)[k] == -(SPIN as int)),
            decreases p - j,
        {
            let lv = draw_level(rng);
            let ghost old_state = state@;
            state.push(lv * SPIN);
            proof {
                assert forall|k: int|
                    0 <= k < j + 1 implies (#[trigger] as_ints(state@)[k] == SPIN as int || as_ints(
                    state@,
                )[k] == 0 || as_ints(state@)[k] == -(SPIN as int)) by {
                    if k < old_state.len() {
                        assert(as_ints(state@)[k] == as_ints(old_state)[k]);
                    } else {
                        assert(as_ints(state@)[k] == (lv * SPIN) as int);
                    }
                }
            }
            j += 1;
        }

        let net = HopfieldNetwork { weights, state };
        proof {
            assert(net.weights_view().len() == net.size() * net.size());
        }
        Ok(net)
    }

    /// Performs one asynchronous update: neuron i is set to +SPIN if the
    /// dot product of row i of the weight matrix with the current state
    /// is non-negative (ties resolve to +SPIN), and to -SPIN otherwise.
    pub fn update_neuron(&mut self, i: usize)
        requires
            old(self).wf(),
            i < old(self).size(),
        ensures
            final(self).wf(),
            final(self).size() == old(self).size(),
            final(self).weights_view() == old(self).weights_view(),
            final(self).state_view() == step_state(
                old(self).weights_view(),
                old(self).size(),
                old(self).state_view(),
                i as int,
            ),
    {
        let p = self.state.len();
        let mut acc: i64 = 0;
        let mut j: usize = 0;
        while j < p
            invariant
                old(self).wf(),
                *self == *old(self),
                p == old(self).size(),
                i < p,
                j <= p,
                acc as int == activation_prefix(
                    self.weights_view(),
                    p as int,
                    self.state_view(),
                    i as int,
                    j as int,
                ),
                -(j as int) * 16581375 <= acc as int <= (j as int) * 16581375,
            decreases p - j,
        {
            proof {
                lemma_flat_index_below(p as int, i as int, j as int, p as int, 0);
                assert(p * p <= 65535 * 65535) by (nonlinear_arith)
                    requires
                        p <= 65535,
                ;
            }
            let w = self.weights[i * p + j];
            let s = self.state[j];
            proof {
                assert(self.weights_view()[i as int * p + j as int] == w as int);
                assert(self.state_view()[j as int] == s as int);
                assert(-65025 <= w as int <= 65025);
                assert(-255 <= s as int <= 255);
                assert(-16581375 <= (w as int) * (s as int) <= 16581375) by (nonlinear_arith)
                    requires
                        -65025 <= w as int <= 65025 && -255 <= s as int <= 255,
                ;
                assert(-(j as int + 1) * 16581375 <= acc as int + (w as int) * (s as int) <= (
                j as int + 1) * 16581375);
            }
            acc = acc + w * s;
            j += 1;
        }
        let v: i64 = if acc >= 0 {
            SPIN
        } else {
            -SPIN
        };
        proof {
            assert(acc as int == activation(
                self.weights_view(),
                p as int,
                self.state_view(),
                i as int,
            ));
        }
        let ghost old_state = self.state@;
        self.state.set(i, v);
        proof {
            assert(self.state@ == old_state.update(i as int, v));
            assert(self.state_view() =~= as_ints(old_state).update(i as int, v as int));
        }
    }

    /// Applies one asynchronous update per entry of `order`, in order,
    /// each update reading the state left by the previous ones. Fails
    /// with InvalidShape, leaving the state untouched, iff some entry is
    /// not a neuron index.
    pub fn update_neurons(&mut self, order: &Vec<usize>) -> (r: Result<(), HopfieldError>)
        requires
            old(self).wf(),
        ensures
            final(self).wf(),
            final(self).size() == old(self).size(),
            final(self).weights_view() == old(self).weights_view(),
            match r {
                Ok(()) => {
                    &&& forall|k: int|
                        0 <= k < order@.len() ==> #[trigger] order@[k] < old(self).size()
                    &&& final(self).state_view() == relax_seq(
                        old(self).weights_view(),
                        old(self).size(),
                        old(self).state_view(),
                        as_int_indices(order@),
                    )
                },
                Err(e) => {
                    &&& e == HopfieldError::InvalidShape
                    &&& !(forall|k: int|
                        0 <= k < order@.len() ==> #[trigger] order@[k] < old(self).size())
                    &&& *final(self) == *old(self)
                },
            },
    {
        let p = self.state.len();
        let n = order.len();
        let mut k: usize = 0;
        while k < n
            invariant
                old(self).wf(),
                p == old(self).size(),
                n == order@.len(),
                k <= n,
                forall|k2: int| 0 <= k2 < k ==> #[trigger] order@[k2] < p,
                *self == *old(self),
            decreases n - k,
        {
            if order[k] >= p {
                assert(order@[k as int] >= p);
                return Err(HopfieldError::InvalidShape);
            }
            k += 1;
        }
        let ghost w0 = self.weights_view();
        let ghost s0 = self.state_view();
        let ghost idxs = as_int_indices(order@);
        let mut k: usize = 0;
        while k < n
            invariant
                old(self).wf(),
                self.wf(),
                p == old(self).size(),
                self.size() == p,
                n == order@.len(),
                k <= n,
                forall|k2: int| 0 <= k2 < n ==> #[trigger] order@[k2] < p,
                w0 == old(self).weights_view(),
                s0 == old(self).state_view(),
                idxs == as_int_indices(order@),
                self.weights_view() == w0,
                self.state_view() == relax_seq(w0, p as int, s0, idxs.take(k as int)),
            decreases n - k,
        {
            let i = order[k];
            proof {
                assert(idxs[k as int] == i as int);
            }
            self.update_neuron(i);
            proof {
                let t1 = idxs.take(k as int + 1);
                assert(t1.drop_last() =~= idxs.take(k as int));
                assert(t1.last() == i as int);
                assert(relax_seq(w0, p as int, s0, t1) == step_state(
                    w0,
                    p as int,
                    relax_seq(w0, p as int, s0, idxs.take(k as int)),
                    i as int,
                ));
            }
            k += 1;
        }
        proof {
            assert(idxs.take(n as int) =~= idxs);
        }
        Ok(())
    }

    /// Performs `steps` asynchronous stochastic updates: each step draws
    /// a neuron index uniformly below P from the generator (the same
    /// neuron may be revisited) and updates that one neuron. The final
    /// state is the relaxation of the starting state along some sequence
    /// of `steps` neuron indices, whatever the generator returned.
    pub fn update_state(&mut self, rng: &mut rand::rngs::StdRng, steps: usize)
        requires
            old(self).wf(),
        ensures
            final(self).wf(),
            final(self).size() == old(self).size(),
            final(self).weights_view() == old(self).weights_view(),
            exists|idx: Seq<int>|
                {
                    &&& idx.len() == steps
                    &&& (forall|k: int| 0 <= k < idx.len() ==> 0 <= #[trigger] idx[k] < old(
                        self,
                    ).size())
                    &&& final(self).state_view() == relax_seq(
                        old(self).weights_view(),
                        old(self).size(),
                        old(self).state_view(),
                        idx,
                    )
                },
    {
        let p = self.state.len();
        let ghost w0 = self.weights_view();
        let ghost s0 = self.state_view();
        let ghost mut visited: Seq<int> = Seq::empty();
        let mut k: usize = 0;
        while k < steps
            invariant
                old(self).wf(),
                self.wf(),
                p == old(self).size(),
                self.size() == p,
                k <= steps,
                w0 == old(self).weights_view(),
                s0 == old(self).state_view(),
                self.weights_view() == w0,
                visited.len() == k,
                forall|k2: int| 0 <= k2 < visited.len() ==> 0 <= #[trigger] visited[k2] < p,
                self.state_view() == relax_seq(w0, p as int, s0, visited),
            decreases steps - k,
        {
            let i = draw_index(rng, p);
            self.update_neuron(i);
            proof {
                let t1 = visited.push(i as int);
                assert(t1.drop_last() =~= visited);
                assert(t1.last() == i as int);
                visited = t1;
            }
            k += 1;
        }
        proof {
            assert(final(self).state_view() == relax_seq(w0, p as int, s0, visited));
        }
    }

    /// Replaces the state vector. Fails with InvalidShape iff the length
    /// differs from P, and with PreconditionViolation iff the length
    /// matches but some entry lies outside the working range; the state
    /// is untouched on failure.
    pub fn set_state(&mut self, values: &Vec<i64>) -> (r: Result<(), HopfieldError>)
        requires
            old(self).wf(),
        ensures
            final(self).wf(),
            final(self).size() == old(self).size(),
            final(self).weights_view() == old(self).weights_view(),
            match r {
                Ok(()) => {
                    &&& values@.len() == old(self).size()
                    &&& in_working_range(as_ints(values@))
                    &&& final(self).state_view() == as_ints(values@)
                },
                Err(e) => {
                    &&& *final(self) == *old(self)
                    &&& if values@.len() != old(self).size() {
                        e == HopfieldError::InvalidShape
                    } else {
                        &&& e == HopfieldError::PreconditionViolation
                        &&& !in_working_range(as_ints(values@))
                    }
                },
            },
    {
        let p = self.state.len();
        if values.len() != p {
            return Err(HopfieldError::InvalidShape);
        }
        let mut new_state: Vec<i64> = Vec::new();
        let mut i: usize = 0;
        while i < p
            invariant
                old(self).wf(),
                *self == *old(self),
                p == old(self).size(),
                p == values@.len(),
                i <= p,
                new_state@.len() == i,
                forall|k: int|
                    0 <= k < i ==> -(SPIN as int) <= #[trigger] as_ints(values@)[k] <= SPIN as int,
                forall|k: int| 0 <= k < i ==> #[trigger] new_state@[k] == values@[k],
            decreases p - i,
        {
            let v = values[i];
            if v < -SPIN || v > SPIN {
                assert(as_ints(values@)[i as int] == v as int);
                assert(!in_working_range(as_ints(values@)));
                return Err(HopfieldError::PreconditionViolation);
            }
            assert(as_ints(values@)[i as int] == v as int);
            new_state.push(v);
            i += 1;
        }
        self.state = new_state;
        proof {
            assert(self.state_view() =~= as_ints(values@));
        }
        Ok(())
    }

    /// Renders the state vector as one 8-bit pixel per neuron, row-major
    /// for a width x height raster, through the fixed affine map of the
    /// working range (-SPIN maps to 0, +SPIN to 255). Fails with
    /// InvalidShape iff the pixel count differs from P.
    pub fn render_state(&self, width: usize, height: usize) -> (r: Result<Vec<u8>, HopfieldError>)
        requires
            self.wf(),
        ensures
            match r {
                Ok(px) => {
                    &&& width * height == self.size()
                    &&& px@.len() == self.size()
                    &&& forall|k: int|
                        0 <= k < px@.len() ==> #[trigger] px@[k] as int == level_pixel(
                            self.state_view()[k],
                        )
                },
                Err(e) => {
                    &&& e == HopfieldError::InvalidShape
                    &&& width * height != self.size()
                },
            },
    {
        let p = self.state.len();
        let count = match width.checked_mul(height) {
            Some(c) => c,
            None => {
                return Err(HopfieldError::InvalidShape);
            },
        };
        if count != p {
            return Err(HopfieldError::InvalidShape);
        }
        let mut px: Vec<u8> = Vec::new();
        let mut i: usize = 0;
        while i < p
            invariant
                self.wf(),
                p == self.size(),
                i <= p,
                px@.len() == i,
                forall|k: int|
                    0 <= k < i ==> #[trigger] px@[k] as int == level_pixel(self.state_view()[k]),
            decreases p - i,
        {
            let s = self.state[i];
            proof {
                assert(self.state_view()[i as int] == s as int);
            }
            let v: u16 = ((s + 255) as u16) / 2;
            px.push(v as u8);
            i += 1;
        }
        Ok(px)
    }

    /// Renders the weight matrix as one 8-bit pixel per entry, row-major
    /// for a width x height raster, normalized by the matrix's own
    /// minimum and maximum (a constant matrix renders as all zeros).
    /// Fails with InvalidShape iff the pixel count differs from P * P.
    pub fn render_weights(&self, width: usize, height: usize) -> (r: Result<
        Vec<u8>,
        HopfieldError,
    >)
        requires
            self.wf(),
        ensures
            match r {
                Ok(px) => {
                    &&& width * height == self.size() * self.size()
                    &&& px@.len() == self.size() * self.size()
                    &&& forall|k: int|
                        0 <= k < px@.len() ==> #[trigger] px@[k] as int == span_pixel(
                            self.weights_view()[k],
                            seq_min(self.weights_view()),
                            seq_max(self.weights_view()),
                        )
                },
                Err(e) => {
                    &&& e == HopfieldError::InvalidShape
                    &&& width * height != self.size() * self.size()
                },
            },
    {
        let p = self.state.len();
        proof {
            assert(1 <= p * p && p * p <= 65535 * 65535) by (nonlinear_arith)
                requires
                    1 <= p <= 65535,
            ;
        }
        let m = p * p;
        let count = match width.checked_mul(height) {
            Some(c) => c,
            None => {
                return Err(HopfieldError::InvalidShape);
            },
        };
        if count != m {
            return Err(HopfieldError::InvalidShape);
        }
        let ghost wv = self.weights_view();
        let mut lo = self.weights[0];
        let mut hi = self.weights[0];
        proof {
            assert(wv.take(1)[0] == wv[0]);
            assert(wv[0] == lo as int);
        }
        let mut k: usize = 1;
        while k < m
            invariant
                self.wf(),
                p == self.size(),
                wv == self.weights_view(),
                m == p * p,
                m == self.weights@.len(),
                1 <= k <= m,
                lo as int == seq_min(wv.take(k as int)),
                hi as int == seq_max(wv.take(k as int)),
                -65025 <= lo <= 65025,
                -65025 <= hi <= 65025,
            decreases m - k,
        {
            let w = self.weights[k];
            proof {
                assert(wv[k as int] == w as int);
                let t1 = wv.take(k as int + 1);
                assert(t1.drop_last() =~= wv.take(k as int));
                assert(t1.last() == w as int);
            }
            if w < lo {
                lo = w;
            }
            if w > hi {
                hi = w;
            }
            k += 1;
        }
        proof {
            assert(wv.take(m as int) =~= wv);
            lemma_seq_min_le(wv, 0);
            lemma_seq_max_ge(wv, 0);
        }
        let span = hi - lo;
        let mut px: Vec<u8> = Vec::new();
        let mut k: usize = 0;
        while k < m
            invariant
                self.wf(),
                p == self.size(),
                wv == self.weights_view(),
                m == p * p,
                m == self.weights@.len(),
                k <= m,
                px@.len() == k,
                lo as int == seq_min(wv),
                hi as int == seq_max(wv),
                span == hi - lo,
                -65025 <= lo <= hi <= 65025,
                forall|k2: int|
                    0 <= k2 < k ==> #[trigger] px@[k2] as int == span_pixel(
                        wv[k2],
                        seq_min(wv),
                        seq_max(wv),
                    ),
            decreases m - k,
        {
            let w = self.weights[k];
            proof {
                assert(wv[k as int] == w as int);
                lemma_seq_min_le(wv, k as int);
                lemma_seq_max_ge(wv, k as int);
            }
            let v: u8 = if span <= 0 {
                0
            } else {
                let num: u64 = ((w - lo) as u64) * 255;
                proof {
                    let ghost ni = (w as int - lo as int) * 255;
                    let ghost si = span as int;
                    assert(ni <= si * 255);
                    vstd::arithmetic::div_mod::lemma_div_is_ordered(ni, si * 255, si);
                    vstd::arithmetic::div_mod::lemma_div_multiples_vanish(255, si);
                    assert(si * 255 == 255 * si) by (nonlinear_arith);
                    assert((si * 255) / si == 255);
                    assert(ni / si <= 255);
                }
                (num / (span as u64)) as u8
            };
            px.push(v);
            k += 1;
        }
        Ok(px)
    }
}

} // verus!
