use vstd::prelude::*;

use crate::dynamics::{as_ints, in_working_range, SPIN};

verus! {

/// The fixed affine map from the working range to an 8-bit intensity:
/// -255 maps to 0, 0 to 127, 255 to 255.
pub open spec fn level_pixel(v: int) -> int {
    (v + 255) / 2
}

/// The smallest entry of a non-empty sequence.
pub open spec fn seq_min(s: Seq<int>) -> int
    decreases s.len(),
{
    if s.len() <= 1 {
        s[0]
    } else {
        let m = seq_min(s.drop_last());
        if s.last() < m {
            s.last()
        } else {
            m
        }
    }
}

/// The largest entry of a non-empty sequence.
pub open spec fn seq_max(s: Seq<int>) -> int
    decreases s.len(),
{
    if s.len() <= 1 {
        s[0]
    } else {
        let m = seq_max(s.drop_last());
        if s.last() > m {
            s.last()
        } else {
            m
        }
    }
}

/// The min/max-normalized map used for the weight-matrix image: lo maps
/// to 0 and hi to 255; a degenerate span (a constant matrix) renders as 0.
pub open spec fn span_pixel(v: int, lo: int, hi: int) -> int {
    if hi <= lo {
        0
    } else {
        (v - lo) * 255 / (hi - lo)
    }
}

/// The minimum of a non-empty sequence is no larger than any entry.
pub proof fn lemma_seq_min_le(s: Seq<int>, i: int)
    requires
        0 <= i < s.len(),
    ensures
        seq_min(s) <= s[i],
    decreases s.len(),
{
    if s.len() > 1 && i < s.len() - 1 {
        lemma_seq_min_le(s.drop_last(), i);
    }
}

/// The maximum of a non-empty sequence is no smaller than any entry.
pub proof fn lemma_seq_max_ge(s: Seq<int>, i: int)
    requires
        0 <= i < s.len(),
    ensures
        seq_max(s) >= s[i],
    decreases s.len(),
{
    if s.len() > 1 && i < s.len() - 1 {
        lemma_seq_max_ge(s.drop_last(), i);
    }
}

/// Converts 8-bit pixel intensities into working-range pattern entries:
/// the fixed-point image of v / 127.5 - 1, so 0 maps to -255, 127 to -1,
/// and 255 to 255.
pub fn pattern_from_pixels(pixels: &Vec<u8>) -> (r: Vec<i64>)
    ensures
        r@.len() == pixels@.len(),
        forall|k: int|
            0 <= k < pixels@.len() ==> #[trigger] as_ints(r@)[k] == 2 * (pixels@[k] as int) - 255,
        in_working_range(as_ints(r@)),
{
    let n = pixels.len();
    let mut out: Vec<i64> = Vec::new();
    let mut i: usize = 0;
    while i < n
        invariant
            n == pixels@.len(),
            i <= n,
            out@.len() == i,
            forall|k: int|
                0 <= k < i ==> #[trigger] as_ints(out@)[k] == 2 * (pixels@[k] as int) - 255,
        decreases n - i,
    {
        let v: i64 = 2 * (pixels[i] as i64) - 255;
        let ghost old_out = out@;
        out.push(v);
        proof {
            assert forall|k: int|
                0 <= k < i + 1 implies #[trigger] as_ints(out@)[k] == 2 * (pixels@[k] as int)
                - 255 by {
                if k < old_out.len() {
                    assert(as_ints(out@)[k] == as_ints(old_out)[k]);
                } else {
                    assert(as_ints(out@)[k] == v as int);
                }
            }
        }
        i += 1;
    }
    proof {
        assert forall|k: int|
            0 <= k < as_ints(out@).len() implies -(SPIN as int) <= #[trigger] as_ints(out@)[k]
            <= SPIN as int by {
            assert(as_ints(out@)[k] == 2 * (pixels@[k] as int) - 255);
        }
    }
    out
}

} // verus!
