//! How a window is cut: the sizes an engine accepts, the hop between frames,
//! the phase of the taper, and the layout of the frequency bins.

use vstd::prelude::*;
use vstd::arithmetic::div_mod::lemma_fundamental_div_mod_converse;
use crate::ring_buffer::wrapped_sum;
use vstd::arithmetic::power2::{lemma2_to64, lemma_pow2_strictly_increases, lemma_pow2_unfold, pow2};

verus! {

/// Number of frames that overlap at any sample; a window is this many hops long.
pub const OVERLAP_RATIO: usize = 4;

pub open spec fn is_power_of_two(n: int) -> bool {
    exists|e: nat| n == pow2(e)
}

/// The sizes an engine runs with: the powers of two from the overlap ratio up.
pub open spec fn is_supported_size(window_size: int) -> bool {
    is_power_of_two(window_size) && window_size >= 4
}

/// `from`, doubled until it is at least `n`.
pub open spec fn doubled_to_reach(n: int, from: int) -> int
    decreases (if from < n { n - from } else { 0 }),
{
    if 0 < from < n {
        doubled_to_reach(n, 2 * from)
    } else {
        from
    }
}

/// The size an engine takes when asked for `requested`: the least supported
/// size that is at least `requested` (see `lemma_window_size_is_least`).
pub open spec fn window_size_for(requested: int) -> int {
    doubled_to_reach(requested, 4)
}

/// Samples between two successive frames.
pub open spec fn hop_of(window_size: int) -> int {
    window_size / 4
}

/// The highest bin that stands for a frequency of its own; the bins above it mirror those below.
pub open spec fn nyquist_bin_of(window_size: int) -> int {
    window_size / 2
}

/// Where in its period the taper stands at sample `index` of a window rotated by `offset`.
pub open spec fn taper_index_of(window_size: int, index: int, offset: int) -> int {
    (index + offset) % window_size
}

/// Rounds a requested window size up to the next supported one.
pub fn normalize_window_size(requested: usize) -> (size: usize)
    requires
        requested <= usize::MAX / 2 + 1,
    ensures
        size == window_size_for(requested as int),
        is_supported_size(size as int),
        size >= requested,
{
    let mut size: usize = OVERLAP_RATIO;
    while size < requested
        invariant
            4 <= size,
            requested <= usize::MAX / 2 + 1,
            doubled_to_reach(requested as int, size as int) == window_size_for(requested as int),
        decreases (if size < requested { requested - size } else { 0 }),
    {
        size = size * 2;
    }
    proof {
        lemma_window_size_is_supported(requested as int);
    }
    size
}

pub fn frame_hop(window_size: usize) -> (hop: usize)
    ensures
        hop == hop_of(window_size as int),
{
    window_size / OVERLAP_RATIO
}

pub fn nyquist_bin(window_size: usize) -> (bin: usize)
    ensures
        bin == nyquist_bin_of(window_size as int),
{
    window_size / 2
}

/// The taper's phase index for sample `index`: `(index + offset) mod window_size`,
/// for any `index` and `offset`.
pub fn taper_index(window_size: usize, index: usize, offset: usize) -> (at: usize)
    requires
        window_size > 0,
    ensures
        at == taper_index_of(window_size as int, index as int, offset as int),
        at < window_size,
{
    wrapped_sum(index, offset, window_size)
}

/// The bins that share one remapped component: `low` takes the part `1 - frac`,
/// `high` the part `frac`.
pub struct BinTargets {
    pub low: Option<usize>,
    pub high: Option<usize>,
}

/// Which bins a component lands in whose fractional target index has the
/// integer part `k_low`. A bin above the Nyquist bin takes nothing.
pub fn bin_targets(window_size: usize, k_low: usize) -> (targets: BinTargets)
    ensures
        targets.low == (if k_low <= nyquist_bin_of(window_size as int) {
            Some(k_low)
        } else {
            None
        }),
        targets.high == (if k_low < nyquist_bin_of(window_size as int) {
            Some((k_low + 1) as usize)
        } else {
            None
        }),
{
    let top = window_size / 2;
    let low = if k_low <= top {
        Some(k_low)
    } else {
        None
    };
    let high = if k_low < top {
        Some(k_low + 1)
    } else {
        None
    };
    BinTargets { low, high }
}

/// What bin `bin` holds once the two shares of a component with target `k_low`
/// were laid onto the spectrum `before`, where `sum` relates two values to their sum.
pub open spec fn deposited_bin<C>(
    before: Seq<C>,
    after: C,
    bin: int,
    k_low: int,
    low: C,
    high: C,
    sum: spec_fn(C, C, C) -> bool,
) -> bool {
    let top = nyquist_bin_of(before.len() as int);
    if bin == k_low && k_low <= top {
        sum(before[bin], low, after)
    } else if bin == k_low + 1 && k_low < top {
        sum(before[bin], high, after)
    } else {
        after == before[bin]
    }
}

/// Lays one remapped component onto the synthesis spectrum: `low` is added to
/// bin `k_low` and `high` to the bin above it, each only where the bin is not
/// above the Nyquist bin. What a bin held before stays part of its sum.
pub fn deposit<C: Copy, A: Fn(C, C) -> C>(
    spectrum: &mut Vec<C>,
    k_low: usize,
    low: C,
    high: C,
    combine: &A,
)
    requires
        old(spectrum)@.len() >= 1,
        forall|held: C, share: C| call_requires(*combine, (held, share)),
    ensures
        final(spectrum)@.len() == old(spectrum)@.len(),
        forall|bin: int|
            0 <= bin < old(spectrum)@.len() ==> deposited_bin(
                old(spectrum)@,
                #[trigger] final(spectrum)@[bin],
                bin,
                k_low as int,
                low,
                high,
                |held: C, share: C, r: C| call_ensures(*combine, (held, share), r),
            ),
        k_low > nyquist_bin_of(old(spectrum)@.len() as int) ==> final(spectrum)@ == old(spectrum)@,
{
    let targets = bin_targets(spectrum.len(), k_low);
    if let Some(bin) = targets.low {
        let summed = combine(spectrum[bin], low);
        spectrum[bin] = summed;
    }
    if let Some(bin) = targets.high {
        let summed = combine(spectrum[bin], high);
        spectrum[bin] = summed;
    }
    proof {
        if k_low > nyquist_bin_of(old(spectrum)@.len() as int) {
            assert(spectrum@ =~= old(spectrum)@);
        }
    }
}

/// What bin `bin` holds once a half spectrum `before` of length `len` was made
/// Hermitian, where `real_part` and `conjugate` relate a value to its real part
/// and to its conjugate.
pub open spec fn completed_bin<C>(
    before: Seq<C>,
    after: C,
    bin: int,
    real_part: spec_fn(C, C) -> bool,
    conjugate: spec_fn(C, C) -> bool,
) -> bool {
    let len = before.len() as int;
    let top = nyquist_bin_of(len);
    if bin == 0 || bin == top {
        real_part(before[bin], after)
    } else if len - top < bin < len {
        conjugate(before[len - bin], after)
    } else {
        after == before[bin]
    }
}

/// Completes the lower half of a spectrum to that of a real signal: bin 0 and
/// the Nyquist bin lose their imaginary part, and each bin above the Nyquist
/// bin becomes the conjugate of its mirror image below.
pub fn complete_spectrum<C: Copy, R: Fn(C) -> C, J: Fn(C) -> C>(
    spectrum: &mut Vec<C>,
    real_of: R,
    conjugate_of: J,
)
    requires
        old(spectrum)@.len() >= 2,
        forall|c: C| call_requires(real_of, (c,)),
        forall|c: C| call_requires(conjugate_of, (c,)),
    ensures
        final(spectrum)@.len() == old(spectrum)@.len(),
        forall|bin: int|
            0 <= bin < old(spectrum)@.len() ==> completed_bin(
                old(spectrum)@,
                #[trigger] final(spectrum)@[bin],
                bin,
                |c: C, r: C| call_ensures(real_of, (c,), r),
                |c: C, r: C| call_ensures(conjugate_of, (c,), r),
            ),
{
    let len = spectrum.len();
    let top = len / 2;
    let ghost real_part = |c: C, r: C| call_ensures(real_of, (c,), r);
    let ghost conjugate = |c: C, r: C| call_ensures(conjugate_of, (c,), r);
    let dc = real_of(spectrum[0]);
    spectrum[0] = dc;
    let nyquist = real_of(spectrum[top]);
    spectrum[top] = nyquist;
    let mut i: usize = 1;
    while i < top
        invariant
            1 <= i <= top == len / 2,
            spectrum@.len() == len == old(spectrum)@.len(),
            real_part == (|c: C, r: C| call_ensures(real_of, (c,), r)),
            conjugate == (|c: C, r: C| call_ensures(conjugate_of, (c,), r)),
            forall|c: C| call_requires(conjugate_of, (c,)),
            forall|bin: int|
                0 <= bin <= len - top ==> completed_bin(
                    old(spectrum)@,
                    #[trigger] spectrum@[bin],
                    bin,
                    real_part,
                    conjugate,
                ),
            forall|bin: int|
                len - top < bin <= len - i ==> #[trigger] spectrum@[bin] == old(spectrum)@[bin],
            forall|bin: int|
                len - i < bin < len ==> completed_bin(
                    old(spectrum)@,
                    #[trigger] spectrum@[bin],
                    bin,
                    real_part,
                    conjugate,
                ),
        decreases top - i,
    {
        let mirrored = conjugate_of(spectrum[i]);
        spectrum[len - i] = mirrored;
        i = i + 1;
    }
}

/// A supported size is a power of two, reaches the request, and is at least the overlap ratio.
pub proof fn lemma_window_size_is_supported(requested: int)
    ensures
        is_supported_size(window_size_for(requested)),
        window_size_for(requested) >= requested,
        window_size_for(requested) >= 4,
{
    lemma2_to64();
    lemma_doubling(requested, 4, 2);
}

/// No supported size that reaches the request is smaller than the one chosen.
pub proof fn lemma_window_size_is_least(requested: int, other: int)
    requires
        is_supported_size(other),
        other >= requested,
    ensures
        window_size_for(requested) <= other,
{
    lemma2_to64();
    let e = choose|e: nat| other == pow2(e);
    lemma_doubling_is_least(requested, 4, 2, e);
}

/// Asking for a supported size gives that size.
pub proof fn lemma_supported_size_is_kept(window_size: int)
    requires
        is_supported_size(window_size),
    ensures
        window_size_for(window_size) == window_size,
{
    lemma_window_size_is_supported(window_size);
    lemma_window_size_is_least(window_size, window_size);
}

/// A supported window is exactly four hops long, and its hop is not empty.
pub proof fn lemma_hop_is_exact(window_size: int)
    requires
        is_supported_size(window_size),
    ensures
        OVERLAP_RATIO * hop_of(window_size) == window_size,
        hop_of(window_size) >= 1,
        2 * nyquist_bin_of(window_size) == window_size,
{
    lemma2_to64();
    let e = choose|e: nat| window_size == pow2(e);
    if e >= 2 {
        lemma_pow2_unfold(e);
        lemma_pow2_unfold((e - 1) as nat);
        let quarter = pow2((e - 2) as nat) as int;
        lemma_fundamental_div_mod_converse(window_size, 4, quarter, 0);
        lemma_fundamental_div_mod_converse(window_size, 2, 2 * quarter, 0);
        vstd::arithmetic::power2::lemma_pow2_pos((e - 2) as nat);
    } else {
        assert(e == 0 || e == 1);
    }
}

/// Two components that land on the same target add up there: what the first
/// left in a bin is one of the two terms of what the second leaves.
pub proof fn lemma_shares_accumulate<C>(
    first: Seq<C>,
    second: Seq<C>,
    third: Seq<C>,
    k_low: int,
    shares: ((C, C), (C, C)),
    sum: spec_fn(C, C, C) -> bool,
)
    requires
        first.len() == second.len() == third.len(),
        0 <= k_low < nyquist_bin_of(first.len() as int),
        forall|bin: int|
            0 <= bin < first.len() ==> deposited_bin(
                first,
                #[trigger] second[bin],
                bin,
                k_low,
                shares.0.0,
                shares.0.1,
                sum,
            ),
        forall|bin: int|
            0 <= bin < first.len() ==> deposited_bin(
                second,
                #[trigger] third[bin],
                bin,
                k_low,
                shares.1.0,
                shares.1.1,
                sum,
            ),
    ensures
        sum(first[k_low], shares.0.0, second[k_low]),
        sum(second[k_low], shares.1.0, third[k_low]),
        sum(first[k_low + 1], shares.0.1, second[k_low + 1]),
        sum(second[k_low + 1], shares.1.1, third[k_low + 1]),
        forall|bin: int|
            0 <= bin < first.len() && bin != k_low && bin != k_low + 1 ==> third[bin] == first[bin],
{
    assert(deposited_bin(first, second[k_low], k_low, k_low, shares.0.0, shares.0.1, sum));
    assert(deposited_bin(second, third[k_low], k_low, k_low, shares.1.0, shares.1.1, sum));
    assert(deposited_bin(first, second[k_low + 1], k_low + 1, k_low, shares.0.0, shares.0.1, sum));
    assert(deposited_bin(second, third[k_low + 1], k_low + 1, k_low, shares.1.0, shares.1.1, sum));
    assert forall|bin: int|
        0 <= bin < first.len() && bin != k_low && bin != k_low + 1 implies third[bin]
        == first[bin] by {
        assert(deposited_bin(first, second[bin], bin, k_low, shares.0.0, shares.0.1, sum));
        assert(deposited_bin(second, third[bin], bin, k_low, shares.1.0, shares.1.1, sum));
    }
}

/// A component whose target lies above the Nyquist bin leaves the spectrum as it was.
pub proof fn lemma_beyond_nyquist_adds_nothing<C>(
    before: Seq<C>,
    after: Seq<C>,
    k_low: int,
    low: C,
    high: C,
    sum: spec_fn(C, C, C) -> bool,
)
    requires
        before.len() == after.len(),
        k_low > nyquist_bin_of(before.len() as int),
        forall|bin: int|
            0 <= bin < before.len() ==> deposited_bin(
                before,
                #[trigger] after[bin],
                bin,
                k_low,
                low,
                high,
                sum,
            ),
    ensures
        after == before,
{
    assert forall|bin: int| 0 <= bin < before.len() implies after[bin] == before[bin] by {
        assert(deposited_bin(before, after[bin], bin, k_low, low, high, sum));
    }
    assert(after =~= before);
}

proof fn lemma_doubling(n: int, from: int, e: nat)
    requires
        from == pow2(e),
    ensures
        is_power_of_two(doubled_to_reach(n, from)),
        doubled_to_reach(n, from) >= n,
        doubled_to_reach(n, from) >= from,
    decreases (if from < n { n - from } else { 0 }),
{
    vstd::arithmetic::power2::lemma_pow2_pos(e);
    if 0 < from < n {
        lemma_pow2_unfold(e + 1);
        lemma_doubling(n, 2 * from, e + 1);
    }
}

proof fn lemma_doubling_is_least(n: int, from: int, e: nat, other: nat)
    requires
        from == pow2(e),
        pow2(other) >= n,
        pow2(other) >= from,
    ensures
        doubled_to_reach(n, from) <= pow2(other),
    decreases (if from < n { n - from } else { 0 }),
{
    vstd::arithmetic::power2::lemma_pow2_pos(e);
    if 0 < from < n {
        lemma_pow2_unfold(e + 1);
        if other <= e {
            if other < e {
                lemma_pow2_strictly_increases(other, e);
            }
            assert(pow2(other) <= from);
        } else {
            if e + 1 < other {
                lemma_pow2_strictly_increases(e + 1, other);
            }
            lemma_doubling_is_least(n, 2 * from, e + 1, other);
        }
    }
}

} // verus!
