//! Averaging the samples of one pixel.
//!
//! A pixel's colour is the arithmetic mean of a fixed number of samples,
//! each drawn on its own. The colour type and its arithmetic belong to the
//! caller; this module fixes how many samples are drawn and how they are
//! combined: summed up from zero in the order drawn, then scaled once.

use vstd::prelude::*;

verus! {

/// `samples` and `sums` record the drawing of `count` samples: each sample
/// is one that `sample` may return, `sums` starts at `zero`, and each
/// further sum is what `combine` makes of the sum before it and the next
/// sample.
pub open spec fn is_sample_run<C, FS: Fn() -> C, FA: Fn(C, C) -> C>(
    sample: FS,
    combine: FA,
    zero: C,
    count: nat,
    samples: Seq<C>,
    sums: Seq<C>,
) -> bool {
    &&& samples.len() == count
    &&& sums.len() == count + 1
    &&& sums[0] == zero
    &&& forall|k: int| 0 <= k < count ==> call_ensures(sample, (), #[trigger] samples[k])
    &&& forall|k: int|
        0 <= k < count ==> call_ensures(combine, (sums[k], #[trigger] samples[k]), sums[k + 1])
}

/// Draws `count` samples, sums them up from `zero` in the order drawn, and
/// hands the sum with the count to `scale`, whose answer is the mean.
/// With a count of zero nothing is drawn and `scale` gets `zero`.
pub fn mean_of_samples<C, FS: Fn() -> C, FA: Fn(C, C) -> C, FM: Fn(C, u32) -> C>(
    count: u32,
    zero: C,
    sample: &FS,
    combine: &FA,
    scale: &FM,
) -> (mean: C)
    requires
        call_requires(*sample, ()),
        forall|a: C, b: C| #[trigger] call_requires(*combine, (a, b)),
        forall|c: C| #[trigger] call_requires(*scale, (c, count)),
    ensures
        exists|samples: Seq<C>, sums: Seq<C>| #[trigger]
            is_sample_run(*sample, *combine, zero, count as nat, samples, sums) && call_ensures(
                *scale,
                (sums[count as int], count),
                mean,
            ),
{
    let mut sum: C = zero;
    let ghost mut samples: Seq<C> = Seq::empty();
    let ghost mut sums: Seq<C> = seq![zero];
    let mut k: u32 = 0;
    while k < count
        invariant
            call_requires(*sample, ()),
            forall|a: C, b: C| #[trigger] call_requires(*combine, (a, b)),
            k <= count,
            is_sample_run(*sample, *combine, zero, k as nat, samples, sums),
            sums[k as int] == sum,
        decreases count - k,
    {
        let drawn = sample();
        let ghost samples_before = samples;
        let ghost sums_before = sums;
        let ghost sum_before = sum;
        sum = combine(sum, drawn);
        proof {
            samples = samples.push(drawn);
            sums = sums.push(sum);
            assert forall|n: int| 0 <= n < k + 1 implies call_ensures(
                *sample,
                (),
                #[trigger] samples[n],
            ) by {
                if n < k {
                    assert(samples[n] == samples_before[n]);
                }
            }
            assert forall|n: int| 0 <= n < k + 1 implies call_ensures(
                *combine,
                (sums[n], #[trigger] samples[n]),
                sums[n + 1],
            ) by {
                if n < k {
                    assert(samples[n] == samples_before[n]);
                    assert(sums[n] == sums_before[n]);
                    assert(sums[n + 1] == sums_before[n + 1]);
                } else {
                    assert(sums[n] == sum_before);
                }
            }
        }
        k += 1;
    }
    scale(sum, count)
}

} // verus!
