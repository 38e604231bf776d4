//! How the board turns a burst of raw ADC samples into one stable slider reading.
use vstd::prelude::*;

verus! {

/// Number of samples that make one reading.
pub const ADC_SAMPLES: usize = 256;

/// Sum of the samples.
pub open spec fn sample_sum(samples: Seq<u16>) -> nat
    decreases samples.len(),
{
    if samples.len() == 0 {
        0
    } else {
        sample_sum(samples.drop_last()) + samples.last() as nat
    }
}

/// The reading for a burst of samples: their mean (rounded down), halved (rounded
/// down), which maps the ADC's 12-bit range onto `0..=RAW_MAX`.
pub open spec fn stable_reading_spec(samples: Seq<u16>) -> nat {
    (sample_sum(samples) / (ADC_SAMPLES as nat)) / 2
}

proof fn lemma_sum_bound(samples: Seq<u16>)
    ensures
        sample_sum(samples) <= samples.len() * 65535,
    decreases samples.len(),
{
    if samples.len() > 0 {
        lemma_sum_bound(samples.drop_last());
    }
}

/// The reading for one burst of `ADC_SAMPLES` samples of a slider's pin.
pub fn stable_reading(samples: &[u16]) -> (reading: u16)
    requires
        samples@.len() == ADC_SAMPLES,
    ensures
        reading == stable_reading_spec(samples@),
{
    let mut sum: u32 = 0;
    let mut i: usize = 0;
    while i < ADC_SAMPLES
        invariant
            samples@.len() == ADC_SAMPLES,
            i <= ADC_SAMPLES,
            sum == sample_sum(samples@.take(i as int)),
        decreases ADC_SAMPLES - i,
    {
        proof {
            assert(samples@.take(i + 1).drop_last() =~= samples@.take(i as int));
            lemma_sum_bound(samples@.take(i as int));
        }
        sum = sum + samples[i] as u32;
        i = i + 1;
    }
    assert(samples@.take(ADC_SAMPLES as int) =~= samples@);
    proof {
        lemma_sum_bound(samples@);
        assert(sum / 256 <= 65535) by (nonlinear_arith)
            requires
                sum <= 256 * 65535,
        ;
    }
    let average = (sum / (ADC_SAMPLES as u32)) as u16;
    average / 2
}

/// The board's ADC gives 12-bit samples; their reading never exceeds the highest
/// raw value the driver expects.
pub proof fn law_reading_within_raw_max(samples: Seq<u16>)
    requires
        samples.len() == ADC_SAMPLES,
        forall|i: int| 0 <= i < samples.len() ==> #[trigger] samples[i] <= 4095,
    ensures
        stable_reading_spec(samples) <= crate::audio::RAW_MAX,
{
    lemma_sum_bound_by(samples, 4095);
    let s = sample_sum(samples);
    assert(s / 256 <= 4095) by (nonlinear_arith)
        requires
            s <= 256 * 4095,
    ;
}

proof fn lemma_sum_bound_by(samples: Seq<u16>, max: u16)
    requires
        forall|i: int| 0 <= i < samples.len() ==> #[trigger] samples[i] <= max,
    ensures
        sample_sum(samples) <= samples.len() * max,
    decreases samples.len(),
{
    if samples.len() > 0 {
        let prefix = samples.drop_last();
        assert forall|i: int| 0 <= i < prefix.len() implies #[trigger] prefix[i] <= max by {
            assert(prefix[i] == samples[i]);
        }
        lemma_sum_bound_by(prefix, max);
        assert(samples.last() <= max);
        assert(prefix.len() * max + max == samples.len() * max) by (nonlinear_arith)
            requires
                prefix.len() + 1 == samples.len(),
        ;
    }
}

} // verus!
