//! What a run costs in processor time and memory.

use crate::float::binary32::Binary32;
use crate::float::binary64::Binary64;
use crate::float::model::{from_int, largest, mean, quotient, total, Float, Format};
use vstd::prelude::*;

verus! {

/// The shortest time between two measurements, in milliseconds.
pub const MIN_INTERVAL_MS: u64 = 50;

/// One measurement.
#[derive(Clone, Copy, Debug)]
pub struct ResourceSample {
    pub cpu_percent: Binary32,
    pub ram_bytes: u64,
}

/// What all measurements of a run come to.
#[derive(Clone, Copy, Debug)]
pub struct ResourceSummary {
    pub samples: usize,
    pub avg_cpu_percent: Binary32,
    pub max_cpu_percent: Binary32,
    pub avg_ram_mb: Binary64,
    pub max_ram_mb: Binary64,
}

/// A number of bytes in megabytes: divided by 1024 twice.
pub open spec fn megabytes(bytes: Float) -> Float {
    let d = Format::Double;
    quotient(d, quotient(d, bytes, from_int(d, 1024)), from_int(d, 1024))
}

/// The processor shares of measurements.
pub open spec fn cpu_shares(samples: Seq<ResourceSample>) -> Seq<Float> {
    samples.map_values(|s: ResourceSample| s.cpu_percent@)
}

/// The memory of measurements.
pub open spec fn ram_sizes(samples: Seq<ResourceSample>) -> Seq<Float> {
    samples.map_values(|s: ResourceSample| from_int(Format::Double, s.ram_bytes as int))
}

/// The most memory of measurements.
pub open spec fn most_ram(samples: Seq<ResourceSample>) -> u64
    decreases samples.len(),
{
    if samples.len() == 0 {
        0
    } else if most_ram(samples.drop_last()) >= samples.last().ram_bytes {
        most_ram(samples.drop_last())
    } else {
        samples.last().ram_bytes
    }
}

impl ResourceSummary {
    /// What is told where nothing was measured.
    pub open spec fn is_nothing(self) -> bool {
        &&& self.samples == 0
        &&& self.avg_cpu_percent@ == Float::zero()
        &&& self.max_cpu_percent@ == Float::zero()
        &&& self.avg_ram_mb@ == Float::zero()
        &&& self.max_ram_mb@ == Float::zero()
    }
}

impl Default for ResourceSummary {
    fn default() -> (r: ResourceSummary)
        ensures
            r.is_nothing(),
    {
        proof {
            vstd::arithmetic::mul::lemma_mul_basics(Format::Single.one() as int);
            vstd::arithmetic::mul::lemma_mul_basics(Format::Double.one() as int);
        }
        ResourceSummary {
            samples: 0,
            avg_cpu_percent: Binary32::from_u64(0),
            max_cpu_percent: Binary32::from_u64(0),
            avg_ram_mb: Binary64::from_u64(0),
            max_ram_mb: Binary64::from_u64(0),
        }
    }
}

/// A number of bytes in megabytes.
fn to_megabytes(bytes: Binary64) -> (r: Binary64)
    ensures
        r@ == megabytes(bytes@),
{
    let kilo: Binary64 = Binary64::from_u64(1024);
    bytes.over(kilo).over(kilo)
}

/// How long to wait between two measurements, in nanoseconds, when so much is asked for.
pub fn polling_interval(requested_ns: u128) -> (r: u128)
    ensures
        r == (if requested_ns >= MIN_INTERVAL_MS * 1_000_000 {
            requested_ns as int
        } else {
            MIN_INTERVAL_MS * 1_000_000
        }),
        r >= requested_ns && r >= 50_000_000,
        r == requested_ns || r == 50_000_000,
{
    let least: u128 = MIN_INTERVAL_MS as u128 * 1_000_000;
    if requested_ns >= least {
        requested_ns
    } else {
        least
    }
}

/// Averages and maxima of measurements.
pub fn summarize(samples: &[ResourceSample]) -> (r: ResourceSummary)
    ensures
        samples@.len() == 0 ==> r.is_nothing(),
        samples@.len() > 0 ==> {
            &&& r.samples == samples@.len()
            &&& r.avg_cpu_percent@ == mean(Format::Single, cpu_shares(samples@))
            &&& r.max_cpu_percent@ == largest(cpu_shares(samples@))
            &&& r.avg_ram_mb@ == megabytes(mean(Format::Double, ram_sizes(samples@)))
            &&& r.max_ram_mb@ == megabytes(
                from_int(Format::Double, most_ram(samples@) as int),
            )
        },
{
    if samples.len() == 0 {
        return ResourceSummary::default();
    }
    let mut cpu: Binary32 = Binary32::from_u64(0);
    let mut max_cpu: Binary32 = Binary32::from_u64(0);
    let mut ram: Binary64 = Binary64::from_u64(0);
    let mut max_ram: u64 = 0;
    let mut i: usize = 0;
    proof {
        vstd::arithmetic::mul::lemma_mul_basics(Format::Single.one() as int);
        vstd::arithmetic::mul::lemma_mul_basics(Format::Double.one() as int);
        assert(samples@.take(0) =~= Seq::<ResourceSample>::empty());
    }
    while i < samples.len()
        invariant
            i <= samples@.len(),
            cpu@ == total(Format::Single, cpu_shares(samples@.take(i as int))),
            max_cpu@ == largest(cpu_shares(samples@.take(i as int))),
            ram@ == total(Format::Double, ram_sizes(samples@.take(i as int))),
            max_ram == most_ram(samples@.take(i as int)),
        decreases samples@.len() - i,
    {
        let sample: ResourceSample = samples[i];
        proof {
            let before = samples@.take(i as int);
            let after = samples@.take(i + 1);
            assert(after.drop_last() =~= before);
            assert(cpu_shares(after).drop_last() =~= cpu_shares(before));
            assert(ram_sizes(after).drop_last() =~= ram_sizes(before));
        }
        cpu = cpu.plus(sample.cpu_percent);
        max_cpu = max_cpu.max(sample.cpu_percent);
        ram = ram.plus(Binary64::from_u64(sample.ram_bytes));
        if sample.ram_bytes > max_ram {
            max_ram = sample.ram_bytes;
        }
        i = i + 1;
    }
    assert(samples@.take(i as int) =~= samples@);
    let count: u64 = samples.len() as u64;
    ResourceSummary {
        samples: samples.len(),
        avg_cpu_percent: cpu.over(Binary32::from_u64(count)),
        max_cpu_percent: max_cpu,
        avg_ram_mb: to_megabytes(ram.over(Binary64::from_u64(count))),
        max_ram_mb: to_megabytes(Binary64::from_u64(max_ram)),
    }
}

} // verus!
