//! Traffic of one interval: rates and bytes by direction and IP version, and
//! their aggregate over an hour or a day.
use crate::counting::sat_add;
use vstd::prelude::*;

verus! {

#[derive(Clone, Copy, Debug, PartialEq, Eq, Structural)]
pub struct CounterQuad {
    pub up_v4_bps: u64,
    pub down_v4_bps: u64,
    pub up_v6_bps: u64,
    pub down_v6_bps: u64,
    pub up_v4_bytes: u64,
    pub down_v4_bytes: u64,
    pub up_v6_bytes: u64,
    pub down_v6_bytes: u64,
}

/// No traffic.
pub open spec fn zero_quad() -> CounterQuad {
    CounterQuad {
        up_v4_bps: 0,
        down_v4_bps: 0,
        up_v6_bps: 0,
        down_v6_bps: 0,
        up_v4_bytes: 0,
        down_v4_bytes: 0,
        up_v6_bytes: 0,
        down_v6_bytes: 0,
    }
}

impl Default for CounterQuad {
    fn default() -> (r: Self)
        ensures
            r == zero_quad(),
    {
        CounterQuad {
            up_v4_bps: 0,
            down_v4_bps: 0,
            up_v6_bps: 0,
            down_v6_bps: 0,
            up_v4_bytes: 0,
            down_v4_bytes: 0,
            up_v6_bytes: 0,
            down_v6_bytes: 0,
        }
    }
}

impl CounterQuad {
    /// Whether there is neither a byte nor a rate.
    pub fn is_empty(&self) -> (r: bool)
        ensures
            r == (*self == zero_quad()),
    {
        self.up_v4_bytes == 0 && self.down_v4_bytes == 0 && self.up_v6_bytes == 0
            && self.down_v6_bytes == 0 && self.up_v4_bps == 0 && self.down_v4_bps == 0
            && self.up_v6_bps == 0 && self.down_v6_bps == 0
    }
}

/// The traffic of two intervals together.
pub open spec fn sum_quad(a: CounterQuad, b: CounterQuad) -> CounterQuad {
    CounterQuad {
        up_v4_bps: sat_add(a.up_v4_bps, b.up_v4_bps),
        down_v4_bps: sat_add(a.down_v4_bps, b.down_v4_bps),
        up_v6_bps: sat_add(a.up_v6_bps, b.up_v6_bps),
        down_v6_bps: sat_add(a.down_v6_bps, b.down_v6_bps),
        up_v4_bytes: sat_add(a.up_v4_bytes, b.up_v4_bytes),
        down_v4_bytes: sat_add(a.down_v4_bytes, b.down_v4_bytes),
        up_v6_bytes: sat_add(a.up_v6_bytes, b.up_v6_bytes),
        down_v6_bytes: sat_add(a.down_v6_bytes, b.down_v6_bytes),
    }
}

/// Adds the traffic of another interval.
pub fn add_quad(dst: &mut CounterQuad, src: &CounterQuad)
    ensures
        *final(dst) == sum_quad(*old(dst), *src),
{
    dst.up_v4_bps = dst.up_v4_bps.saturating_add(src.up_v4_bps);
    dst.down_v4_bps = dst.down_v4_bps.saturating_add(src.down_v4_bps);
    dst.up_v6_bps = dst.up_v6_bps.saturating_add(src.up_v6_bps);
    dst.down_v6_bps = dst.down_v6_bps.saturating_add(src.down_v6_bps);
    dst.up_v4_bytes = dst.up_v4_bytes.saturating_add(src.up_v4_bytes);
    dst.down_v4_bytes = dst.down_v4_bytes.saturating_add(src.down_v4_bytes);
    dst.up_v6_bytes = dst.up_v6_bytes.saturating_add(src.up_v6_bytes);
    dst.down_v6_bytes = dst.down_v6_bytes.saturating_add(src.down_v6_bytes);
}

/// How far a counter went. A counter that fell was reset and counts from zero.
pub open spec fn counter_delta(current: u64, previous: u64) -> u64 {
    if current >= previous {
        (current - previous) as u64
    } else {
        current
    }
}

/// How far a counter went.
pub fn delta_bytes(current: u64, previous: u64) -> (r: u64)
    ensures
        r == counter_delta(current, previous),
{
    if current >= previous {
        current - previous
    } else {
        current
    }
}

/// The traffic with bytes and a rate added to the place of a version and a
/// direction. What comes in from a device is its upload.
pub open spec fn filled(
    q: CounterQuad,
    ip_version: u8,
    direction: u8,
    bytes: u64,
    bps: u64,
) -> CounterQuad {
    if ip_version == 4 && direction == 1 {
        CounterQuad {
            up_v4_bps: sat_add(q.up_v4_bps, bps),
            up_v4_bytes: sat_add(q.up_v4_bytes, bytes),
            ..q
        }
    } else if ip_version == 4 && direction == 2 {
        CounterQuad {
            down_v4_bps: sat_add(q.down_v4_bps, bps),
            down_v4_bytes: sat_add(q.down_v4_bytes, bytes),
            ..q
        }
    } else if ip_version == 6 && direction == 1 {
        CounterQuad {
            up_v6_bps: sat_add(q.up_v6_bps, bps),
            up_v6_bytes: sat_add(q.up_v6_bytes, bytes),
            ..q
        }
    } else if ip_version == 6 && direction == 2 {
        CounterQuad {
            down_v6_bps: sat_add(q.down_v6_bps, bps),
            down_v6_bytes: sat_add(q.down_v6_bytes, bytes),
            ..q
        }
    } else {
        q
    }
}

/// Adds bytes and a rate in the place of a version and a direction.
pub fn fill_quad(ip_version: u8, direction: u8, quad: &mut CounterQuad, bytes: u64, bps: u64)
    ensures
        *final(quad) == filled(*old(quad), ip_version, direction, bytes, bps),
{
    if ip_version == 4 && direction == 1 {
        quad.up_v4_bps = quad.up_v4_bps.saturating_add(bps);
        quad.up_v4_bytes = quad.up_v4_bytes.saturating_add(bytes);
    } else if ip_version == 4 && direction == 2 {
        quad.down_v4_bps = quad.down_v4_bps.saturating_add(bps);
        quad.down_v4_bytes = quad.down_v4_bytes.saturating_add(bytes);
    } else if ip_version == 6 && direction == 1 {
        quad.up_v6_bps = quad.up_v6_bps.saturating_add(bps);
        quad.up_v6_bytes = quad.up_v6_bytes.saturating_add(bytes);
    } else if ip_version == 6 && direction == 2 {
        quad.down_v6_bps = quad.down_v6_bps.saturating_add(bps);
        quad.down_v6_bytes = quad.down_v6_bytes.saturating_add(bytes);
    }
}

#[derive(Clone, Copy, Debug, PartialEq, Eq, Structural)]
pub enum HistoryTrafficType {
    All,
    Ipv4,
    Ipv6,
}

#[derive(Clone, Copy, Debug, PartialEq, Eq, Structural)]
pub enum HistoryDirection {
    Both,
    Up,
    Down,
}

/// Traffic of one hour or day. Averages and the 95th percentiles are filled in
/// when the bucket is reported.
#[derive(Clone, Copy, Debug, PartialEq, Eq, Structural)]
pub struct AggregatedBucket {
    pub start_ts_ms: u64,
    pub end_ts_ms: u64,
    pub sample_count: u64,
    pub up_v4_bytes: u64,
    pub down_v4_bytes: u64,
    pub up_v6_bytes: u64,
    pub down_v6_bytes: u64,
    pub up_v4_bps_sum: u64,
    pub up_v4_bps_max: u64,
    pub up_v4_bps_min: u64,
    pub down_v4_bps_sum: u64,
    pub down_v4_bps_max: u64,
    pub down_v4_bps_min: u64,
    pub up_v6_bps_sum: u64,
    pub up_v6_bps_max: u64,
    pub up_v6_bps_min: u64,
    pub down_v6_bps_sum: u64,
    pub down_v6_bps_max: u64,
    pub down_v6_bps_min: u64,
    pub up_v4_bps_avg: u64,
    pub up_v4_bps_p95: u64,
    pub down_v4_bps_avg: u64,
    pub down_v4_bps_p95: u64,
    pub up_v6_bps_avg: u64,
    pub up_v6_bps_p95: u64,
    pub down_v6_bps_avg: u64,
    pub down_v6_bps_p95: u64,
}

/// A bucket without traffic between two times.
pub open spec fn empty_bucket(start: u64, end: u64) -> AggregatedBucket {
    AggregatedBucket {
        start_ts_ms: start,
        end_ts_ms: end,
        sample_count: 0,
        up_v4_bytes: 0,
        down_v4_bytes: 0,
        up_v6_bytes: 0,
        down_v6_bytes: 0,
        up_v4_bps_sum: 0,
        up_v4_bps_max: 0,
        up_v4_bps_min: 0,
        down_v4_bps_sum: 0,
        down_v4_bps_max: 0,
        down_v4_bps_min: 0,
        up_v6_bps_sum: 0,
        up_v6_bps_max: 0,
        up_v6_bps_min: 0,
        down_v6_bps_sum: 0,
        down_v6_bps_max: 0,
        down_v6_bps_min: 0,
        up_v4_bps_avg: 0,
        up_v4_bps_p95: 0,
        down_v4_bps_avg: 0,
        down_v4_bps_p95: 0,
        up_v6_bps_avg: 0,
        up_v6_bps_p95: 0,
        down_v6_bps_avg: 0,
        down_v6_bps_p95: 0,
    }
}

impl Default for AggregatedBucket {
    fn default() -> (r: Self)
        ensures
            r == empty_bucket(0, 0),
    {
        AggregatedBucket {
            start_ts_ms: 0,
            end_ts_ms: 0,
            sample_count: 0,
            up_v4_bytes: 0,
            down_v4_bytes: 0,
            up_v6_bytes: 0,
            down_v6_bytes: 0,
            up_v4_bps_sum: 0,
            up_v4_bps_max: 0,
            up_v4_bps_min: 0,
            down_v4_bps_sum: 0,
            down_v4_bps_max: 0,
            down_v4_bps_min: 0,
            up_v6_bps_sum: 0,
            up_v6_bps_max: 0,
            up_v6_bps_min: 0,
            down_v6_bps_sum: 0,
            down_v6_bps_max: 0,
            down_v6_bps_min: 0,
            up_v4_bps_avg: 0,
            up_v4_bps_p95: 0,
            down_v4_bps_avg: 0,
            down_v4_bps_p95: 0,
            up_v6_bps_avg: 0,
            up_v6_bps_p95: 0,
            down_v6_bps_avg: 0,
            down_v6_bps_p95: 0,
        }
    }
}

impl AggregatedBucket {
    /// The bucket without IPv6 traffic.
    pub open spec fn only_v4(self) -> Self {
        AggregatedBucket {
            up_v6_bytes: 0,
            down_v6_bytes: 0,
            up_v6_bps_sum: 0,
            up_v6_bps_avg: 0,
            up_v6_bps_max: 0,
            up_v6_bps_min: 0,
            up_v6_bps_p95: 0,
            down_v6_bps_sum: 0,
            down_v6_bps_avg: 0,
            down_v6_bps_max: 0,
            down_v6_bps_min: 0,
            down_v6_bps_p95: 0,
            ..self
        }
    }

    /// The bucket without IPv4 traffic.
    pub open spec fn only_v6(self) -> Self {
        AggregatedBucket {
            up_v4_bytes: 0,
            down_v4_bytes: 0,
            up_v4_bps_sum: 0,
            up_v4_bps_avg: 0,
            up_v4_bps_max: 0,
            up_v4_bps_min: 0,
            up_v4_bps_p95: 0,
            down_v4_bps_sum: 0,
            down_v4_bps_avg: 0,
            down_v4_bps_max: 0,
            down_v4_bps_min: 0,
            down_v4_bps_p95: 0,
            ..self
        }
    }

    /// Keeps the traffic of the chosen IP version.
    pub fn with_traffic_type(self, tt: HistoryTrafficType) -> (r: Self)
        ensures
            r == match tt {
                HistoryTrafficType::All => self,
                HistoryTrafficType::Ipv4 => self.only_v4(),
                HistoryTrafficType::Ipv6 => self.only_v6(),
            },
    {
        match tt {
            HistoryTrafficType::All => self,
            HistoryTrafficType::Ipv4 => AggregatedBucket {
                up_v6_bytes: 0,
                down_v6_bytes: 0,
                up_v6_bps_sum: 0,
                up_v6_bps_avg: 0,
                up_v6_bps_max: 0,
                up_v6_bps_min: 0,
                up_v6_bps_p95: 0,
                down_v6_bps_sum: 0,
                down_v6_bps_avg: 0,
                down_v6_bps_max: 0,
                down_v6_bps_min: 0,
                down_v6_bps_p95: 0,
                ..self
            },
            HistoryTrafficType::Ipv6 => AggregatedBucket {
                up_v4_bytes: 0,
                down_v4_bytes: 0,
                up_v4_bps_sum: 0,
                up_v4_bps_avg: 0,
                up_v4_bps_max: 0,
                up_v4_bps_min: 0,
                up_v4_bps_p95: 0,
                down_v4_bps_sum: 0,
                down_v4_bps_avg: 0,
                down_v4_bps_max: 0,
                down_v4_bps_min: 0,
                down_v4_bps_p95: 0,
                ..self
            },
        }
    }

    /// The bucket with the averages of its samples, where it has any.
    pub open spec fn averaged(self) -> Self {
        if self.sample_count > 0 {
            AggregatedBucket {
                up_v4_bps_avg: self.up_v4_bps_sum / self.sample_count,
                down_v4_bps_avg: self.down_v4_bps_sum / self.sample_count,
                up_v6_bps_avg: self.up_v6_bps_sum / self.sample_count,
                down_v6_bps_avg: self.down_v6_bps_sum / self.sample_count,
                ..self
            }
        } else {
            self
        }
    }

    /// The bucket with the largest rates in the place of the 95th percentiles.
    pub open spec fn peaked(self) -> Self {
        AggregatedBucket {
            up_v4_bps_p95: self.up_v4_bps_max,
            down_v4_bps_p95: self.down_v4_bps_max,
            up_v6_bps_p95: self.up_v6_bps_max,
            down_v6_bps_p95: self.down_v6_bps_max,
            ..self
        }
    }

    /// The bucket as it is reported.
    pub open spec fn finalized(self) -> Self {
        self.averaged().peaked()
    }

    /// Fills in the averages and the 95th percentiles. No samples are kept, so the
    /// largest rate stands for the percentile.
    pub fn finalize(self) -> (r: Self)
        ensures
            r == self.finalized(),
    {
        let mut b = self;
        if b.sample_count > 0 {
            b.up_v4_bps_avg = b.up_v4_bps_sum / b.sample_count;
            b.down_v4_bps_avg = b.down_v4_bps_sum / b.sample_count;
            b.up_v6_bps_avg = b.up_v6_bps_sum / b.sample_count;
            b.down_v6_bps_avg = b.down_v6_bps_sum / b.sample_count;
        }
        b.up_v4_bps_p95 = b.up_v4_bps_max;
        b.down_v4_bps_p95 = b.down_v4_bps_max;
        b.up_v6_bps_p95 = b.up_v6_bps_max;
        b.down_v6_bps_p95 = b.down_v6_bps_max;
        b
    }
}

/// Counters with the bytes of a bucket added.
pub open spec fn with_bucket_bytes(q: CounterQuad, b: AggregatedBucket) -> CounterQuad {
    CounterQuad {
        up_v4_bytes: sat_add(q.up_v4_bytes, b.up_v4_bytes),
        down_v4_bytes: sat_add(q.down_v4_bytes, b.down_v4_bytes),
        up_v6_bytes: sat_add(q.up_v6_bytes, b.up_v6_bytes),
        down_v6_bytes: sat_add(q.down_v6_bytes, b.down_v6_bytes),
        ..q
    }
}

/// Adds the bytes of a bucket.
pub fn add_bucket_bytes(dst: &mut CounterQuad, bucket: &AggregatedBucket)
    ensures
        *final(dst) == with_bucket_bytes(*old(dst), *bucket),
{
    dst.up_v4_bytes = dst.up_v4_bytes.saturating_add(bucket.up_v4_bytes);
    dst.down_v4_bytes = dst.down_v4_bytes.saturating_add(bucket.down_v4_bytes);
    dst.up_v6_bytes = dst.up_v6_bytes.saturating_add(bucket.up_v6_bytes);
    dst.down_v6_bytes = dst.down_v6_bytes.saturating_add(bucket.down_v6_bytes);
}

/// Finalizing twice is finalizing once.
pub proof fn law_finalize_is_idempotent(b: AggregatedBucket)
    ensures
        b.finalized().finalized() == b.finalized(),
{
}

/// Keeping one IP version and then the other leaves no traffic.
pub proof fn law_versions_are_disjoint(b: AggregatedBucket)
    ensures
        b.only_v4().only_v6() == b.only_v6().only_v4(),
        b.only_v4().only_v6() == (AggregatedBucket {
            sample_count: b.sample_count,
            ..empty_bucket(b.start_ts_ms, b.end_ts_ms)
        }),
{
}

} // verus!
