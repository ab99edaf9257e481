//! Access kinds and the statistics counters of a simulation run.
use vstd::prelude::*;

verus! {

/// Default capacity exponent of L1.
pub const DEFAULT_L1_SIZE: u32 = 10;
/// Default capacity exponent of L2.
pub const DEFAULT_L2_SIZE: u32 = 15;
/// Default block-size exponent.
pub const DEFAULT_BLOCK_SIZE: u32 = 5;
/// Default associativity exponent of L2.
pub const DEFAULT_BLOCKS_PER_SET: u32 = 3;

/// Kind of a simulated memory access.
#[derive(Clone, Copy, Debug, PartialEq, Eq, Structural)]
pub enum AccessType {
    Read,
    Write,
}

/// The one fatal condition of a simulation: the logical clock would overflow.
#[derive(Clone, Copy, Debug, PartialEq, Eq, Structural)]
pub struct ClockOverflow;

/// Raw counters of a run, the nominal latencies, and the combined miss
/// counts that `finish` derives.
#[derive(Clone, Copy, Debug, PartialEq, Eq, Structural)]
pub struct Stats {
    pub accesses: u64,
    pub reads: u64,
    pub read_misses: u64,
    pub writes: u64,
    pub write_misses: u64,
    pub misses: u64,
    pub write_backs: u64,
    pub l1_read_misses: u64,
    pub l1_write_misses: u64,
    pub l2_read_misses: u64,
    pub l2_write_misses: u64,
    pub l1_access_time: u64,
    pub l2_access_time: u64,
    pub memory_access_time: u64,
}

impl Stats {
    /// Every per-access counter is at most `accesses`, which is at most `clock`.
    pub open spec fn bounded_by(self, clock: u64) -> bool {
        &&& self.accesses <= clock
        &&& self.reads <= self.accesses
        &&& self.writes <= self.accesses
        &&& self.write_backs <= self.accesses
        &&& self.l1_read_misses <= self.accesses
        &&& self.l1_write_misses <= self.accesses
        &&& self.l2_read_misses <= self.accesses
        &&& self.l2_write_misses <= self.accesses
    }

    /// The counters after one more access of `kind`.
    pub open spec fn counted_access(self, kind: AccessType) -> Stats {
        match kind {
            AccessType::Read => Stats {
                accesses: (self.accesses + 1) as u64,
                reads: (self.reads + 1) as u64,
                ..self
            },
            AccessType::Write => Stats {
                accesses: (self.accesses + 1) as u64,
                writes: (self.writes + 1) as u64,
                ..self
            },
        }
    }

    /// The counters after one more L1 miss of `kind`.
    pub open spec fn counted_l1_miss(self, kind: AccessType) -> Stats {
        match kind {
            AccessType::Read => Stats { l1_read_misses: (self.l1_read_misses + 1) as u64, ..self },
            AccessType::Write => Stats { l1_write_misses: (self.l1_write_misses + 1) as u64, ..self },
        }
    }

    /// The counters after one more L2 miss of `kind`.
    pub open spec fn counted_l2_miss(self, kind: AccessType) -> Stats {
        match kind {
            AccessType::Read => Stats { l2_read_misses: (self.l2_read_misses + 1) as u64, ..self },
            AccessType::Write => Stats { l2_write_misses: (self.l2_write_misses + 1) as u64, ..self },
        }
    }

    /// The counters after an eviction that writes back iff `wb`.
    pub open spec fn counted_write_back(self, wb: bool) -> Stats {
        if wb {
            Stats { write_backs: (self.write_backs + 1) as u64, ..self }
        } else {
            self
        }
    }

    /// All counters zero, latencies 2 (L1), 10 (L2) and 100 (memory).
    pub open spec fn spec_new() -> Stats {
        Stats {
            accesses: 0,
            reads: 0,
            read_misses: 0,
            writes: 0,
            write_misses: 0,
            misses: 0,
            write_backs: 0,
            l1_read_misses: 0,
            l1_write_misses: 0,
            l2_read_misses: 0,
            l2_write_misses: 0,
            l1_access_time: 2,
            l2_access_time: 10,
            memory_access_time: 100,
        }
    }

    /// All counters zero, latencies 2 (L1), 10 (L2) and 100 (memory).
    pub fn new() -> (r: Stats)
        ensures
            r == Stats::spec_new(),
    {
        Stats {
            accesses: 0,
            reads: 0,
            read_misses: 0,
            writes: 0,
            write_misses: 0,
            misses: 0,
            write_backs: 0,
            l1_read_misses: 0,
            l1_write_misses: 0,
            l2_read_misses: 0,
            l2_write_misses: 0,
            l1_access_time: 2,
            l2_access_time: 10,
            memory_access_time: 100,
        }
    }
}

/// A non-negative rational `num / den`; a zero `den` marks a rate that is
/// undefined because its denominator count is zero.
#[derive(Clone, Copy, Debug, PartialEq, Eq, Structural)]
pub struct Ratio {
    pub num: u128,
    pub den: u128,
}

impl Stats {
    /// Misses counted at L1, of both kinds.
    pub open spec fn l1_misses(self) -> int {
        self.l1_read_misses + self.l1_write_misses
    }

    /// Misses counted at L2, of both kinds.
    pub open spec fn l2_misses(self) -> int {
        self.l2_read_misses + self.l2_write_misses
    }

    /// Numerator of `l2_access_time + (l2_misses / l1_misses) * memory_access_time`
    /// over the denominator `l1_misses`.
    pub open spec fn l2_avg_num(self) -> int {
        self.l2_access_time * self.l1_misses() + self.l2_misses() * self.memory_access_time
    }

    /// Numerator of `l1_access_time + (l1_misses / accesses) * l2_avg` over
    /// the denominator `accesses`.
    pub open spec fn avg_num(self) -> int {
        self.l1_access_time * self.accesses + self.l2_avg_num()
    }

    /// `l1_misses / accesses`.
    pub fn l1_miss_rate(&self) -> (r: Ratio)
        ensures
            r.num == self.l1_misses(),
            r.den == self.accesses,
    {
        Ratio {
            num: self.l1_read_misses as u128 + self.l1_write_misses as u128,
            den: self.accesses as u128,
        }
    }

    /// `l2_misses / l1_misses`: relative to L2's own traffic.
    pub fn l2_miss_rate(&self) -> (r: Ratio)
        ensures
            r.num == self.l2_misses(),
            r.den == self.l1_misses(),
    {
        Ratio {
            num: self.l2_read_misses as u128 + self.l2_write_misses as u128,
            den: self.l1_read_misses as u128 + self.l1_write_misses as u128,
        }
    }

    /// `misses / accesses`.
    pub fn miss_rate(&self) -> (r: Ratio)
        ensures
            r.num == self.misses,
            r.den == self.accesses,
    {
        Ratio { num: self.misses as u128, den: self.accesses as u128 }
    }

    /// The average access time of L2, `l2_access_time + l2_miss_rate * memory_access_time`.
    pub fn l2_avg_access_time(&self) -> (r: Ratio)
        requires
            self.l2_avg_num() <= u128::MAX,
        ensures
            r.num == self.l2_avg_num(),
            r.den == self.l1_misses(),
    {
        let m1 = self.l1_read_misses as u128 + self.l1_write_misses as u128;
        let m2 = self.l2_read_misses as u128 + self.l2_write_misses as u128;
        Ratio {
            num: self.l2_access_time as u128 * m1 + m2 * self.memory_access_time as u128,
            den: m1,
        }
    }

    /// The average access time of the hierarchy,
    /// `l1_access_time + l1_miss_rate * l2_avg_access_time`; undefined when
    /// there were no L1 misses, as the L2 rates then are.
    pub fn avg_access_time(&self) -> (r: Ratio)
        requires
            self.avg_num() <= u128::MAX,
        ensures
            self.l1_misses() == 0 ==> r.num == 0 && r.den == 0,
            self.l1_misses() != 0 ==> r.num == self.avg_num() && r.den == self.accesses,
    {
        let m1 = self.l1_read_misses as u128 + self.l1_write_misses as u128;
        if m1 == 0 {
            return Ratio { num: 0, den: 0 };
        }
        let m2 = self.l2_read_misses as u128 + self.l2_write_misses as u128;
        let l2_part = self.l2_access_time as u128 * m1 + m2 * self.memory_access_time as u128;
        Ratio { num: self.l1_access_time as u128 * self.accesses as u128 + l2_part, den: self.accesses as u128 }
    }
}

/// The average access times obey the closed form: for `a` accesses, `m1`
/// L1 misses and `m2` L2 misses, L2's average is `l2 + (m2 / m1) * mem` and
/// the hierarchy's is `l1 + (m1 / a) * (l2 + (m2 / m1) * mem)`, both as
/// rationals.
pub proof fn lemma_access_time_formulas(st: Stats)
    requires
        st.accesses > 0,
        st.l1_misses() > 0,
    ensures
        st.l2_avg_num() * st.l1_misses() == st.l1_misses() * (st.l2_access_time * st.l1_misses()
            + st.l2_misses() * st.memory_access_time),
        st.avg_num() * (st.accesses * st.l1_misses()) == st.accesses * (st.l1_access_time
            * (st.accesses * st.l1_misses()) + st.l1_misses() * st.l2_avg_num()),
{
    let a = st.accesses as int;
    let m1 = st.l1_misses();
    let n2 = st.l2_avg_num();
    let l1 = st.l1_access_time as int;
    assert((l1 * a + n2) * (a * m1) == a * (l1 * (a * m1) + m1 * n2)) by (nonlinear_arith);
}

/// Fills in the combined miss counts once the trace is over.
pub fn finish(stats: &mut Stats)
    requires
        old(stats).l1_misses() + old(stats).l2_misses() <= u64::MAX,
    ensures
        *final(stats) == (Stats {
            read_misses: (old(stats).l1_read_misses + old(stats).l2_read_misses) as u64,
            write_misses: (old(stats).l1_write_misses + old(stats).l2_write_misses) as u64,
            misses: (old(stats).l1_misses() + old(stats).l2_misses()) as u64,
            ..*old(stats)
        }),
{
    stats.read_misses = stats.l1_read_misses + stats.l2_read_misses;
    stats.write_misses = stats.l1_write_misses + stats.l2_write_misses;
    stats.misses = stats.read_misses + stats.write_misses;
}

} // verus!
