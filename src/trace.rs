//! Replaying a whole trace of accesses against a fresh hierarchy.
use vstd::prelude::*;

use crate::cache::{
    access_step, cache_access, empty_line, geometry_ok, init, well_formed, CacheBlock, Config,
};
use crate::definitions::{AccessType, Stats};

verus! {

/// The state of a hierarchy: configuration and clock, L1 lines, L2 lines,
/// counters.
pub type SimState = (Config, Seq<CacheBlock>, Seq<CacheBlock>, Stats);

/// The state of a fresh hierarchy of geometry (`c1`, `c2`, `b`, `s`).
pub open spec fn fresh_state(c1: u64, c2: u64, b: u64, s: u64) -> SimState {
    let g = Config { c1, c2, b, s, cache_clock: 0 };
    (
        g,
        Seq::new(g.l1_lines(), |i: int| empty_line()),
        Seq::new(g.l2_sets() * g.ways(), |i: int| empty_line()),
        Stats::spec_new(),
    )
}

/// The state after each access of `trace` in turn, starting from `st`.
pub open spec fn replay(st: SimState, trace: Seq<(AccessType, u64)>) -> SimState
    decreases trace.len(),
{
    if trace.len() == 0 {
        st
    } else {
        let before = replay(st, trace.drop_last());
        let (kind, address) = trace.last();
        access_step(before.0, before.1, before.2, before.3, kind, address)
    }
}

/// Replays `trace` against a fresh hierarchy of geometry (`c1`, `c2`, `b`,
/// `s`) and returns the raw counters.
pub fn simulate(c1: u64, c2: u64, b: u64, s: u64, trace: &Vec<(AccessType, u64)>) -> (r: Stats)
    requires
        geometry_ok(c1, c2, b, s),
    ensures
        r == replay(fresh_state(c1, c2, b, s), trace@).3,
{
    let (mut config, mut l1, mut l2) = init(c1, c2, b, s);
    let mut stats = Stats::new();
    let ghost start = fresh_state(c1, c2, b, s);
    assert(trace@.take(0) =~= Seq::<(AccessType, u64)>::empty());
    let mut i: usize = 0;
    while i < trace.len()
        invariant
            0 <= i <= trace.len(),
            config.cache_clock == i,
            well_formed(config, &l1, &l2),
            stats.bounded_by(config.cache_clock),
            (config, l1.cache@, l2.cache@, stats) == replay(start, trace@.take(i as int)),
        decreases trace.len() - i,
    {
        let (kind, address) = trace[i];
        // the clock counts the accesses so far, so it is below its maximum
        let stepped = cache_access(kind, address, &mut config, &mut l1, &mut l2, &mut stats);
        assert(stepped is Ok);
        assert(trace@.take(i + 1).drop_last() =~= trace@.take(i as int));
        i += 1;
    }
    assert(trace@.take(trace.len() as int) =~= trace@);
    stats
}

/// Replaying one trace against two fresh hierarchies of one geometry gives
/// the same state, counters included: nothing outside the hierarchy takes
/// part in a run.
pub proof fn lemma_fresh_replays_agree(
    first: SimState,
    second: SimState,
    c1: u64,
    c2: u64,
    b: u64,
    s: u64,
    trace: Seq<(AccessType, u64)>,
)
    requires
        first.0 == second.0,
        first.0 == (Config { c1, c2, b, s, cache_clock: 0 }),
        first.1 == Seq::new(first.0.l1_lines(), |i: int| empty_line()),
        second.1 == Seq::new(second.0.l1_lines(), |i: int| empty_line()),
        first.2 == Seq::new(first.0.l2_sets() * first.0.ways(), |i: int| empty_line()),
        second.2 == Seq::new(second.0.l2_sets() * second.0.ways(), |i: int| empty_line()),
        first.3 == Stats::spec_new(),
        second.3 == Stats::spec_new(),
    ensures
        replay(first, trace) == replay(second, trace),
{
    assert(first == second);
}

} // verus!
