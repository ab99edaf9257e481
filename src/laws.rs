//! Properties of the hierarchy that relate several accesses or every state.
use vstd::prelude::*;

use crate::cache::{
    access_step, first_match, geometry_ok, has_match, holds, l1_block, l2_set_of, l2_tag_of,
    lru_victim, set_of, touched, CacheBlock, Config,
};
use crate::codec::{lemma_fits_zero, lemma_split, mask};
use crate::definitions::{AccessType, Stats};
use crate::invariants::{
    inclusive, lemma_first_match_exists, lemma_lru_victim_exists, lemma_set_bounds,
    lemma_step_inclusive, lemma_touch_flush_residency, tags_fit,
};
use crate::trace::{fresh_state, replay};

verus! {

/// Every state that a trace reaches from a fresh hierarchy is inclusive:
/// each valid L1 line's block is resident in its L2 set.
pub proof fn lemma_replay_inclusive(c1: u64, c2: u64, b: u64, s: u64, trace: Seq<(AccessType, u64)>)
    requires
        geometry_ok(c1, c2, b, s),
    ensures
        ({
            let r = replay(fresh_state(c1, c2, b, s), trace);
            inclusive(r.0, r.1, r.2) && tags_fit(r.0, r.1, r.2)
        }),
        ({
            let r = replay(fresh_state(c1, c2, b, s), trace);
            &&& r.0.valid_geometry()
            &&& r.1.len() == r.0.l1_lines()
            &&& r.2.len() == r.0.l2_sets() * r.0.ways()
        }),
    decreases trace.len(),
{
    let st = fresh_state(c1, c2, b, s);
    if trace.len() == 0 {
        lemma_fits_zero(st.0.l1_bits());
        lemma_fits_zero(st.0.l2_bits());
    } else {
        lemma_replay_inclusive(c1, c2, b, s, trace.drop_last());
        let before = replay(st, trace.drop_last());
        let (kind, address) = trace.last();
        lemma_step_inclusive(before.0, before.1, before.2, before.3, kind, address);
    }
}

/// The L1 line that an address maps to, a function of address and geometry.
pub open spec fn l1_index_of_address(g: Config, address: u64) -> u64 {
    (address >> g.b) & mask(g.l1_bits())
}

/// The L1 tag of an address.
pub open spec fn l1_tag_of_address(g: Config, address: u64) -> u64 {
    address >> g.c1
}

/// Direct mapping: two addresses with one L1 index and different L1 tags
/// are never resident in L1 at the same time.
pub proof fn lemma_direct_mapped(g: Config, l1: Seq<CacheBlock>, a1: u64, a2: u64)
    requires
        l1_index_of_address(g, a1) == l1_index_of_address(g, a2),
        l1_tag_of_address(g, a1) != l1_tag_of_address(g, a2),
    ensures
        !(holds(l1[l1_index_of_address(g, a1) as int], l1_tag_of_address(g, a1)) && holds(
            l1[l1_index_of_address(g, a2) as int],
            l1_tag_of_address(g, a2),
        )),
{
}

/// An access that hits in L1, a write included, leaves every L2 dirty bit
/// as it was.
pub proof fn lemma_l1_hit_keeps_l2_dirty(
    g: Config,
    l1: Seq<CacheBlock>,
    l2: Seq<CacheBlock>,
    st: Stats,
    kind: AccessType,
    address: u64,
)
    requires
        g.valid_geometry(),
        l1.len() == g.l1_lines(),
        l2.len() == g.l2_sets() * g.ways(),
        holds(l1[l1_index_of_address(g, address) as int], l1_tag_of_address(g, address)),
    ensures
        ({
            let r = access_step(g, l1, l2, st, kind, address);
            &&& r.2.len() == l2.len()
            &&& forall|j: int| 0 <= j < l2.len() ==> (#[trigger] r.2[j]).dirty == l2[j].dirty
        }),
{
    let blk = address >> g.b;
    let set = l2_set_of(g, blk);
    let ws = set_of(l2, g.ways() as int, set as int);
    lemma_split(blk, g.l2_bits());
    lemma_set_bounds(g, set);
    if has_match(ws, l2_tag_of(g, blk)) {
        lemma_first_match_exists(ws, l2_tag_of(g, blk));
    }
}

/// An L2 line keeps its block but turns dirty only when the access moved
/// a different block into the L1 line that held that block dirty: the
/// access missed in L1, and the line it replaced was valid, dirty, and held
/// the block of that L2 line.
pub proof fn lemma_l2_dirty_only_on_l1_replacement(
    g: Config,
    l1: Seq<CacheBlock>,
    l2: Seq<CacheBlock>,
    st: Stats,
    kind: AccessType,
    address: u64,
    j: int,
)
    requires
        g.valid_geometry(),
        l1.len() == g.l1_lines(),
        l2.len() == g.l2_sets() * g.ways(),
        0 <= j < l2.len(),
        l2[j].valid,
        !l2[j].dirty,
        ({
            let r = access_step(g, l1, l2, st, kind, address);
            r.2[j].valid && r.2[j].tag == l2[j].tag && r.2[j].dirty
        }),
    ensures
        ({
            let r = access_step(g, l1, l2, st, kind, address);
            let i1 = l1_index_of_address(g, address);
            let out = l1[i1 as int];
            let ob = l1_block(g, out.tag, i1);
            let ways = g.ways() as int;
            &&& !holds(out, l1_tag_of_address(g, address))
            &&& out.valid && out.dirty
            &&& l2_set_of(g, ob) * ways <= j < l2_set_of(g, ob) * ways + ways
            &&& l2[j].tag == l2_tag_of(g, ob)
            &&& r.1[i1 as int].tag != out.tag
        }),
{
    let r = access_step(g, l1, l2, st, kind, address);
    let now = (g.cache_clock + 1) as u64;
    let t1 = address >> g.c1;
    let i1 = l1_index_of_address(g, address);
    let blk = address >> g.b;
    let t2 = l2_tag_of(g, blk);
    let set = l2_set_of(g, blk);
    let ways = g.ways() as int;
    let ws = set_of(l2, ways, set as int);
    let out = l1[i1 as int];
    let ob = l1_block(g, out.tag, i1);
    lemma_split(blk, g.l1_bits());
    lemma_split(blk, g.l2_bits());
    lemma_split(ob, g.l2_bits());
    lemma_set_bounds(g, set);
    lemma_set_bounds(g, l2_set_of(g, ob));
    crate::codec::lemma_mask_pow2(g.l1_bits());
    if holds(out, t1) {
        lemma_l1_hit_keeps_l2_dirty(g, l1, l2, st, kind, address);
        assert(false);
    } else if has_match(ws, t2) {
        lemma_first_match_exists(ws, t2);
        let l2a = touched(l2, ways, set, first_match(ws, t2), now);
        assert(l2a[j].dirty == l2[j].dirty);
        let wso = set_of(l2a, ways, l2_set_of(g, ob) as int);
        if out.valid && out.dirty && has_match(wso, l2_tag_of(g, ob)) {
            lemma_first_match_exists(wso, l2_tag_of(g, ob));
        }
    } else {
        lemma_lru_victim_exists(ws);
        let v = lru_victim(ws);
        let k = set * ways + v;
        let victim = ws[v];
        assert(victim == l2[k]);
        let l2a = l2.update(
            k,
            CacheBlock { tag: t2, valid: true, dirty: kind == AccessType::Write, last_clock_access: now },
        );
        let vb = crate::cache::l2_block(g, victim.tag, set);
        let vi = crate::cache::l1_index_of(g, vb);
        lemma_split(vb, g.l1_bits());
        let evict = victim.valid && holds(l1[vi as int], crate::cache::l1_tag_of(g, vb));
        let l1a = if evict {
            l1.update(vi as int, CacheBlock { valid: false, ..l1[vi as int] })
        } else {
            l1
        };
        lemma_touch_flush_residency(g, l1a, l2a, set, v, now, i1);
        if j == k {
            assert(r.2[k].tag == l2a[k].tag);
            assert(holds(ws[v], t2));
            assert(false);
        }
        assert(l2a[j] == l2[j]);
        let wso = set_of(l2a, ways, l2_set_of(g, ob) as int);
        if l1a[i1 as int].valid && l1a[i1 as int].dirty && has_match(wso, l2_tag_of(g, ob)) {
            lemma_first_match_exists(wso, l2_tag_of(g, ob));
        }
        assert(l1a[i1 as int].valid);
        assert(l1a[i1 as int] == out);
    }
}

/// On a miss in both levels into a set whose ways are all valid, the way
/// that receives the new block is the one with the oldest access time,
/// the first such way in scan order.
pub proof fn lemma_full_set_evicts_lru(
    g: Config,
    l1: Seq<CacheBlock>,
    l2: Seq<CacheBlock>,
    st: Stats,
    kind: AccessType,
    address: u64,
)
    requires
        g.valid_geometry(),
        l1.len() == g.l1_lines(),
        l2.len() == g.l2_sets() * g.ways(),
        !holds(l1[l1_index_of_address(g, address) as int], l1_tag_of_address(g, address)),
        ({
            let blk = address >> g.b;
            let ws = set_of(l2, g.ways() as int, l2_set_of(g, blk) as int);
            &&& !has_match(ws, l2_tag_of(g, blk))
            &&& forall|w: int| 0 <= w < ws.len() ==> (#[trigger] ws[w]).valid
        }),
    ensures
        ({
            let r = access_step(g, l1, l2, st, kind, address);
            let blk = address >> g.b;
            let set = l2_set_of(g, blk);
            let ways = g.ways() as int;
            let ws = set_of(l2, ways, set as int);
            let v = lru_victim(ws);
            &&& 0 <= v < ways
            &&& forall|w: int| 0 <= w < ways ==> ws[v].last_clock_access <= (#[trigger] ws[w]).last_clock_access
            &&& forall|w: int| 0 <= w < v ==> ws[v].last_clock_access < (#[trigger] ws[w]).last_clock_access
            &&& holds(r.2[set * ways + v], l2_tag_of(g, blk))
            &&& r.2[set * ways + v].last_clock_access == (g.cache_clock + 1) as u64
        }),
{
    let blk = address >> g.b;
    let set = l2_set_of(g, blk);
    let ways = g.ways() as int;
    let ws = set_of(l2, ways, set as int);
    lemma_split(blk, g.l1_bits());
    lemma_split(blk, g.l2_bits());
    lemma_set_bounds(g, set);
    crate::codec::lemma_mask_pow2(g.l1_bits());
    lemma_lru_victim_exists(ws);
    let v = lru_victim(ws);
    assert(!(exists|w: int| 0 <= w < ws.len() && !(#[trigger] ws[w]).valid));
    let now = (g.cache_clock + 1) as u64;
    let victim = ws[v];
    let vb = crate::cache::l2_block(g, victim.tag, set);
    let vi = crate::cache::l1_index_of(g, vb);
    lemma_split(vb, g.l1_bits());
    let evict = victim.valid && holds(l1[vi as int], crate::cache::l1_tag_of(g, vb));
    let l1a = if evict {
        l1.update(vi as int, CacheBlock { valid: false, ..l1[vi as int] })
    } else {
        l1
    };
    let k = set * ways + v;
    let l2a = l2.update(
        k,
        CacheBlock {
            tag: l2_tag_of(g, blk),
            valid: true,
            dirty: kind == AccessType::Write,
            last_clock_access: now,
        },
    );
    lemma_touch_flush_residency(g, l1a, l2a, set, v, now, l1_index_of_address(g, address));
    let ob = l1_block(g, l1a[l1_index_of_address(g, address) as int].tag, l1_index_of_address(g, address));
    lemma_split(ob, g.l2_bits());
    lemma_set_bounds(g, l2_set_of(g, ob));
    let wso = set_of(l2a, ways, l2_set_of(g, ob) as int);
    if has_match(wso, l2_tag_of(g, ob)) {
        lemma_first_match_exists(wso, l2_tag_of(g, ob));
    }
}

} // verus!
