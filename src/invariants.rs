//! What holds of every reachable hierarchy: tags fit their level, and
//! every valid L1 line's block is resident in L2.
use vstd::prelude::*;

use vstd::arithmetic::power2::lemma_pow2_pos;

use crate::cache::{
    access_step, first_match, flushed, has_match, holds, is_first_match, is_lru_victim, l1_block,
    l1_index_of, l1_tag_of, l2_block, l2_set_of, l2_tag_of, lru_victim, set_of, touched,
    CacheBlock, Config,
};
use crate::codec::{fits, lemma_join, lemma_mask_pow2, lemma_shr_shr, lemma_split, mask};
use crate::definitions::{AccessType, Stats};

verus! {

/// Some way of the L2 set of block `blk` holds it.
pub open spec fn l2_holds(g: Config, l2: Seq<CacheBlock>, blk: u64) -> bool {
    let ways = g.ways() as int;
    let set = l2_set_of(g, blk) as int;
    exists|j: int| set * ways <= j < set * ways + ways && holds(#[trigger] l2[j], l2_tag_of(g, blk))
}

/// Inclusion: the block of every valid L1 line is resident in L2.
pub open spec fn inclusive(g: Config, l1: Seq<CacheBlock>, l2: Seq<CacheBlock>) -> bool {
    forall|i: int|
        0 <= i < l1.len() && (#[trigger] l1[i]).valid ==> l2_holds(
            g,
            l2,
            l1_block(g, l1[i].tag, i as u64),
        )
}

/// Every stored tag loses no bits when joined with its level's index.
pub open spec fn tags_fit(g: Config, l1: Seq<CacheBlock>, l2: Seq<CacheBlock>) -> bool {
    &&& forall|i: int| 0 <= i < l1.len() ==> fits((#[trigger] l1[i]).tag, g.l1_bits())
    &&& forall|j: int| 0 <= j < l2.len() ==> fits((#[trigger] l2[j]).tag, g.l2_bits())
}

/// Two stores that hold the same blocks in the same places.
pub open spec fn same_residency(a: Seq<CacheBlock>, b: Seq<CacheBlock>) -> bool {
    &&& a.len() == b.len()
    &&& forall|j: int|
        0 <= j < a.len() ==> (#[trigger] b[j]).valid == a[j].valid && b[j].tag == a[j].tag
}

/// A sequence with a matching way has a first one.
pub proof fn lemma_first_match_exists(ws: Seq<CacheBlock>, tag: u64)
    requires
        has_match(ws, tag),
    ensures
        is_first_match(ws, tag, first_match(ws, tag)),
    decreases ws.len(),
{
    if holds(ws[0], tag) {
        assert(is_first_match(ws, tag, 0));
    } else {
        let rest = ws.drop_first();
        let w = choose|w: int| 0 <= w < ws.len() && holds(#[trigger] ws[w], tag);
        assert(holds(rest[w - 1], tag));
        lemma_first_match_exists(rest, tag);
        let r = first_match(rest, tag);
        assert forall|k: int| 0 <= k < r + 1 implies !holds(#[trigger] ws[k], tag) by {
            if k > 0 {
                assert(ws[k] == rest[k - 1]);
            }
        }
        assert(is_first_match(ws, tag, r + 1));
    }
}

proof fn lemma_first_invalid_exists(ws: Seq<CacheBlock>) -> (v: int)
    requires
        exists|w: int| 0 <= w < ws.len() && !(#[trigger] ws[w]).valid,
    ensures
        0 <= v < ws.len(),
        !ws[v].valid,
        forall|w: int| 0 <= w < v ==> (#[trigger] ws[w]).valid,
    decreases ws.len(),
{
    if !ws[0].valid {
        0
    } else {
        let rest = ws.drop_first();
        let w = choose|w: int| 0 <= w < ws.len() && !(#[trigger] ws[w]).valid;
        assert(!rest[w - 1].valid);
        let r = lemma_first_invalid_exists(rest);
        assert forall|k: int| 0 <= k < r + 1 implies (#[trigger] ws[k]).valid by {
            if k > 0 {
                assert(ws[k] == rest[k - 1]);
            }
        }
        r + 1
    }
}

proof fn lemma_first_oldest_exists(ws: Seq<CacheBlock>) -> (v: int)
    requires
        ws.len() > 0,
    ensures
        0 <= v < ws.len(),
        forall|w: int|
            0 <= w < ws.len() ==> ws[v].last_clock_access <= (#[trigger] ws[w]).last_clock_access,
        forall|w: int| 0 <= w < v ==> ws[v].last_clock_access < (#[trigger] ws[w]).last_clock_access,
    decreases ws.len(),
{
    if ws.len() == 1 {
        0
    } else {
        let p = ws.drop_last();
        let r = lemma_first_oldest_exists(p);
        let n = ws.len() - 1;
        assert forall|w: int| 0 <= w < n implies ws[w] == p[w] by {}
        if ws[n].last_clock_access < ws[r].last_clock_access {
            assert forall|w: int| 0 <= w < n implies ws[n].last_clock_access < (
            #[trigger] ws[w]).last_clock_access by {
                assert(ws[w] == p[w]);
            }
            n
        } else {
            assert forall|w: int| 0 <= w < ws.len() implies ws[r].last_clock_access <= (
            #[trigger] ws[w]).last_clock_access by {
                if w < n {
                    assert(ws[w] == p[w]);
                }
            }
            assert forall|w: int| 0 <= w < r implies ws[r].last_clock_access < (
            #[trigger] ws[w]).last_clock_access by {
                assert(ws[w] == p[w]);
            }
            r
        }
    }
}

/// A non-empty set always has a least-recently-used victim.
pub proof fn lemma_lru_victim_exists(ws: Seq<CacheBlock>)
    requires
        ws.len() > 0,
    ensures
        is_lru_victim(ws, lru_victim(ws)),
{
    if exists|w: int| 0 <= w < ws.len() && !(#[trigger] ws[w]).valid {
        let v = lemma_first_invalid_exists(ws);
        assert(is_lru_victim(ws, v));
    } else {
        let v = lemma_first_oldest_exists(ws);
        assert(is_lru_victim(ws, v));
    }
}

/// Every L2 set index of a valid geometry names a whole set.
pub proof fn lemma_set_bounds(g: Config, set: u64)
    requires
        g.valid_geometry(),
        set <= mask(g.l2_bits()),
    ensures
        g.ways() > 0,
        0 <= set * g.ways(),
        set * g.ways() + g.ways() <= g.l2_sets() * g.ways(),
{
    lemma_mask_pow2(g.l2_bits());
    lemma_pow2_pos(g.s as nat);
    let n = g.l2_sets() as int;
    let w = g.ways() as int;
    assert(0 <= set * w && set * w + w <= n * w) by (nonlinear_arith)
        requires set + 1 <= n, w > 0, set >= 0;
}

/// Two set ranges that share a position are the same set.
proof fn lemma_same_set(a: int, b: int, w: int, j: int)
    requires
        w > 0,
        0 <= a,
        0 <= b,
        a * w <= j < a * w + w,
        b * w <= j < b * w + w,
    ensures
        a == b,
{
    if a < b {
        assert(a * w + w <= b * w) by (nonlinear_arith)
            requires a < b, w > 0;
    } else if b < a {
        assert(b * w + w <= a * w) by (nonlinear_arith)
            requires b < a, w > 0;
    }
}

/// Residency is all that `l2_holds` reads.
proof fn lemma_holds_kept(g: Config, l2: Seq<CacheBlock>, l2n: Seq<CacheBlock>, blk: u64)
    requires
        g.valid_geometry(),
        l2.len() == g.l2_sets() * g.ways(),
        same_residency(l2, l2n),
        l2_holds(g, l2, blk),
    ensures
        l2_holds(g, l2n, blk),
{
    let ways = g.ways() as int;
    let set = l2_set_of(g, blk) as int;
    let j = choose|j: int| set * ways <= j < set * ways + ways && holds(#[trigger] l2[j], l2_tag_of(g, blk));
    lemma_split(blk, g.l2_bits());
    lemma_set_bounds(g, l2_set_of(g, blk));
    assert(holds(l2n[j], l2_tag_of(g, blk)));
}

/// Refreshing an access time or setting a dirty bit keeps residency.
pub(crate) proof fn lemma_touch_flush_residency(
    g: Config,
    l1: Seq<CacheBlock>,
    l2: Seq<CacheBlock>,
    set: u64,
    way: int,
    now: u64,
    idx: u64,
)
    requires
        g.valid_geometry(),
        l2.len() == g.l2_sets() * g.ways(),
        l1.len() == g.l1_lines(),
        idx < l1.len(),
        set <= mask(g.l2_bits()),
        0 <= way < g.ways(),
    ensures
        same_residency(l2, touched(l2, g.ways() as int, set, way, now)),
        same_residency(l2, flushed(g, l1, l2, idx)),
{
    lemma_set_bounds(g, set);
    let line = l1[idx as int];
    let blk = l1_block(g, line.tag, idx);
    let s2 = l2_set_of(g, blk);
    let t2 = l2_tag_of(g, blk);
    let ways = g.ways() as int;
    let ws = set_of(l2, ways, s2 as int);
    if line.valid && line.dirty && has_match(ws, t2) {
        lemma_split(blk, g.l2_bits());
        lemma_set_bounds(g, s2);
        lemma_first_match_exists(ws, t2);
    }
}

/// Inclusion and fitting tags survive one access.
pub proof fn lemma_step_inclusive(
    g: Config,
    l1: Seq<CacheBlock>,
    l2: Seq<CacheBlock>,
    st: Stats,
    kind: AccessType,
    address: u64,
)
    requires
        g.valid_geometry(),
        l1.len() == g.l1_lines(),
        l2.len() == g.l2_sets() * g.ways(),
        inclusive(g, l1, l2),
        tags_fit(g, l1, l2),
    ensures
        ({
            let r = access_step(g, l1, l2, st, kind, address);
            &&& inclusive(r.0, r.1, r.2)
            &&& tags_fit(r.0, r.1, r.2)
            &&& r.0.valid_geometry()
            &&& r.1.len() == r.0.l1_lines()
            &&& r.2.len() == r.0.l2_sets() * r.0.ways()
        }),
{
    let r = access_step(g, l1, l2, st, kind, address);
    let now = (g.cache_clock + 1) as u64;
    let t1 = address >> g.c1;
    let i1 = (address >> g.b) & mask(g.l1_bits());
    let blk = address >> g.b;
    let t2 = l2_tag_of(g, blk);
    let set = l2_set_of(g, blk);
    let ways = g.ways() as int;
    let ws = set_of(l2, ways, set as int);
    let line = l1[i1 as int];
    lemma_shr_shr(address, g.b, g.c1);
    lemma_split(blk, g.l1_bits());
    lemma_split(blk, g.l2_bits());
    lemma_mask_pow2(g.l1_bits());
    lemma_set_bounds(g, set);
    assert(l1_block(g, t1, i1) == blk);
    assert(r.0.l1_bits() == g.l1_bits() && r.0.l2_bits() == g.l2_bits() && r.0.ways() == g.ways());
    if holds(line, t1) {
        let l2n = r.2;
        if has_match(ws, t2) {
            lemma_first_match_exists(ws, t2);
        }
        let w = if has_match(ws, t2) { first_match(ws, t2) } else { 0 };
        lemma_touch_flush_residency(g, l1, l2, set, w, now, i1);
        assert forall|i: int| 0 <= i < r.1.len() && (#[trigger] r.1[i]).valid implies l2_holds(
            r.0, r.2, l1_block(r.0, r.1[i].tag, i as u64)) by {
            assert(l1[i].valid);
            lemma_holds_kept(g, l2, l2n, l1_block(g, l1[i].tag, i as u64));
        }
    } else if has_match(ws, t2) {
        lemma_first_match_exists(ws, t2);
        let w = first_match(ws, t2);
        let l2a = touched(l2, ways, set, w, now);
        lemma_touch_flush_residency(g, l1, l2, set, w, now, i1);
        lemma_touch_flush_residency(g, l1, l2a, set, w, now, i1);
        assert(holds(l2[set * ways + w], t2));
        assert(l2_holds(g, l2, blk));
        assert forall|i: int| 0 <= i < r.1.len() && (#[trigger] r.1[i]).valid implies l2_holds(
            r.0, r.2, l1_block(r.0, r.1[i].tag, i as u64)) by {
            let b = if i == i1 { blk } else { l1_block(g, l1[i].tag, i as u64) };
            lemma_holds_kept(g, l2, l2a, b);
            lemma_holds_kept(g, l2a, r.2, b);
        }
    } else {
        lemma_lru_victim_exists(ws);
        let v = lru_victim(ws);
        let victim = ws[v];
        let vb = l2_block(g, victim.tag, set);
        let vi = l1_index_of(g, vb);
        lemma_split(vb, g.l1_bits());
        let evict = victim.valid && holds(l1[vi as int], l1_tag_of(g, vb));
        let l1a = if evict {
            l1.update(vi as int, CacheBlock { valid: false, ..l1[vi as int] })
        } else {
            l1
        };
        let k = set * ways + v;
        let installed = CacheBlock {
            tag: t2,
            valid: true,
            dirty: kind == AccessType::Write,
            last_clock_access: now,
        };
        let l2a = l2.update(k, installed);
        lemma_touch_flush_residency(g, l1a, l2a, set, v, now, i1);
        assert(holds(l2a[k], t2));
        assert(l2_holds(g, l2a, blk));
        assert forall|i: int| 0 <= i < r.1.len() && (#[trigger] r.1[i]).valid implies l2_holds(
            r.0, r.2, l1_block(r.0, r.1[i].tag, i as u64)) by {
            if i != i1 {
                assert(l1a[i].valid && l1a[i] == l1[i]);
                let b = l1_block(g, l1[i].tag, i as u64);
                let sb = l2_set_of(g, b) as int;
                let j = choose|j: int| sb * ways <= j < sb * ways + ways && holds(#[trigger] l2[j], l2_tag_of(g, b));
                lemma_split(b, g.l2_bits());
                lemma_set_bounds(g, l2_set_of(g, b));
                if j == k {
                    lemma_same_set(sb, set as int, ways, j);
                    assert(l2[k] == victim);
                    assert(vb == b);
                    lemma_join(l1[i].tag, i as u64, g.l1_bits());
                    assert(vi == i);
                    assert(false);
                }
                assert(holds(l2a[j], l2_tag_of(g, b)));
                lemma_holds_kept(g, l2a, r.2, b);
            } else {
                lemma_holds_kept(g, l2a, r.2, blk);
            }
        }
    }
}

} // verus!
