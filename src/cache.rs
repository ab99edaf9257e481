//! The two cache levels, their geometry and the per-access engine.
use vstd::prelude::*;
use vstd::arithmetic::power2::{pow2, lemma_pow2_adds, lemma_pow2_pos, lemma_pow2_strictly_increases};

use crate::codec::{
    convert_index_l1_to_l2, convert_index_l2_to_l1, convert_tag_l1_to_l2, convert_tag_l2_to_l1,
    get_index, get_tag, join, lemma_fits_zero, lemma_mask_pow2, lemma_shr_shr, lemma_split, mask,
};
use crate::definitions::{AccessType, ClockOverflow, Stats};
use crate::invariants::{inclusive, lemma_step_inclusive, tags_fit};

verus! {

/// Metadata of one cache line.
#[derive(Clone, Copy, Debug, PartialEq, Eq, Structural)]
pub struct CacheBlock {
    pub tag: u64,
    pub valid: bool,
    pub dirty: bool,
    pub last_clock_access: u64,
}

impl CacheBlock {
    /// An invalid, clean line with tag zero.
    pub fn new() -> (r: CacheBlock)
        ensures
            r == empty_line(),
    {
        CacheBlock { tag: 0, valid: false, dirty: false, last_clock_access: 0 }
    }
}

pub open spec fn empty_line() -> CacheBlock {
    CacheBlock { tag: 0, valid: false, dirty: false, last_clock_access: 0 }
}

/// Geometry of both levels, as exponents of two, and the logical clock.
pub struct Config {
    pub c1: u64,
    pub c2: u64,
    pub b: u64,
    pub s: u64,
    pub cache_clock: u64,
}

/// The geometry constraints: each level has at least one index bit, and
/// each level's line count fits in a memory index.
pub open spec fn geometry_ok(c1: u64, c2: u64, b: u64, s: u64) -> bool {
    &&& b < c1 < 64
    &&& b + s < c2 < 64
    &&& pow2((c1 - b) as nat) <= usize::MAX
    &&& pow2((c2 - b) as nat) <= usize::MAX
}

/// `2^n` is a valid memory index count exactly when `n` is below the
/// width of `usize`.
proof fn lemma_pow2_fits_usize(n: nat)
    ensures
        pow2(n) <= usize::MAX <==> n < usize::BITS,
{
    vstd::layout::unsigned_int_max_values();
    let w = usize::BITS as nat;
    if n < w {
        lemma_pow2_strictly_increases(n, w);
    } else if n > w {
        lemma_pow2_strictly_increases(w, n);
    }
}

/// Tells whether (`c1`, `c2`, `b`, `s`) is a geometry the hierarchy can be
/// built with.
pub fn geometry_is_valid(c1: u64, c2: u64, b: u64, s: u64) -> (r: bool)
    ensures
        r == geometry_ok(c1, c2, b, s),
{
    if !(b < c1 && c1 < 64 && b < c2 && s < c2 - b && c2 < 64) {
        return false;
    }
    proof {
        lemma_pow2_fits_usize((c1 - b) as nat);
        lemma_pow2_fits_usize((c2 - b) as nat);
    }
    c1 - b < usize::BITS as u64 && c2 - b < usize::BITS as u64
}

impl Config {
    pub open spec fn valid_geometry(self) -> bool {
        geometry_ok(self.c1, self.c2, self.b, self.s)
    }

    /// Number of index bits of L1.
    pub open spec fn l1_bits(self) -> u64 {
        (self.c1 - self.b) as u64
    }

    /// Number of set-index bits of L2.
    pub open spec fn l2_bits(self) -> u64 {
        (self.c2 - self.b - self.s) as u64
    }

    /// Number of L1 lines.
    pub open spec fn l1_lines(self) -> nat {
        pow2(self.l1_bits() as nat)
    }

    /// Number of L2 sets.
    pub open spec fn l2_sets(self) -> nat {
        pow2(self.l2_bits() as nat)
    }

    /// Number of ways in each L2 set.
    pub open spec fn ways(self) -> nat {
        pow2(self.s as nat)
    }
}

/// A hierarchy that every sequence of accesses from `init` reaches: valid
/// geometry, stores laid out for it, tags that fit, and inclusion.
pub open spec fn well_formed(config: Config, l1: &L1, l2: &L2) -> bool {
    &&& config.valid_geometry()
    &&& l1.shaped(config)
    &&& l2.shaped(config)
    &&& tags_fit(config, l1.cache@, l2.cache@)
    &&& inclusive(config, l1.cache@, l2.cache@)
}

/// The direct-mapped first level: one line per index.
pub struct L1 {
    pub cache: Vec<CacheBlock>,
}

impl L1 {
    /// One line per L1 index of geometry `g`.
    pub open spec fn shaped(self, g: Config) -> bool {
        self.cache.len() == g.l1_lines()
    }

    /// A level of `2^(c - b)` empty lines.
    pub fn new(c: u64, b: u64) -> (r: L1)
        requires
            b < c < 64,
            pow2((c - b) as nat) <= usize::MAX,
        ensures
            r.cache@ == Seq::new(pow2((c - b) as nat), |i: int| empty_line()),
    {
        proof {
            lemma_mask_pow2((c - b) as u64);
        }
        let total_blocks = (1u64 << (c - b)) as usize;
        let v = vec![CacheBlock::new(); total_blocks];
        assert(v@ =~= Seq::new(pow2((c - b) as nat), |i: int| empty_line()));
        L1 { cache: v }
    }
}

/// The set-associative second level, stored set after set, `ways` lines
/// to a set.
pub struct L2 {
    pub cache: Vec<CacheBlock>,
    pub ways: usize,
}

impl L2 {
    /// A level of `2^(c - b - s)` sets of `2^s` empty lines each.
    pub fn new(c: u64, b: u64, s: u64) -> (r: L2)
        requires
            b + s < c < 64,
            pow2((c - b) as nat) <= usize::MAX,
        ensures
            r.ways == pow2(s as nat),
            r.cache@ == Seq::new(
                pow2((c - b - s) as nat) * pow2(s as nat),
                |i: int| empty_line(),
            ),
    {
        let n = c - b - s;
        proof {
            lemma_mask_pow2(n);
            lemma_mask_pow2(s);
            lemma_pow2_adds(n as nat, s as nat);
            assert(n as nat + s as nat == (c - b) as nat);
            lemma_pow2_pos(n as nat);
            lemma_pow2_pos(s as nat);
            assert(pow2(s as nat) <= pow2(n as nat) * pow2(s as nat)) by (nonlinear_arith)
                requires pow2(n as nat) >= 1;
            assert(pow2(n as nat) <= pow2(n as nat) * pow2(s as nat)) by (nonlinear_arith)
                requires pow2(s as nat) >= 1;
            assert(pow2(n as nat) * pow2(s as nat) == pow2((c - b) as nat));
        }
        let num_sets = (1u64 << n) as usize;
        let ways = (1u64 << s) as usize;
        let v = vec![CacheBlock::new(); num_sets * ways];
        assert(v@ =~= Seq::new(pow2(n as nat) * pow2(s as nat), |i: int| empty_line()));
        L2 { cache: v, ways }
    }

    /// Laid out for geometry `g`: `2^s` ways to a set, one set per L2 index.
    pub open spec fn shaped(self, g: Config) -> bool {
        &&& self.ways == g.ways()
        &&& self.cache.len() == g.l2_sets() * g.ways()
    }

    /// The position of line `way` of set `set`.
    pub open spec fn slot(self, set: int, way: int) -> int {
        set * self.ways + way
    }

    /// The lines of set `set`.
    pub open spec fn set_view(self, set: int) -> Seq<CacheBlock> {
        set_of(self.cache@, self.ways as int, set)
    }

    fn slot_of(&self, set: u64, way: usize) -> (r: usize)
        requires
            (set + 1) * self.ways <= self.cache.len(),
            way < self.ways,
        ensures
            r == self.slot(set as int, way as int),
            r < self.cache.len(),
    {
        proof {
            lemma_slot_bound(set as int, way as int, self.ways as int, self.cache.len() as int);
        }
        set as usize * self.ways + way
    }
}

pub(crate) proof fn lemma_slot_bound(set: int, way: int, ways: int, len: int)
    requires
        0 <= set,
        0 <= way < ways,
        (set + 1) * ways <= len,
    ensures
        0 <= set * ways + way < len,
        0 <= set * ways,
        set * ways + ways <= len,
        set < len,
{
    assert(0 <= set * ways + way < len && 0 <= set * ways && set * ways + ways <= len && set < len)
        by (nonlinear_arith)
        requires
            0 <= set,
            0 <= way < ways,
            (set + 1) * ways <= len,
    ;
}

/// The lines of set `set` in a flat store of `ways`-line sets.
pub open spec fn set_of(l2: Seq<CacheBlock>, ways: int, set: int) -> Seq<CacheBlock> {
    l2.subrange(set * ways, set * ways + ways)
}

/// A line that holds the block with `tag`.
pub open spec fn holds(line: CacheBlock, tag: u64) -> bool {
    line.valid && line.tag == tag
}

/// Some way of `ws` holds the block with `tag`.
pub open spec fn has_match(ws: Seq<CacheBlock>, tag: u64) -> bool {
    exists|w: int| 0 <= w < ws.len() && holds(#[trigger] ws[w], tag)
}

/// `w` is the first way of `ws` that holds the block with `tag`.
pub open spec fn is_first_match(ws: Seq<CacheBlock>, tag: u64, w: int) -> bool {
    &&& 0 <= w < ws.len()
    &&& holds(ws[w], tag)
    &&& forall|k: int| 0 <= k < w ==> !holds(#[trigger] ws[k], tag)
}

pub open spec fn first_match(ws: Seq<CacheBlock>, tag: u64) -> int {
    choose|w: int| is_first_match(ws, tag, w)
}

/// The least-recently-used choice: the first invalid way if there is one,
/// else the first way with the smallest `last_clock_access`.
pub open spec fn is_lru_victim(ws: Seq<CacheBlock>, v: int) -> bool {
    &&& 0 <= v < ws.len()
    &&& if exists|w: int| 0 <= w < ws.len() && !(#[trigger] ws[w]).valid {
        &&& !ws[v].valid
        &&& forall|w: int| 0 <= w < v ==> (#[trigger] ws[w]).valid
    } else {
        &&& forall|w: int| 0 <= w < ws.len() ==> ws[v].last_clock_access <= (#[trigger] ws[w]).last_clock_access
        &&& forall|w: int| 0 <= w < v ==> ws[v].last_clock_access < (#[trigger] ws[w]).last_clock_access
    }
}

pub open spec fn lru_victim(ws: Seq<CacheBlock>) -> int {
    choose|v: int| is_lru_victim(ws, v)
}

/// There is at most one first match.
pub proof fn lemma_first_match_unique(ws: Seq<CacheBlock>, tag: u64, w: int)
    requires
        is_first_match(ws, tag, w),
    ensures
        first_match(ws, tag) == w,
{
    let c = first_match(ws, tag);
    assert(is_first_match(ws, tag, c));
    if c < w {
        assert(!holds(ws[c], tag));
    } else if w < c {
        assert(!holds(ws[w], tag));
    }
}

/// There is at most one least-recently-used victim.
pub proof fn lemma_lru_victim_unique(ws: Seq<CacheBlock>, v: int)
    requires
        is_lru_victim(ws, v),
    ensures
        lru_victim(ws) == v,
{
    let c = lru_victim(ws);
    assert(is_lru_victim(ws, c));
    if c < v {
        assert(ws[c].valid || ws[v].last_clock_access < ws[c].last_clock_access);
    } else if v < c {
        assert(ws[v].valid || ws[c].last_clock_access < ws[v].last_clock_access);
    }
}

/// The block held by an L1 line with `tag` at `index`.
pub open spec fn l1_block(g: Config, tag: u64, index: u64) -> u64 {
    join(tag, index, g.l1_bits())
}

/// The block held by an L2 line with `tag` in set `set`.
pub open spec fn l2_block(g: Config, tag: u64, set: u64) -> u64 {
    join(tag, set, g.l2_bits())
}

/// The L1 tag of block `blk`.
pub open spec fn l1_tag_of(g: Config, blk: u64) -> u64 {
    blk >> g.l1_bits()
}

/// The L1 index of block `blk`.
pub open spec fn l1_index_of(g: Config, blk: u64) -> u64 {
    blk & mask(g.l1_bits())
}

/// The L2 tag of block `blk`.
pub open spec fn l2_tag_of(g: Config, blk: u64) -> u64 {
    blk >> g.l2_bits()
}

/// The L2 set of block `blk`.
pub open spec fn l2_set_of(g: Config, blk: u64) -> u64 {
    blk & mask(g.l2_bits())
}

/// Every L2 set index of geometry `g` names a whole set of a shaped store.
proof fn lemma_set_in_range(g: Config, l2: &L2, set: u64)
    requires
        g.valid_geometry(),
        l2.shaped(g),
        set <= mask(g.l2_bits()),
    ensures
        (set + 1) * l2.ways <= l2.cache.len(),
        l2.ways > 0,
{
    lemma_mask_pow2(g.l2_bits());
    lemma_pow2_pos(g.s as nat);
    let n = g.l2_sets() as int;
    let w = g.ways() as int;
    assert((set + 1) * w <= n * w) by (nonlinear_arith)
        requires set + 1 <= n, w > 0;
}

/// Looks up, in the L2 set of the block held by an L1 line with `l1_tag`
/// at `l1_index`, the first way that holds that block. On success returns
/// the way, the L2 tag and the L2 set.
fn find_l2_block(l1_tag: u64, l1_index: u64, config: &Config, l2: &L2) -> (r: Option<(usize, u64, u64)>)
    requires
        config.valid_geometry(),
        l2.shaped(*config),
    ensures
        ({
            let blk = l1_block(*config, l1_tag, l1_index);
            let t2 = l2_tag_of(*config, blk);
            let set = l2_set_of(*config, blk);
            match r {
                Some((w, t, st)) => t == t2 && st == set && st <= mask(config.l2_bits()) && w
                    < l2.ways && is_first_match(l2.set_view(set as int), t2, w as int),
                None => !has_match(l2.set_view(set as int), t2),
            }
        }),
{
    let l2_tag = convert_tag_l1_to_l2(l1_tag, l1_index, config);
    let l2_index = convert_index_l1_to_l2(l1_tag, l1_index, config);
    proof {
        lemma_set_in_range(*config, l2, l2_index);
        lemma_slot_bound(l2_index as int, 0, l2.ways as int, l2.cache.len() as int);
    }
    let ghost ws = l2.set_view(l2_index as int);
    let mut i: usize = 0;
    while i < l2.ways
        invariant
            0 <= i <= l2.ways,
            ws == l2.set_view(l2_index as int),
            ws.len() == l2.ways,
            l2_tag == l2_tag_of(*config, l1_block(*config, l1_tag, l1_index)),
            l2_index == l2_set_of(*config, l1_block(*config, l1_tag, l1_index)),
            l2_index <= mask(config.l2_bits()),
            (l2_index + 1) * l2.ways <= l2.cache.len(),
            0 <= l2_index * l2.ways,
            l2_index * l2.ways + l2.ways <= l2.cache.len(),
            forall|k: int| 0 <= k < i ==> !holds(#[trigger] ws[k], l2_tag),
        decreases l2.ways - i,
    {
        let k = l2.slot_of(l2_index, i);
        let blk = l2.cache[k];
        assert(ws[i as int] == blk);
        if blk.valid && blk.tag == l2_tag {
            assert(is_first_match(ws, l2_tag, i as int));
            return Some((i, l2_tag, l2_index));
        }
        i += 1;
    }
    None
}

/// Picks the way of set `l2_index` to evict: the first invalid way, or
/// else the first way with the oldest access time.
fn find_l2_victim(l2_index: u64, l2: &L2) -> (r: usize)
    requires
        l2.ways > 0,
        (l2_index + 1) * l2.ways <= l2.cache.len(),
    ensures
        is_lru_victim(l2.set_view(l2_index as int), r as int),
        r < l2.ways,
{
    proof {
        lemma_slot_bound(l2_index as int, 0, l2.ways as int, l2.cache.len() as int);
    }
    let ghost ws = l2.set_view(l2_index as int);
    let mut lru_time = u64::MAX;
    let mut lru_index: usize = 0;
    let mut i: usize = 0;
    while i < l2.ways
        invariant
            0 <= i <= l2.ways,
            ws == l2.set_view(l2_index as int),
            ws.len() == l2.ways,
            (l2_index + 1) * l2.ways <= l2.cache.len(),
            0 <= l2_index * l2.ways,
            l2_index * l2.ways + l2.ways <= l2.cache.len(),
            forall|k: int| 0 <= k < i ==> (#[trigger] ws[k]).valid,
            i == 0 ==> lru_index == 0 && lru_time == u64::MAX,
            i > 0 ==> lru_index < i && lru_time == ws[lru_index as int].last_clock_access,
            forall|k: int| 0 <= k < i ==> lru_time <= (#[trigger] ws[k]).last_clock_access,
            forall|k: int| 0 <= k < lru_index ==> lru_time < (#[trigger] ws[k]).last_clock_access,
        decreases l2.ways - i,
    {
        let k = l2.slot_of(l2_index, i);
        let blk = l2.cache[k];
        assert(ws[i as int] == blk);
        if !blk.valid {
            return i;
        } else if blk.last_clock_access < lru_time {
            lru_time = blk.last_clock_access;
            lru_index = i;
        }
        i += 1;
    }
    lru_index
}

/// Overwrites every field of `block`.
fn update_block(block: &mut CacheBlock, tag: u64, valid: bool, dirty: bool, last_clock_access: u64)
    ensures
        *final(block) == (CacheBlock { tag, valid, dirty, last_clock_access }),
{
    block.tag = tag;
    block.valid = valid;
    block.dirty = dirty;
    block.last_clock_access = last_clock_access;
}

/// `l2` with the access time of line `way` of set `set` set to `now`.
pub open spec fn touched(l2: Seq<CacheBlock>, ways: int, set: u64, way: int, now: u64) -> Seq<
    CacheBlock,
> {
    let k = set * ways + way;
    l2.update(k, CacheBlock { last_clock_access: now, ..l2[k] })
}

/// `l2` after the line at L1 index `idx`, if it is valid and dirty, has
/// handed its dirty fact to the L2 line that holds the same block.
pub open spec fn flushed(g: Config, l1: Seq<CacheBlock>, l2: Seq<CacheBlock>, idx: u64) -> Seq<
    CacheBlock,
> {
    let line = l1[idx as int];
    let blk = l1_block(g, line.tag, idx);
    let set = l2_set_of(g, blk);
    let t2 = l2_tag_of(g, blk);
    let ways = g.ways() as int;
    let ws = set_of(l2, ways, set as int);
    if line.valid && line.dirty && has_match(ws, t2) {
        let k = set * ways + first_match(ws, t2);
        l2.update(k, CacheBlock { dirty: true, ..l2[k] })
    } else {
        l2
    }
}

/// One access of `kind` to `address`: the configuration, L1 lines, L2
/// lines and counters afterwards, for a clock below its maximum.
pub open spec fn access_step(
    g: Config,
    l1: Seq<CacheBlock>,
    l2: Seq<CacheBlock>,
    st: Stats,
    kind: AccessType,
    address: u64,
) -> (Config, Seq<CacheBlock>, Seq<CacheBlock>, Stats) {
    let now = (g.cache_clock + 1) as u64;
    let g1 = Config { cache_clock: now, ..g };
    let is_write = kind == AccessType::Write;
    let counted = st.counted_access(kind);
    let t1 = address >> g.c1;
    let i1 = (address >> g.b) & mask(g.l1_bits());
    let blk = address >> g.b;
    let t2 = l2_tag_of(g, blk);
    let set = l2_set_of(g, blk);
    let ways = g.ways() as int;
    let ws = set_of(l2, ways, set as int);
    let line = l1[i1 as int];
    if holds(line, t1) {
        let l1n = l1.update(
            i1 as int,
            CacheBlock { dirty: line.dirty || is_write, last_clock_access: now, ..line },
        );
        let l2n = if has_match(ws, t2) {
            touched(l2, ways, set, first_match(ws, t2), now)
        } else {
            l2
        };
        (g1, l1n, l2n, counted)
    } else if has_match(ws, t2) {
        let l1n = l1.update(
            i1 as int,
            CacheBlock { tag: t1, valid: true, dirty: is_write, last_clock_access: now },
        );
        let l2n = flushed(g, l1, touched(l2, ways, set, first_match(ws, t2), now), i1);
        (g1, l1n, l2n, counted.counted_l1_miss(kind))
    } else {
        let v = lru_victim(ws);
        let victim = ws[v];
        let vb = l2_block(g, victim.tag, set);
        let vi = l1_index_of(g, vb);
        let evict = victim.valid && holds(l1[vi as int], l1_tag_of(g, vb));
        let wb = victim.valid && (victim.dirty || (evict && l1[vi as int].dirty));
        let l1a = if evict {
            l1.update(vi as int, CacheBlock { valid: false, ..l1[vi as int] })
        } else {
            l1
        };
        let l2a = l2.update(
            set * ways + v,
            CacheBlock { tag: t2, valid: true, dirty: is_write, last_clock_access: now },
        );
        let l1n = l1a.update(
            i1 as int,
            CacheBlock { tag: t1, valid: true, dirty: false, last_clock_access: now },
        );
        let counted2 = counted.counted_l1_miss(kind).counted_l2_miss(kind).counted_write_back(wb);
        (g1, l1n, flushed(g, l1a, l2a, i1), counted2)
    }
}

/// Before the line at `l1_index` is replaced, hands its dirty fact to the
/// L2 line that holds the same block.
fn allocate_l1_block(l1: &L1, l2: &mut L2, l1_index: u64, config: &Config)
    requires
        config.valid_geometry(),
        l1.shaped(*config),
        old(l2).shaped(*config),
        l1_index < l1.cache.len(),
    ensures
        final(l2).ways == old(l2).ways,
        final(l2).cache.len() == old(l2).cache.len(),
        final(l2).cache@ == flushed(*config, l1.cache@, old(l2).cache@, l1_index),
{
    let outgoing = l1.cache[l1_index as usize];
    if outgoing.valid && outgoing.dirty {
        match find_l2_block(outgoing.tag, l1_index, config, l2) {
            Some((w, _, set)) => {
                proof {
                    lemma_set_in_range(*config, l2, set);
                    lemma_first_match_unique(
                        l2.set_view(set as int),
                        l2_tag_of(*config, l1_block(*config, outgoing.tag, l1_index)),
                        w as int,
                    );
                }
                let k = l2.slot_of(set, w);
                let mut line = l2.cache[k];
                line.dirty = true;
                l2.cache.set(k, line);
            },
            None => {},
        }
    }
}

/// A hierarchy of geometry (`c1`, `c2`, `b`, `s`) with the clock at zero
/// and every line empty.
pub fn init(c1: u64, c2: u64, b: u64, s: u64) -> (r: (Config, L1, L2))
    requires
        geometry_ok(c1, c2, b, s),
    ensures
        r.0 == (Config { c1, c2, b, s, cache_clock: 0 }),
        r.1.cache@ == Seq::new(r.0.l1_lines(), |i: int| empty_line()),
        r.2.ways == r.0.ways(),
        r.2.cache@ == Seq::new(r.0.l2_sets() * r.0.ways(), |i: int| empty_line()),
        well_formed(r.0, &r.1, &r.2),
{
    let config = Config { c1, c2, b, s, cache_clock: 0 };
    let l1_cache = L1::new(c1, b);
    let l2_cache = L2::new(c2, b, s);
    proof {
        lemma_fits_zero(config.l1_bits());
        lemma_fits_zero(config.l2_bits());
    }
    (config, l1_cache, l2_cache)
}

/// Simulates one access of `access_type` to `address`. Fails, changing
/// nothing, exactly when the clock is at its maximum.
pub fn cache_access(
    access_type: AccessType,
    address: u64,
    config: &mut Config,
    l1: &mut L1,
    l2: &mut L2,
    stats: &mut Stats,
) -> (r: Result<(), ClockOverflow>)
    requires
        well_formed(*old(config), old(l1), old(l2)),
        old(stats).bounded_by(old(config).cache_clock),
    ensures
        r is Err <==> old(config).cache_clock == u64::MAX,
        r is Err ==> *final(config) == *old(config) && final(l1).cache@ == old(l1).cache@
            && final(l2).cache@ == old(l2).cache@ && *final(stats) == *old(stats),
        r is Ok ==> (*final(config), final(l1).cache@, final(l2).cache@, *final(stats))
            == access_step(
            *old(config),
            old(l1).cache@,
            old(l2).cache@,
            *old(stats),
            access_type,
            address,
        ),
        final(l2).ways == old(l2).ways,
        well_formed(*final(config), final(l1), final(l2)),
        final(stats).bounded_by(final(config).cache_clock),
{
    if config.cache_clock == u64::MAX {
        return Err(ClockOverflow);
    }
    proof {
        lemma_step_inclusive(*config, l1.cache@, l2.cache@, *stats, access_type, address);
    }
    config.cache_clock = config.cache_clock + 1;
    let now = config.cache_clock;
    stats.accesses = stats.accesses + 1;
    match access_type {
        AccessType::Read => stats.reads = stats.reads + 1,
        AccessType::Write => stats.writes = stats.writes + 1,
    }
    let is_write = access_type == AccessType::Write;

    let l1_tag = get_tag(address, config.c1, 0);
    let l1_index = get_index(address, config.c1, config.b, 0);
    proof {
        lemma_shr_shr(address, config.b, config.c1);
        lemma_split(address >> config.b, config.l1_bits());
        lemma_mask_pow2(config.l1_bits());
    }
    let ghost g = *old(config);
    let ghost blk = address >> config.b;
    assert(l1_block(*config, l1_tag, l1_index) == blk);

    // L1 lookup
    let line = l1.cache[l1_index as usize];
    if line.valid && line.tag == l1_tag {
        let mut hit = line;
        hit.last_clock_access = now;
        hit.dirty = hit.dirty || is_write;
        l1.cache.set(l1_index as usize, hit);
        match find_l2_block(l1_tag, l1_index, config, l2) {
            Some((w, _, set)) => {
                proof {
                    lemma_set_in_range(*config, l2, set);
                    lemma_first_match_unique(l2.set_view(set as int), l2_tag_of(g, blk), w as int);
                }
                let k = l2.slot_of(set, w);
                let mut l2_line = l2.cache[k];
                l2_line.last_clock_access = now;
                l2.cache.set(k, l2_line);
            },
            None => {},
        }
        return Ok(());
    }
    match access_type {
        AccessType::Read => stats.l1_read_misses = stats.l1_read_misses + 1,
        AccessType::Write => stats.l1_write_misses = stats.l1_write_misses + 1,
    }

    // L2 lookup
    match find_l2_block(l1_tag, l1_index, config, l2) {
        Some((w, _, set)) => {
            proof {
                lemma_set_in_range(*config, l2, set);
                lemma_first_match_unique(l2.set_view(set as int), l2_tag_of(g, blk), w as int);
            }
            let k = l2.slot_of(set, w);
            let mut l2_line = l2.cache[k];
            l2_line.last_clock_access = now;
            l2.cache.set(k, l2_line);
            allocate_l1_block(l1, l2, l1_index, config);
            let mut filled = l1.cache[l1_index as usize];
            update_block(&mut filled, l1_tag, true, is_write, now);
            l1.cache.set(l1_index as usize, filled);
            return Ok(());
        },
        None => {},
    }
    match access_type {
        AccessType::Read => stats.l2_read_misses = stats.l2_read_misses + 1,
        AccessType::Write => stats.l2_write_misses = stats.l2_write_misses + 1,
    }

    // Fetch from memory, evicting an L2 line and its L1 copy.
    let l2_tag = convert_tag_l1_to_l2(l1_tag, l1_index, config);
    let l2_index = convert_index_l1_to_l2(l1_tag, l1_index, config);
    proof {
        lemma_set_in_range(*config, l2, l2_index);
    }
    let v = find_l2_victim(l2_index, l2);
    proof {
        lemma_lru_victim_unique(l2.set_view(l2_index as int), v as int);
    }
    let k = l2.slot_of(l2_index, v);
    let mut victim = l2.cache[k];
    let ghost l2_before = l2.cache@;
    proof {
        lemma_slot_bound(l2_index as int, v as int, l2.ways as int, l2.cache.len() as int);
    }
    assert(victim == set_of(l2_before, g.ways() as int, l2_index as int)[v as int]);
    if victim.valid {
        let l1_victim_tag = convert_tag_l2_to_l1(victim.tag, l2_index, config);
        let l1_victim_index = convert_index_l2_to_l1(victim.tag, l2_index, config);
        let mut l1_victim = l1.cache[l1_victim_index as usize];
        if l1_victim.valid && l1_victim.tag == l1_victim_tag {
            l1_victim.valid = false;
            l1.cache.set(l1_victim_index as usize, l1_victim);
            if l1_victim.dirty || victim.dirty {
                stats.write_backs = stats.write_backs + 1;
            }
        } else if victim.dirty {
            stats.write_backs = stats.write_backs + 1;
        }
    }
    update_block(&mut victim, l2_tag, true, is_write, now);
    l2.cache.set(k, victim);

    allocate_l1_block(l1, l2, l1_index, config);
    let mut filled = l1.cache[l1_index as usize];
    update_block(&mut filled, l1_tag, true, false, now);
    l1.cache.set(l1_index as usize, filled);
    Ok(())
}

} // verus!
