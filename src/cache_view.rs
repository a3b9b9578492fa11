//! The abstract state of a cache and what each operation does to it. Every
//! organization (direct-mapped, set-associative) refines this model.
use crate::cache::EvictionPolicy;
use crate::data_type::{from_le, le_bytes, DataType, DataTypeSize, MemoryError};
use crate::geometry::Geometry;
use crate::mem_stats::StatsView;
use vstd::arithmetic::div_mod::{lemma_fundamental_div_mod_converse, lemma_mod_bound};
use vstd::prelude::*;

verus! {

/// The abstract value of one cache line.
pub struct LineView {
    pub valid: bool,
    pub dirty: bool,
    pub tag: nat,
    pub time: nat,
    pub data: Seq<u8>,
}

/// `s` with the bytes `b` written from position `at` on.
pub open spec fn write_bytes(s: Seq<u8>, at: int, b: Seq<u8>) -> Seq<u8> {
    Seq::new(s.len(), |i: int| if at <= i < at + b.len() { b[i - at] } else { s[i] })
}

/// The step of the pseudo-random generator behind the random policy.
pub open spec fn next_seed(s: u64) -> u64 {
    s.wrapping_mul(6364136223846793005u64).wrapping_add(1442695040888963407u64)
}

/// The abstract state of a cache. Lines are stored way by way:
/// `lines[way * num_lines + index]`.
pub struct CacheView {
    pub geom: Geometry,
    pub policy: EvictionPolicy,
    pub lines: Seq<LineView>,
    pub stats: StatsView,
    pub seed: u64,
}

impl CacheView {
    pub open spec fn nl(self) -> int {
        self.geom.num_lines as int
    }

    pub open spec fn lb(self) -> int {
        self.geom.line_bytes() as int
    }

    pub open spec fn slot(self, way: int, index: int) -> int {
        way * self.nl() + index
    }

    pub open spec fn line(self, way: int, index: int) -> LineView {
        self.lines[self.slot(way, index)]
    }

    /// Address of the first byte of the line held in slot `s`.
    pub open spec fn slot_base(self, s: int) -> int {
        self.geom.line_base(self.lines[s].tag as int, s % self.nl())
    }

    pub open spec fn wf(self) -> bool {
        &&& self.geom.wf()
        &&& self.lines.len() == self.geom.assoc * self.geom.num_lines
        &&& forall|s: int| 0 <= s < self.lines.len() ==> (#[trigger] self.lines[s]).data.len() == self.lb()
        &&& forall|s: int| 0 <= s < self.lines.len() && (#[trigger] self.lines[s]).dirty ==> self.lines[s].valid
        &&& forall|s: int| 0 <= s < self.lines.len() ==> (#[trigger] self.lines[s]).tag <= usize::MAX
            && self.lines[s].time <= u128::MAX && self.slot_base(s) <= usize::MAX
        &&& forall|s: int| 0 <= s < self.lines.len() ==> (#[trigger] self.lines[s]).time <= self.stats.total()
        &&& forall|s1: int, s2: int|
            0 <= s1 < self.lines.len() && 0 <= s2 < self.lines.len() && s1 != s2 && s1 % self.nl()
                == s2 % self.nl() && (#[trigger] self.lines[s1]).valid && (#[trigger] self.lines[s2]).valid
                ==> self.lines[s1].tag != self.lines[s2].tag
    }

    /// The two states hold the same lines: same validity and tags everywhere.
    pub open spec fn same_residency(self, other: CacheView) -> bool {
        &&& self.geom == other.geom
        &&& self.lines.len() == other.lines.len()
        &&& forall|s: int| 0 <= s < self.lines.len() ==> (#[trigger] self.lines[s]).valid == other.lines[s].valid
            && self.lines[s].tag == other.lines[s].tag
    }

    /// A typed access of `size` bytes at `a` can be made: the state is well
    /// formed, the access stays within one line, and it can be counted.
    pub open spec fn access_ready(self, a: int, size: DataTypeSize) -> bool {
        &&& self.wf()
        &&& self.stats.has_room(1)
        &&& self.geom.offset_of(a) + size.width() <= self.lb()
    }

    /// Every line is as built: invalid, clean, tag zero, never referenced,
    /// and all its bytes zero.
    pub open spec fn fresh(self) -> bool {
        forall|s: int|
            0 <= s < self.lines.len() ==> #[trigger] self.lines[s] == (LineView {
                valid: false,
                dirty: false,
                tag: 0,
                time: 0,
                data: Seq::new(self.geom.line_bytes(), |k: int| 0u8),
            })
    }

    /// No line is valid.
    pub open spec fn cold(self) -> bool {
        forall|s: int| 0 <= s < self.lines.len() ==> !(#[trigger] self.lines[s]).valid
    }

    /// The first way from `w` on that holds the line with this tag at this index.
    pub open spec fn find_way(self, tag: int, index: int, w: int) -> Option<int>
        decreases self.geom.assoc - w,
    {
        if w < 0 || w >= self.geom.assoc {
            None
        } else if self.line(w, index).valid && self.line(w, index).tag == tag {
            Some(w)
        } else {
            self.find_way(tag, index, w + 1)
        }
    }

    /// The way that holds the line of address `a`, if any.
    pub open spec fn lookup(self, a: int) -> Option<int> {
        self.find_way(self.geom.tag_of(a), self.geom.index_of(a), 0)
    }

    pub open spec fn resident(self, a: int) -> bool {
        self.lookup(a) is Some
    }

    pub open spec fn with_stats(self, stats: StatsView) -> CacheView {
        CacheView { stats, ..self }
    }

    pub open spec fn with_line(self, way: int, index: int, l: LineView) -> CacheView {
        CacheView { lines: self.lines.update(self.slot(way, index), l), ..self }
    }

    /// A lookup of `a` that hits way `w`: one hit counted and the line stamped
    /// with the new access count.
    pub open spec fn touch(self, w: int, a: int) -> CacheView {
        let s = self.stats.hit();
        let i = self.geom.index_of(a);
        self.with_stats(s).with_line(w, i, LineView { time: s.total(), ..self.line(w, i) })
    }

    /// What a read of `size` bytes at `a` returns and leaves.
    pub open spec fn read_op(self, a: int, size: DataTypeSize) -> (CacheView, Result<DataType, MemoryError>) {
        match self.lookup(a) {
            Some(w) => {
                let off = self.geom.offset_of(a);
                let bytes = self.line(w, self.geom.index_of(a)).data.subrange(off, off + size.width());
                (self.touch(w, a), Ok(from_le(size, bytes)))
            },
            None => (self.with_stats(self.stats.miss()), Err(MemoryError::NotFound)),
        }
    }

    /// What a write of `d` at `a` returns and leaves.
    pub open spec fn write_op(self, d: DataType, a: int) -> (CacheView, Result<(), MemoryError>) {
        match self.lookup(a) {
            Some(w) => {
                let c = self.touch(w, a);
                let i = self.geom.index_of(a);
                let l = c.line(w, i);
                let data = write_bytes(l.data, self.geom.offset_of(a), le_bytes(d));
                (c.with_line(w, i, LineView { dirty: true, data, ..l }), Ok(()))
            },
            None => (self.with_stats(self.stats.miss()), Err(MemoryError::NotFound)),
        }
    }

    /// The first way from `w` on whose line is invalid at this index.
    pub open spec fn first_invalid(self, index: int, w: int) -> Option<int>
        decreases self.geom.assoc - w,
    {
        if w < 0 || w >= self.geom.assoc {
            None
        } else if !self.line(w, index).valid {
            Some(w)
        } else {
            self.first_invalid(index, w + 1)
        }
    }

    /// The first way from `w` on whose line has not been referenced since it
    /// was installed or since the last aging.
    pub open spec fn first_unreferenced(self, index: int, w: int) -> Option<int>
        decreases self.geom.assoc - w,
    {
        if w < 0 || w >= self.geom.assoc {
            None
        } else if self.line(w, index).time == 0 {
            Some(w)
        } else {
            self.first_unreferenced(index, w + 1)
        }
    }

    /// Among ways `0..=w`, the lowest one with the smallest time stamp.
    pub open spec fn oldest(self, index: int, w: int) -> int
        decreases w,
    {
        if w <= 0 {
            0
        } else {
            let b = self.oldest(index, w - 1);
            if self.line(w, index).time < self.line(b, index).time {
                w
            } else {
                b
            }
        }
    }

    /// The way the eviction policy picks when no line at `index` is invalid.
    pub open spec fn policy_victim(self, index: int) -> int {
        match self.policy {
            EvictionPolicy::Lru => self.oldest(index, self.geom.assoc - 1),
            EvictionPolicy::Nru => match self.first_unreferenced(index, 0) {
                Some(w) => w,
                None => self.oldest(index, self.geom.assoc - 1),
            },
            EvictionPolicy::Random => ((next_seed(self.seed) >> 33u64) % (self.geom.assoc as u64)) as int,
        }
    }

    /// The way whose line makes room at `index`: an invalid one first, else
    /// the policy's choice.
    pub open spec fn victim(self, index: int) -> int {
        match self.first_invalid(index, 0) {
            Some(w) => w,
            None => self.policy_victim(index),
        }
    }

    /// The victim line for a miss on `a` must be written back first.
    pub open spec fn victim_dirty(self, a: int) -> bool {
        self.line(self.victim(self.geom.index_of(a)), self.geom.index_of(a)).dirty
    }

    /// Where the victim line for a miss on `a` lives in memory.
    pub open spec fn writeback_addr(self, a: int) -> int {
        let i = self.geom.index_of(a);
        self.geom.line_base(self.line(self.victim(i), i).tag as int, i)
    }

    /// The bytes of the victim line for a miss on `a`.
    pub open spec fn victim_data(self, a: int) -> Seq<u8> {
        let i = self.geom.index_of(a);
        self.line(self.victim(i), i).data
    }

    /// Address of the first byte of the line of `a`.
    pub open spec fn fetch_base(self, a: int) -> int {
        self.geom.line_base(self.geom.tag_of(a), self.geom.index_of(a))
    }

    /// All lines at `index` marked unreferenced.
    pub open spec fn aged(self, index: int) -> Seq<LineView> {
        Seq::new(
            self.lines.len(),
            |s: int|
                if s % self.nl() == index {
                    LineView { time: 0, ..self.lines[s] }
                } else {
                    self.lines[s]
                },
        )
    }

    /// The eviction at `index` has to age the set: the policy is NRU and
    /// every line there is valid and referenced.
    pub open spec fn ages(self, index: int) -> bool {
        &&& self.policy == EvictionPolicy::Nru
        &&& self.first_invalid(index, 0) is None
        &&& self.first_unreferenced(index, 0) is None
    }

    /// The random policy draws a number for an eviction at `index`.
    pub open spec fn draws(self, index: int) -> bool {
        self.policy == EvictionPolicy::Random && self.first_invalid(index, 0) is None
    }

    /// Installs `payload` as the line of address `a`: into the way that
    /// already holds it, else into the victim way; valid and clean.
    pub open spec fn install_op(self, a: int, payload: Seq<u8>) -> CacheView {
        let i = self.geom.index_of(a);
        let hit = self.lookup(a);
        let w = match hit {
            Some(w) => w,
            None => self.victim(i),
        };
        let time: nat = if self.policy == EvictionPolicy::Nru { 0 } else { self.stats.total() };
        let l = LineView { valid: true, dirty: false, tag: self.geom.tag_of(a) as nat, time, data: payload };
        let lines = if hit is None && self.ages(i) { self.aged(i) } else { self.lines };
        let seed = if hit is None && self.draws(i) { next_seed(self.seed) } else { self.seed };
        CacheView { lines: lines.update(self.slot(w, i), l), seed, ..self }
    }
}

/// Where a way and an index put a line in the flat sequence.
pub proof fn lemma_slot(c: CacheView, w: int, i: int)
    requires
        c.geom.wf(),
        c.lines.len() == c.geom.assoc * c.geom.num_lines,
        0 <= w < c.geom.assoc,
        0 <= i < c.nl(),
    ensures
        0 <= c.slot(w, i) < c.lines.len(),
        c.slot(w, i) % c.nl() == i,
        c.slot(w, i) / c.nl() == w,
{
    c.geom.lemma_sizes();
    let nl = c.nl();
    let a = c.geom.assoc as int;
    assert(0 <= w * nl + i < a * nl) by (nonlinear_arith)
        requires
            0 <= w < a,
            0 <= i < nl,
    ;
    lemma_fundamental_div_mod_converse(w * nl + i, nl, w, i);
}

/// Two different (way, index) pairs name different slots.
pub proof fn lemma_slot_distinct(c: CacheView, w1: int, i1: int, w2: int, i2: int)
    requires
        c.geom.wf(),
        c.lines.len() == c.geom.assoc * c.geom.num_lines,
        0 <= w1 < c.geom.assoc,
        0 <= i1 < c.nl(),
        0 <= w2 < c.geom.assoc,
        0 <= i2 < c.nl(),
        w1 != w2 || i1 != i2,
    ensures
        c.slot(w1, i1) != c.slot(w2, i2),
{
    lemma_slot(c, w1, i1);
    lemma_slot(c, w2, i2);
}

/// A slot is the slot of its way and index.
pub proof fn lemma_slot_inverse(c: CacheView, s: int)
    requires
        c.geom.wf(),
        c.lines.len() == c.geom.assoc * c.geom.num_lines,
        0 <= s < c.lines.len(),
    ensures
        0 <= s / c.nl() < c.geom.assoc,
        0 <= s % c.nl() < c.nl(),
        c.slot(s / c.nl(), s % c.nl()) == s,
{
    c.geom.lemma_sizes();
    let nl = c.nl();
    let a = c.geom.assoc as int;
    vstd::arithmetic::div_mod::lemma_fundamental_div_mod(s, nl);
    lemma_mod_bound(s, nl);
    vstd::arithmetic::div_mod::lemma_div_pos_is_pos(s, nl);
    assert(s / nl < a) by {
        if s / nl >= a {
            assert(nl * (s / nl) >= nl * a) by (nonlinear_arith)
                requires
                    s / nl >= a,
                    nl >= 1,
            ;
            assert(nl * a == a * nl) by (nonlinear_arith);
            assert(s >= nl * (s / nl));
        }
    }
    assert(c.slot(s / nl, s % nl) == (s / nl) * nl + s % nl);
    assert((s / nl) * nl == nl * (s / nl)) by (nonlinear_arith);
}

/// What a search for a tag finds.
pub proof fn lemma_find_way(c: CacheView, tag: int, i: int, w0: int)
    requires
        0 <= w0,
    ensures
        match c.find_way(tag, i, w0) {
            Some(w) => w0 <= w < c.geom.assoc && c.line(w, i).valid && c.line(w, i).tag == tag,
            None => forall|w: int|
                w0 <= w < c.geom.assoc ==> !(#[trigger] c.line(w, i).valid && c.line(w, i).tag == tag),
        },
    decreases c.geom.assoc - w0,
{
    if w0 < c.geom.assoc {
        lemma_find_way(c, tag, i, w0 + 1);
    }
}

/// In a well-formed cache, the way that holds a line is the one a lookup finds.
pub proof fn lemma_lookup_finds(c: CacheView, a: int, w: int)
    requires
        c.wf(),
        0 <= a,
        0 <= w < c.geom.assoc,
        c.line(w, c.geom.index_of(a)).valid,
        c.line(w, c.geom.index_of(a)).tag == c.geom.tag_of(a),
    ensures
        c.lookup(a) == Some(w),
{
    let i = c.geom.index_of(a);
    c.geom.lemma_decomposition(a);
    lemma_find_way(c, c.geom.tag_of(a), i, 0);
    if let Some(v) = c.lookup(a) {
        if v != w {
            lemma_slot_distinct(c, v, i, w, i);
            lemma_slot(c, v, i);
            lemma_slot(c, w, i);
            assert(c.lines[c.slot(v, i)].valid && c.lines[c.slot(w, i)].valid);
        }
    }
}

/// What a search for an invalid line finds.
pub proof fn lemma_first_invalid(c: CacheView, i: int, w0: int)
    requires
        0 <= w0,
    ensures
        match c.first_invalid(i, w0) {
            Some(w) => w0 <= w < c.geom.assoc && !c.line(w, i).valid && forall|u: int|
                w0 <= u < w ==> (#[trigger] c.line(u, i)).valid,
            None => forall|w: int| w0 <= w < c.geom.assoc ==> (#[trigger] c.line(w, i)).valid,
        },
    decreases c.geom.assoc - w0,
{
    if w0 < c.geom.assoc {
        lemma_first_invalid(c, i, w0 + 1);
    }
}

/// What a search for an unreferenced line finds.
pub proof fn lemma_first_unreferenced(c: CacheView, i: int, w0: int)
    requires
        0 <= w0,
    ensures
        match c.first_unreferenced(i, w0) {
            Some(w) => w0 <= w < c.geom.assoc && c.line(w, i).time == 0,
            None => forall|w: int| w0 <= w < c.geom.assoc ==> (#[trigger] c.line(w, i)).time != 0,
        },
    decreases c.geom.assoc - w0,
{
    if w0 < c.geom.assoc {
        lemma_first_unreferenced(c, i, w0 + 1);
    }
}

/// The oldest way is among those searched and no way there is older.
pub proof fn lemma_oldest(c: CacheView, i: int, w: int)
    requires
        0 <= w,
    ensures
        0 <= c.oldest(i, w) <= w,
        forall|v: int| 0 <= v <= w ==> c.line(c.oldest(i, w), i).time <= (#[trigger] c.line(v, i)).time,
    decreases w,
{
    if w > 0 {
        lemma_oldest(c, i, w - 1);
    }
}

/// The victim is one of the ways.
pub proof fn lemma_victim(c: CacheView, i: int)
    requires
        c.geom.wf(),
    ensures
        0 <= c.victim(i) < c.geom.assoc,
        c.first_invalid(i, 0) is Some ==> !c.line(c.victim(i), i).valid,
{
    lemma_first_invalid(c, i, 0);
    lemma_first_unreferenced(c, i, 0);
    lemma_oldest(c, i, c.geom.assoc - 1);
    if c.policy == EvictionPolicy::Random {
        let x = next_seed(c.seed) >> 33u64;
        assert(x % (c.geom.assoc as u64) < c.geom.assoc);
    }
}

/// States with the same residency find the same ways.
pub proof fn lemma_find_way_same(c1: CacheView, c2: CacheView, tag: int, i: int, w0: int)
    requires
        c1.same_residency(c2),
        c1.geom.wf(),
        c1.lines.len() == c1.geom.assoc * c1.geom.num_lines,
        0 <= i < c1.nl(),
        0 <= w0,
    ensures
        c1.find_way(tag, i, w0) == c2.find_way(tag, i, w0),
    decreases c1.geom.assoc - w0,
{
    if w0 < c1.geom.assoc {
        lemma_slot(c1, w0, i);
        lemma_find_way_same(c1, c2, tag, i, w0 + 1);
    }
}

/// States with the same residency agree on every lookup.
pub proof fn lemma_lookup_same(c1: CacheView, c2: CacheView, a: int)
    requires
        c1.same_residency(c2),
        c1.geom.wf(),
        c1.lines.len() == c1.geom.assoc * c1.geom.num_lines,
        0 <= a,
    ensures
        c1.lookup(a) == c2.lookup(a),
{
    c1.geom.lemma_decomposition(a);
    lemma_find_way_same(c1, c2, c1.geom.tag_of(a), c1.geom.index_of(a), 0);
}

/// Replacing one line keeps the state well formed when the new line fits
/// and does not duplicate a line of its set.
pub proof fn lemma_update_wf(c: CacheView, w: int, i: int, l: LineView)
    requires
        c.wf(),
        0 <= w < c.geom.assoc,
        0 <= i < c.nl(),
        l.data.len() == c.lb(),
        l.dirty ==> l.valid,
        l.tag <= usize::MAX,
        l.time <= u128::MAX,
        l.time <= c.stats.total(),
        c.geom.line_base(l.tag as int, i) <= usize::MAX,
        l.valid ==> forall|v: int|
            0 <= v < c.geom.assoc && v != w && (#[trigger] c.line(v, i)).valid ==> c.line(v, i).tag != l.tag,
    ensures
        c.with_line(w, i, l).wf(),
{
    let d = c.with_line(w, i, l);
    let nl = c.nl();
    lemma_slot(c, w, i);
    let sw = c.slot(w, i);
    assert forall|s: int| 0 <= s < d.lines.len() implies (#[trigger] d.lines[s]).tag <= usize::MAX
        && d.lines[s].time <= u128::MAX && d.slot_base(s) <= usize::MAX && d.lines[s].time <= d.stats.total() by {
        if s != sw {
            assert(d.lines[s] == c.lines[s]);
        }
    }
    assert forall|s1: int, s2: int|
        0 <= s1 < d.lines.len() && 0 <= s2 < d.lines.len() && s1 != s2 && s1 % nl == s2 % nl
            && (#[trigger] d.lines[s1]).valid && (#[trigger] d.lines[s2]).valid implies d.lines[s1].tag
        != d.lines[s2].tag by {
        if s1 == sw {
            lemma_slot_inverse(c, s2);
            assert(c.line(s2 / nl, i) == c.lines[s2]);
        } else if s2 == sw {
            lemma_slot_inverse(c, s1);
            assert(c.line(s1 / nl, i) == c.lines[s1]);
        } else {
            assert(d.lines[s1] == c.lines[s1] && d.lines[s2] == c.lines[s2]);
        }
    }
}

/// Aging a set keeps the state well formed and its lines resident.
pub proof fn lemma_aged(c: CacheView, i: int)
    requires
        c.wf(),
    ensures
        (CacheView { lines: c.aged(i), ..c }).wf(),
        (CacheView { lines: c.aged(i), ..c }).same_residency(c),
        forall|s: int| 0 <= s < c.lines.len() ==> (#[trigger] c.aged(i)[s]).data == c.lines[s].data
            && c.aged(i)[s].dirty == c.lines[s].dirty,
{
    let d = CacheView { lines: c.aged(i), ..c };
    assert forall|s1: int, s2: int|
        0 <= s1 < d.lines.len() && 0 <= s2 < d.lines.len() && s1 != s2 && s1 % d.nl() == s2 % d.nl()
            && (#[trigger] d.lines[s1]).valid && (#[trigger] d.lines[s2]).valid implies d.lines[s1].tag
        != d.lines[s2].tag by {
        assert(c.lines[s1].valid && c.lines[s2].valid);
    }
}

/// Installing a line keeps the state well formed, and the installed line is
/// then the one a lookup of its address finds.
pub proof fn lemma_install(c: CacheView, a: int, payload: Seq<u8>)
    requires
        c.wf(),
        0 <= a <= usize::MAX,
        payload.len() == c.lb(),
        c.stats.total() <= usize::MAX,
    ensures
        c.install_op(a, payload).wf(),
        c.install_op(a, payload).lookup(a) == Some(
            match c.lookup(a) {
                Some(w) => w,
                None => c.victim(c.geom.index_of(a)),
            },
        ),
{
    let g = c.geom;
    g.lemma_decomposition(a);
    let i = g.index_of(a);
    let t = g.tag_of(a);
    let hit = c.lookup(a);
    lemma_find_way(c, t, i, 0);
    lemma_victim(c, i);
    let w = match hit {
        Some(w) => w,
        None => c.victim(i),
    };
    let c1 = if hit is None && c.ages(i) {
        CacheView { lines: c.aged(i), ..c }
    } else {
        c
    };
    lemma_aged(c, i);
    let seed = if hit is None && c.draws(i) { next_seed(c.seed) } else { c.seed };
    let c2 = CacheView { seed, ..c1 };
    let time: nat = if c.policy == EvictionPolicy::Nru { 0 } else { c.stats.total() };
    let l = LineView { valid: true, dirty: false, tag: t as nat, time, data: payload };
    assert forall|v: int| 0 <= v < g.assoc && v != w && (#[trigger] c2.line(v, i)).valid implies c2.line(
        v,
        i,
    ).tag != l.tag by {
        lemma_slot(c, v, i);
        assert(c2.line(v, i).valid == c.line(v, i).valid && c2.line(v, i).tag == c.line(v, i).tag);
        if let Some(h) = hit {
            lemma_slot_distinct(c, v, i, h, i);
            lemma_slot(c, h, i);
        }
    }
    lemma_update_wf(c2, w, i, l);
    assert(c.install_op(a, payload) == c2.with_line(w, i, l));
    lemma_slot(c, w, i);
    lemma_lookup_finds(c2.with_line(w, i, l), a, w);
}

/// A valid line's tag appears in no other way of its set.
pub proof fn lemma_touch_unique(c: CacheView, w: int, i: int)
    requires
        c.wf(),
        0 <= w < c.geom.assoc,
        0 <= i < c.nl(),
    ensures
        c.line(w, i).valid ==> forall|v: int|
            0 <= v < c.geom.assoc && v != w && (#[trigger] c.line(v, i)).valid ==> c.line(v, i).tag
                != c.line(w, i).tag,
{
    assert forall|v: int| 0 <= v < c.geom.assoc && v != w && (#[trigger] c.line(v, i)).valid && c.line(w, i).valid implies c.line(v, i).tag
        != c.line(w, i).tag by {
        lemma_slot_distinct(c, v, i, w, i);
        lemma_slot(c, v, i);
        lemma_slot(c, w, i);
    }
}

/// A hit keeps the state well formed and changes only the time stamp of the
/// line it touches.
pub proof fn lemma_touch(c: CacheView, w: int, a: int)
    requires
        c.wf(),
        c.stats.has_room(1),
        0 <= a,
        c.lookup(a) == Some(w),
    ensures
        c.touch(w, a).wf(),
        c.touch(w, a).same_residency(c),
        forall|s: int| 0 <= s < c.lines.len() ==> (#[trigger] c.touch(w, a).lines[s]).data == c.lines[s].data
            && c.touch(w, a).lines[s].dirty == c.lines[s].dirty,
{
    let i = c.geom.index_of(a);
    c.geom.lemma_decomposition(a);
    lemma_find_way(c, c.geom.tag_of(a), i, 0);
    lemma_slot(c, w, i);
    let c1 = c.with_stats(c.stats.hit());
    assert(c1.wf());
    lemma_touch_unique(c1, w, i);
    let l = LineView { time: c1.stats.total(), ..c.line(w, i) };
    assert(c.lines[c.slot(w, i)] == c.line(w, i));
    lemma_update_wf(c1, w, i, l);
}

/// A write hit keeps the state well formed and changes only the line it
/// writes.
pub proof fn lemma_write_hit(c: CacheView, d: DataType, a: int)
    requires
        c.wf(),
        c.stats.has_room(1),
        0 <= a,
        c.lookup(a) is Some,
        c.geom.offset_of(a) + d.size_class().width() <= c.lb(),
    ensures
        c.write_op(d, a).0.wf(),
        c.write_op(d, a).0.same_residency(c),
{
    let w = c.lookup(a)->Some_0;
    let i = c.geom.index_of(a);
    lemma_touch(c, w, a);
    c.geom.lemma_decomposition(a);
    lemma_find_way(c, c.geom.tag_of(a), i, 0);
    let c1 = c.touch(w, a);
    lemma_slot(c1, w, i);
    lemma_touch_unique(c1, w, i);
    let l0 = c1.line(w, i);
    assert(c1.lines[c1.slot(w, i)] == l0);
    crate::data_type::lemma_le_round_trip(d);
    let l = LineView { dirty: true, data: write_bytes(l0.data, c.geom.offset_of(a), le_bytes(d)), ..l0 };
    lemma_update_wf(c1, w, i, l);
}

/// In a cache with no valid line every lookup misses.
pub proof fn lemma_cold_misses(c: CacheView, a: int)
    requires
        c.wf(),
        c.cold(),
        0 <= a,
    ensures
        c.lookup(a) is None,
{
    c.geom.lemma_decomposition(a);
    lemma_find_way(c, c.geom.tag_of(a), c.geom.index_of(a), 0);
    if let Some(w) = c.lookup(a) {
        lemma_slot(c, w, c.geom.index_of(a));
    }
}

/// Searches agree where the ways agree on holding the tag.
pub proof fn lemma_find_way_agree(c1: CacheView, c2: CacheView, tag: int, i: int, w0: int)
    requires
        c1.geom.assoc == c2.geom.assoc,
        0 <= w0,
        forall|u: int|
            w0 <= u < c1.geom.assoc ==> ((#[trigger] c1.line(u, i)).valid && c1.line(u, i).tag == tag) == (
            c2.line(u, i).valid && c2.line(u, i).tag == tag),
    ensures
        c1.find_way(tag, i, w0) == c2.find_way(tag, i, w0),
    decreases c1.geom.assoc - w0,
{
    if w0 < c1.geom.assoc {
        assert(c1.line(w0, i).valid == c1.line(w0, i).valid);
        lemma_find_way_agree(c1, c2, tag, i, w0 + 1);
    }
}

/// Repeated reads of a resident address: each counts one hit and no miss,
/// returns the same value, and leaves the line resident.
pub proof fn lemma_repeated_read(c: CacheView, a: int, size: DataTypeSize)
    requires
        c.wf(),
        c.stats.has_room(2),
        0 <= a,
        c.resident(a),
    ensures
        c.read_op(a, size).0.resident(a),
        c.read_op(a, size).0.stats == c.stats.hit(),
        c.read_op(a, size).0.read_op(a, size).1 == c.read_op(a, size).1,
        c.read_op(a, size).0.read_op(a, size).0.stats == c.stats.hit().hit(),
{
    let w = c.lookup(a)->Some_0;
    let c1 = c.read_op(a, size).0;
    lemma_touch(c, w, a);
    lemma_lookup_same(c, c1, a);
    let i = c.geom.index_of(a);
    c.geom.lemma_decomposition(a);
    lemma_find_way(c, c.geom.tag_of(a), i, 0);
    lemma_slot(c, w, i);
    assert(c1.lines[c.slot(w, i)].data == c.lines[c.slot(w, i)].data);
}

/// Installing the line of a non-resident address while its set still has an
/// invalid way evicts nothing: every resident line stays resident.
pub proof fn lemma_install_no_eviction(c: CacheView, a: int, payload: Seq<u8>, x: int)
    requires
        c.wf(),
        0 <= a <= usize::MAX,
        payload.len() == c.lb(),
        c.stats.total() <= usize::MAX,
        c.lookup(a) is None,
        c.first_invalid(c.geom.index_of(a), 0) is Some,
        0 <= x,
        c.resident(x),
    ensures
        c.install_op(a, payload).resident(x),
        c.install_op(a, payload).resident(a),
{
    let g = c.geom;
    let i = g.index_of(a);
    g.lemma_decomposition(a);
    g.lemma_decomposition(x);
    lemma_install(c, a, payload);
    lemma_victim(c, i);
    let v = c.victim(i);
    let c1 = c.install_op(a, payload);
    let u = c.lookup(x)->Some_0;
    let xi = g.index_of(x);
    lemma_find_way(c, g.tag_of(x), xi, 0);
    lemma_slot(c, u, xi);
    lemma_slot(c, v, i);
    if c.slot(u, xi) == c.slot(v, i) {
        lemma_slot_distinct(c, u, xi, v, i);
    }
    assert(c1.lines[c.slot(u, xi)] == c.lines[c.slot(u, xi)]);
    lemma_lookup_finds(c1, x, u);
}

/// Installing the line of a non-resident address into a full set evicts
/// exactly one line, the one the policy picks: afterwards an address is
/// resident exactly when it is in the new line, or it was resident and is
/// not in the victim's line.
pub proof fn lemma_full_set_evicts_one(c: CacheView, a: int, payload: Seq<u8>, x: int)
    requires
        c.wf(),
        0 <= a <= usize::MAX,
        payload.len() == c.lb(),
        c.stats.total() <= usize::MAX,
        c.lookup(a) is None,
        c.first_invalid(c.geom.index_of(a), 0) is None,
        0 <= x,
    ensures
        c.victim(c.geom.index_of(a)) == c.policy_victim(c.geom.index_of(a)),
        c.line(c.policy_victim(c.geom.index_of(a)), c.geom.index_of(a)).valid,
        c.install_op(a, payload).resident(x) == ((c.geom.tag_of(x) == c.geom.tag_of(a) && c.geom.index_of(
            x,
        ) == c.geom.index_of(a)) || (c.resident(x) && !(c.geom.index_of(x) == c.geom.index_of(a)
            && c.geom.tag_of(x) == c.line(c.policy_victim(c.geom.index_of(a)), c.geom.index_of(a)).tag))),
{
    let g = c.geom;
    let i = g.index_of(a);
    let t = g.tag_of(a);
    g.lemma_decomposition(a);
    g.lemma_decomposition(x);
    lemma_install(c, a, payload);
    lemma_victim(c, i);
    lemma_first_invalid(c, i, 0);
    lemma_find_way(c, t, i, 0);
    let v = c.victim(i);
    lemma_slot(c, v, i);
    let sv = c.slot(v, i);
    let l = c.lines[sv];
    let c1 = c.install_op(a, payload);
    lemma_aged(c, i);
    assert(c1.lines[sv].valid && c1.lines[sv].tag == t);
    assert(forall|s: int| 0 <= s < c.lines.len() && s != sv ==> (#[trigger] c1.lines[s]).valid == c.lines[s].valid
        && c1.lines[s].tag == c.lines[s].tag);
    let xi = g.index_of(x);
    let xt = g.tag_of(x);
    if xt == t && xi == i {
        assert(c1.lookup(x) == c1.lookup(a));
    } else if xi == i && xt == l.tag {
        lemma_lookup_finds(c, x, v);
        lemma_find_way(c1, xt, i, 0);
        if let Some(u) = c1.lookup(x) {
            lemma_slot(c, u, i);
            if u != v {
                lemma_slot_distinct(c, u, i, v, i);
                assert(c.lines[c.slot(u, i)].valid && c.lines[c.slot(u, i)].tag == l.tag);
            }
        }
    } else {
        assert forall|u: int| 0 <= u < g.assoc implies ((#[trigger] c1.line(u, xi)).valid && c1.line(u, xi).tag
            == xt) == (c.line(u, xi).valid && c.line(u, xi).tag == xt) by {
            lemma_slot(c, u, xi);
            if c.slot(u, xi) == sv {
                lemma_slot_inverse(c, sv);
            }
        }
        lemma_find_way_agree(c1, c, xt, xi, 0);
    }
}

/// Installs the lines of `addrs` one after another.
pub open spec fn install_all(c: CacheView, addrs: Seq<int>, payload: Seq<u8>) -> CacheView
    decreases addrs.len(),
{
    if addrs.len() == 0 {
        c
    } else {
        install_all(c, addrs.drop_last(), payload).install_op(addrs.last(), payload)
    }
}

/// In an N-way cache, N lines that share an index can all be resident at
/// once: starting from a cold cache, installing up to `assoc` of them leaves
/// every one resident, in ways `0, 1, ...` in order.
pub proof fn lemma_fill_set(c: CacheView, addrs: Seq<int>, payload: Seq<u8>)
    requires
        c.wf(),
        c.cold(),
        c.stats.total() <= usize::MAX,
        payload.len() == c.lb(),
        addrs.len() <= c.geom.assoc,
        forall|k: int| 0 <= k < addrs.len() ==> 0 <= #[trigger] addrs[k] <= usize::MAX,
        forall|k: int|
            0 <= k < addrs.len() ==> c.geom.index_of(#[trigger] addrs[k]) == c.geom.index_of(addrs[0]),
        forall|j: int, k: int|
            0 <= j < k < addrs.len() ==> c.geom.tag_of(#[trigger] addrs[j]) != c.geom.tag_of(#[trigger] addrs[k]),
    ensures
        forall|k: int| 0 <= k < addrs.len() ==> (#[trigger] install_all(c, addrs, payload)).resident(addrs[k]),
    decreases addrs.len(),
{
    lemma_fill_ways(c, addrs, payload);
    let d = install_all(c, addrs, payload);
    assert forall|k: int| 0 <= k < addrs.len() implies (#[trigger] install_all(c, addrs, payload)).resident(addrs[k]) by {
        let i = c.geom.index_of(addrs[0]);
        c.geom.lemma_decomposition(addrs[k]);
        lemma_lookup_finds(d, addrs[k], k);
    }
}

/// The shape of a set filled from cold: way `k` holds the `k`-th line, later
/// ways are still invalid.
proof fn lemma_fill_ways(c: CacheView, addrs: Seq<int>, payload: Seq<u8>)
    requires
        c.wf(),
        c.cold(),
        c.stats.total() <= usize::MAX,
        payload.len() == c.lb(),
        addrs.len() <= c.geom.assoc,
        forall|k: int| 0 <= k < addrs.len() ==> 0 <= #[trigger] addrs[k] <= usize::MAX,
        forall|k: int|
            0 <= k < addrs.len() ==> c.geom.index_of(#[trigger] addrs[k]) == c.geom.index_of(addrs[0]),
        forall|j: int, k: int|
            0 <= j < k < addrs.len() ==> c.geom.tag_of(#[trigger] addrs[j]) != c.geom.tag_of(#[trigger] addrs[k]),
    ensures
        ({
            let d = install_all(c, addrs, payload);
            let i = c.geom.index_of(addrs[0]);
            &&& d.wf()
            &&& d.geom == c.geom
            &&& d.stats == c.stats
            &&& d.policy == c.policy
            &&& addrs.len() > 0 ==> forall|w: int|
                0 <= w < c.geom.assoc ==> (#[trigger] d.line(w, i)).valid == (w < addrs.len())
            &&& addrs.len() > 0 ==> forall|w: int|
                0 <= w < addrs.len() ==> (#[trigger] d.line(w, i)).tag == c.geom.tag_of(addrs[w])
        }),
    decreases addrs.len(),
{
    if addrs.len() > 0 {
        let n = addrs.len() - 1;
        let pre = addrs.drop_last();
        let i = c.geom.index_of(addrs[0]);
        let a = addrs.last();
        lemma_fill_ways(c, pre, payload);
        let d0 = install_all(c, pre, payload);
        if n > 0 {
            assert(pre[0] == addrs[0]);
        }
        assert(a == addrs[n]);
        c.geom.lemma_decomposition(addrs[0]);
        c.geom.lemma_decomposition(a);
        if n == 0 {
            assert forall|w: int| 0 <= w < c.geom.assoc implies !(#[trigger] d0.line(w, i)).valid by {
                lemma_slot(c, w, i);
            }
        }
        lemma_find_way(d0, c.geom.tag_of(a), i, 0);
        assert(c.geom.index_of(a) == i);
        assert(d0.lookup(a) is None) by {
            if let Some(u) = d0.lookup(a) {
                assert(pre[u] == addrs[u]);
                assert(d0.line(u, i).tag == c.geom.tag_of(addrs[u]));
                assert(c.geom.tag_of(addrs[u]) != c.geom.tag_of(addrs[n]));
            }
        }
        lemma_first_invalid(d0, i, 0);
        if let Some(f) = d0.first_invalid(i, 0) {
            if f > n {
                assert(d0.line(n, i).valid);
            }
        } else {
            assert(d0.line(n, i).valid);
        }
        assert(d0.victim(i) == n);
        lemma_install(d0, a, payload);
        lemma_victim(d0, i);
        let d = d0.install_op(a, payload);
        assert(d == install_all(c, addrs, payload));
        lemma_slot(d0, n, i);
        assert(d.lines == d0.lines.update(d0.slot(n, i), LineView {
            valid: true,
            dirty: false,
            tag: c.geom.tag_of(a) as nat,
            time: d.lines[d0.slot(n, i)].time,
            data: payload,
        }));
        assert(d.line(n, i).valid && d.line(n, i).tag == c.geom.tag_of(a));
        assert forall|w: int| 0 <= w < c.geom.assoc implies (#[trigger] d.line(w, i)).valid == (w < addrs.len())
            && (w < addrs.len() ==> d.line(w, i).tag == c.geom.tag_of(addrs[w])) by {
            lemma_slot(d0, w, i);
            lemma_slot(d0, n, i);
            if w != n {
                lemma_slot_distinct(d0, w, i, n, i);
                assert(d.line(w, i) == d0.line(w, i));
                if w < n {
                    assert(pre[w] == addrs[w]);
                    assert(d0.line(w, i).valid);
                } else {
                    assert(!d0.line(w, i).valid);
                }
            }
        }
    }
}

/// Writing a value to a resident address and reading the same width back
/// returns the value, and leaves the line dirty.
pub proof fn lemma_cache_write_then_read(c: CacheView, d: DataType, a: int)
    requires
        c.wf(),
        c.stats.has_room(2),
        0 <= a,
        c.resident(a),
        c.geom.offset_of(a) + d.size_class().width() <= c.lb(),
    ensures
        c.write_op(d, a).0.read_op(a, d.size_class()).1 == Ok::<DataType, MemoryError>(d),
        c.write_op(d, a).0.line(c.lookup(a)->Some_0, c.geom.index_of(a)).dirty,
{
    let w = c.lookup(a)->Some_0;
    let i = c.geom.index_of(a);
    let c2 = c.write_op(d, a).0;
    lemma_write_hit(c, d, a);
    lemma_lookup_same(c, c2, a);
    c.geom.lemma_decomposition(a);
    lemma_find_way(c, c.geom.tag_of(a), i, 0);
    lemma_slot(c, w, i);
    crate::data_type::lemma_le_round_trip(d);
    let off = c.geom.offset_of(a);
    let n = d.size_class().width() as int;
    let l0 = c.touch(w, a).line(w, i);
    assert(l0.data == c.line(w, i).data);
    assert(c.lines[c.slot(w, i)] == c.line(w, i));
    assert(write_bytes(l0.data, off, le_bytes(d)).subrange(off, off + n) =~= le_bytes(d));
}

/// A hit makes its line the most recently used of its set: its time stamp
/// is then greater than that of every other way at the index.
pub proof fn lemma_hit_is_most_recent(c: CacheView, a: int, size: DataTypeSize, d: DataType, v: int)
    requires
        c.wf(),
        c.stats.has_room(1),
        0 <= a,
        c.resident(a),
        0 <= v < c.geom.assoc,
        v != c.lookup(a)->Some_0,
    ensures
        c.read_op(a, size).0.line(v, c.geom.index_of(a)).time < c.read_op(a, size).0.line(
            c.lookup(a)->Some_0,
            c.geom.index_of(a),
        ).time,
        c.write_op(d, a).0.line(v, c.geom.index_of(a)).time < c.write_op(d, a).0.line(
            c.lookup(a)->Some_0,
            c.geom.index_of(a),
        ).time,
{
    let w = c.lookup(a)->Some_0;
    let i = c.geom.index_of(a);
    c.geom.lemma_decomposition(a);
    lemma_find_way(c, c.geom.tag_of(a), i, 0);
    lemma_slot(c, v, i);
    lemma_slot(c, w, i);
    lemma_slot_distinct(c, v, i, w, i);
    assert(c.lines[c.slot(v, i)].time <= c.stats.total());
}

/// A later write of at least as many bytes at the same resident address
/// overrides an earlier one: reading its width back returns the later value.
pub proof fn lemma_later_write_overrides(c: CacheView, d1: DataType, d2: DataType, a: int)
    requires
        c.wf(),
        c.stats.has_room(3),
        0 <= a,
        c.resident(a),
        d1.size_class().width() <= d2.size_class().width(),
        c.geom.offset_of(a) + d2.size_class().width() <= c.lb(),
    ensures
        c.write_op(d1, a).0.write_op(d2, a).0.read_op(a, d2.size_class()).1 == Ok::<DataType, MemoryError>(d2),
        c.write_op(d1, a).0.write_op(d2, a).0.line(c.lookup(a)->Some_0, c.geom.index_of(a)).dirty,
{
    let c1 = c.write_op(d1, a).0;
    lemma_write_hit(c, d1, a);
    lemma_lookup_same(c, c1, a);
    lemma_cache_write_then_read(c1, d2, a);
}

} // verus!
