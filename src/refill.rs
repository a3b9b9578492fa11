//! The miss-handling protocol between a cache and the level below it: write
//! back the dirty victim, fetch the missing line, install it. A cache and the
//! memory below are coherent when every clean line equals the memory under
//! it; the protocol keeps them coherent and leaves every byte the pair shows
//! unchanged.
use crate::cache_view::{
    lemma_aged, lemma_find_way, lemma_find_way_agree, lemma_install, lemma_lookup_finds, lemma_lookup_same, lemma_slot,
    lemma_slot_distinct, lemma_slot_inverse, lemma_touch, lemma_victim, lemma_write_hit, write_bytes,
    CacheView, LineView,
};
use vstd::arithmetic::div_mod::{lemma_div_is_ordered, lemma_fundamental_div_mod};
use crate::data_type::{le_bytes, DataType, DataTypeSize};
use vstd::prelude::*;

verus! {

/// The byte at `x` as the pair shows it: from the cache if its line is
/// resident, else from memory.
pub open spec fn byte_view(c: CacheView, m: Seq<u8>, x: int) -> u8 {
    match c.lookup(x) {
        Some(w) => c.line(w, c.geom.index_of(x)).data[c.geom.offset_of(x)],
        None => m[x],
    }
}

/// Every byte of memory of `m.len()` bytes as the pair shows it.
pub open spec fn view_seq(c: CacheView, m: Seq<u8>) -> Seq<u8> {
    Seq::new(m.len(), |x: int| byte_view(c, m, x))
}

/// Every valid line lies in `[lo, hi)` and every clean one equals memory.
pub open spec fn coherent(c: CacheView, m: Seq<u8>, lo: int, hi: int) -> bool {
    &&& c.wf()
    &&& forall|s: int|
        0 <= s < c.lines.len() && (#[trigger] c.lines[s]).valid ==> lo <= c.slot_base(s) && c.slot_base(s)
            + c.lb() <= hi
    &&& forall|s: int|
        0 <= s < c.lines.len() && (#[trigger] c.lines[s]).valid && !c.lines[s].dirty ==> c.lines[s].data
            == m.subrange(c.slot_base(s), c.slot_base(s) + c.lb())
}

/// `[lo, hi)` is a whole number of lines of `c` within memory of `len` bytes.
pub open spec fn line_aligned_region(c: CacheView, len: int, lo: int, hi: int) -> bool {
    &&& 0 <= lo <= hi <= len
    &&& lo % c.lb() == 0
    &&& hi % c.lb() == 0
}

/// Memory after the victim for a miss on `a` has been written back, if dirty.
pub open spec fn written_back(c: CacheView, m: Seq<u8>, a: int) -> Seq<u8> {
    if c.victim_dirty(a) {
        write_bytes(m, c.writeback_addr(a), c.victim_data(a))
    } else {
        m
    }
}

/// Cache and memory after the miss on `a` has been handled.
pub open spec fn refill_op(c: CacheView, m: Seq<u8>, a: int) -> (CacheView, Seq<u8>) {
    let m1 = written_back(c, m, a);
    let base = c.fetch_base(a);
    (c.install_op(base, m1.subrange(base, base + c.lb())), m1)
}

/// Cache and memory after a read of `size` bytes at `a` through the cache:
/// a hit, or a miss, its refill and the retried read.
pub open spec fn read_through_op(c: CacheView, m: Seq<u8>, a: int, size: DataTypeSize) -> (CacheView, Seq<u8>) {
    let c1 = c.read_op(a, size).0;
    if c.resident(a) {
        (c1, m)
    } else {
        let (c2, m2) = refill_op(c1, m, a);
        (c2.read_op(a, size).0, m2)
    }
}

/// Cache and memory after a write of `d` at `a` through the cache: a hit,
/// or a miss, its refill and the retried write.
pub open spec fn write_through_op(c: CacheView, m: Seq<u8>, d: DataType, a: int) -> (CacheView, Seq<u8>) {
    let c1 = c.write_op(d, a).0;
    if c.resident(a) {
        (c1, m)
    } else {
        let (c2, m2) = refill_op(c1, m, a);
        (c2.write_op(d, a).0, m2)
    }
}

/// A resident address lies in the line that a lookup finds.
pub proof fn lemma_lookup_line(c: CacheView, x: int)
    requires
        c.wf(),
        0 <= x,
        c.lookup(x) is Some,
    ensures
        ({
            let s = c.slot(c.lookup(x)->Some_0, c.geom.index_of(x));
            &&& 0 <= s < c.lines.len()
            &&& s % c.nl() == c.geom.index_of(x)
            &&& c.lines[s].valid
            &&& c.lines[s].tag == c.geom.tag_of(x)
            &&& c.slot_base(s) == x - c.geom.offset_of(x)
            &&& c.slot_base(s) <= x < c.slot_base(s) + c.lb()
        }),
{
    let g = c.geom;
    g.lemma_decomposition(x);
    let w = c.lookup(x)->Some_0;
    lemma_find_way(c, g.tag_of(x), g.index_of(x), 0);
    lemma_slot(c, w, g.index_of(x));
}

/// Every address of a valid line finds that line.
pub proof fn lemma_slot_line(c: CacheView, s: int, x: int)
    requires
        c.wf(),
        0 <= s < c.lines.len(),
        c.lines[s].valid,
        c.slot_base(s) <= x < c.slot_base(s) + c.lb(),
        0 <= x,
    ensures
        c.lookup(x) == Some(s / c.nl()),
        c.geom.index_of(x) == s % c.nl(),
        c.geom.tag_of(x) == c.lines[s].tag,
        c.geom.offset_of(x) == x - c.slot_base(s),
        c.slot(s / c.nl(), s % c.nl()) == s,
{
    let g = c.geom;
    lemma_slot_inverse(c, s);
    g.lemma_in_line(c.lines[s].tag as int, s % c.nl(), x);
    g.lemma_decomposition(x);
    lemma_lookup_finds(c, x, s / c.nl());
}

/// The line of an address in a line-aligned region lies in the region.
pub proof fn lemma_line_in_region(c: CacheView, lo: int, hi: int, a: int)
    requires
        c.geom.wf(),
        0 <= lo <= a < hi,
        lo % c.lb() == 0,
        hi % c.lb() == 0,
    ensures
        lo <= c.fetch_base(a),
        c.fetch_base(a) + c.lb() <= hi,
        c.fetch_base(a) == a - c.geom.offset_of(a),
{
    let g = c.geom;
    g.lemma_sizes();
    g.lemma_decomposition(a);
    let lb = c.lb();
    lemma_fundamental_div_mod(a, lb);
    lemma_fundamental_div_mod(lo, lb);
    lemma_fundamental_div_mod(hi, lb);
    lemma_div_is_ordered(lo, a, lb);
    lemma_div_is_ordered(a, hi, lb);
    assert(lb * (lo / lb) <= lb * (a / lb)) by (nonlinear_arith)
        requires
            lo / lb <= a / lb,
            lb > 0,
    ;
    if a / lb >= hi / lb {
        assert(lb * (a / lb) >= lb * (hi / lb)) by (nonlinear_arith)
            requires
                a / lb >= hi / lb,
                lb > 0,
        ;
    }
    assert(lb * (a / lb) + lb <= lb * (hi / lb)) by (nonlinear_arith)
        requires
            a / lb < hi / lb,
            lb > 0,
    ;
}

/// Two states with the same lines but for time stamps show the same bytes
/// and are coherent alike.
pub proof fn lemma_same_lines(c1: CacheView, c2: CacheView, m: Seq<u8>, lo: int, hi: int)
    requires
        c1.wf(),
        c1.same_residency(c2),
        forall|s: int| 0 <= s < c1.lines.len() ==> (#[trigger] c1.lines[s]).data == c2.lines[s].data
            && c1.lines[s].dirty == c2.lines[s].dirty,
    ensures
        forall|x: int| 0 <= x ==> #[trigger] byte_view(c1, m, x) == byte_view(c2, m, x),
        coherent(c1, m, lo, hi) ==> c2.wf() ==> coherent(c2, m, lo, hi),
{
    assert forall|x: int| 0 <= x implies #[trigger] byte_view(c1, m, x) == byte_view(c2, m, x) by {
        lemma_lookup_same(c1, c2, x);
        if c1.lookup(x) is Some {
            lemma_lookup_line(c1, x);
        }
    }
    if coherent(c1, m, lo, hi) && c2.wf() {
        assert forall|s: int| 0 <= s < c2.lines.len() && (#[trigger] c2.lines[s]).valid implies lo
            <= c2.slot_base(s) && c2.slot_base(s) + c2.lb() <= hi by {
            assert(c1.lines[s].valid);
        }
        assert forall|s: int|
            0 <= s < c2.lines.len() && (#[trigger] c2.lines[s]).valid && !c2.lines[s].dirty implies c2.lines[s].data
            == m.subrange(c2.slot_base(s), c2.slot_base(s) + c2.lb()) by {
            assert(c1.lines[s].valid);
        }
    }
}

/// A read hit keeps the pair coherent and shows the same bytes.
pub proof fn lemma_read_hit_view(c: CacheView, m: Seq<u8>, lo: int, hi: int, a: int)
    requires
        coherent(c, m, lo, hi),
        c.stats.has_room(1),
        0 <= a,
        c.lookup(a) is Some,
    ensures
        coherent(c.touch(c.lookup(a)->Some_0, a), m, lo, hi),
        c.touch(c.lookup(a)->Some_0, a).same_residency(c),
        forall|x: int| 0 <= x ==> #[trigger] byte_view(c.touch(c.lookup(a)->Some_0, a), m, x) == byte_view(c, m, x),
{
    let c1 = c.touch(c.lookup(a)->Some_0, a);
    lemma_touch(c, c.lookup(a)->Some_0, a);
    lemma_same_lines(c, c1, m, lo, hi);
    assert(c1.same_residency(c));
}

/// A write hit keeps the pair coherent and shows the written bytes at their
/// addresses and the same bytes elsewhere.
pub proof fn lemma_write_hit_view(c: CacheView, m: Seq<u8>, lo: int, hi: int, d: DataType, a: int)
    requires
        coherent(c, m, lo, hi),
        c.stats.has_room(1),
        0 <= a,
        c.lookup(a) is Some,
        c.geom.offset_of(a) + d.size_class().width() <= c.lb(),
    ensures
        coherent(c.write_op(d, a).0, m, lo, hi),
        c.write_op(d, a).0.same_residency(c),
        forall|x: int|
            0 <= x ==> #[trigger] byte_view(c.write_op(d, a).0, m, x) == (if a <= x < a + le_bytes(d).len() {
                le_bytes(d)[x - a]
            } else {
                byte_view(c, m, x)
            }),
{
    let g = c.geom;
    let w = c.lookup(a)->Some_0;
    let i = g.index_of(a);
    let c1 = c.touch(w, a);
    let c2 = c.write_op(d, a).0;
    crate::data_type::lemma_le_round_trip(d);
    lemma_read_hit_view(c, m, lo, hi, a);
    lemma_write_hit(c, d, a);
    lemma_lookup_line(c, a);
    let sw = c.slot(w, i);
    let sb = c.slot_base(sw);
    assert(c1.lines[sw] == LineView { time: c1.stats.total(), ..c.lines[sw] });
    assert forall|x: int| 0 <= x implies #[trigger] byte_view(c2, m, x) == (if a <= x < a + le_bytes(d).len() {
        le_bytes(d)[x - a]
    } else {
        byte_view(c, m, x)
    }) by {
        lemma_lookup_same(c, c2, x);
        lemma_lookup_same(c, c1, x);
        if a <= x < a + le_bytes(d).len() {
            lemma_slot_line(c, sw, x);
        }
        if c.lookup(x) is Some {
            lemma_lookup_line(c, x);
            let su = c.slot(c.lookup(x)->Some_0, g.index_of(x));
            if su == sw {
                lemma_slot_line(c, sw, x);
            } else {
                assert(c2.lines[su] == c1.lines[su]);
                if a <= x < a + le_bytes(d).len() {
                    lemma_slot_line(c, sw, x);
                    lemma_slot_inverse(c, sw);
                }
            }
        }
    }
    assert forall|s: int| 0 <= s < c2.lines.len() && (#[trigger] c2.lines[s]).valid implies lo
        <= c2.slot_base(s) && c2.slot_base(s) + c2.lb() <= hi by {
        assert(c.lines[s].valid);
    }
    assert forall|s: int|
        0 <= s < c2.lines.len() && (#[trigger] c2.lines[s]).valid && !c2.lines[s].dirty implies c2.lines[s].data
        == m.subrange(c2.slot_base(s), c2.slot_base(s) + c2.lb()) by {
        assert(c1.lines[s].valid);
        assert(s != sw);
        assert(c2.lines[s] == c1.lines[s]);
    }
}

/// Handling a miss keeps the pair coherent, makes the address resident,
/// shows every byte as before, and writes memory only inside the region.
pub proof fn lemma_refill(c: CacheView, m: Seq<u8>, lo: int, hi: int, a: int)
    requires
        coherent(c, m, lo, hi),
        line_aligned_region(c, m.len() as int, lo, hi),
        lo <= a < hi,
        a <= usize::MAX,
        c.lookup(a) is None,
        c.stats.total() <= usize::MAX,
    ensures
        coherent(refill_op(c, m, a).0, refill_op(c, m, a).1, lo, hi),
        refill_op(c, m, a).0.lookup(a) is Some,
        refill_op(c, m, a).1.len() == m.len(),
        forall|x: int|
            0 <= x < m.len() ==> #[trigger] byte_view(refill_op(c, m, a).0, refill_op(c, m, a).1, x)
                == byte_view(c, m, x),
        forall|x: int| 0 <= x < m.len() && !(lo <= x < hi) ==> #[trigger] refill_op(c, m, a).1[x] == m[x],
        refill_op(c, m, a).0.stats == c.stats,
        refill_op(c, m, a).0.geom == c.geom,
        refill_op(c, m, a).0.policy == c.policy,
{
    let g = c.geom;
    let nl = c.nl();
    let lb = c.lb();
    g.lemma_sizes();
    g.lemma_decomposition(a);
    let i = g.index_of(a);
    let t = g.tag_of(a);
    let v = c.victim(i);
    lemma_victim(c, i);
    lemma_slot(c, v, i);
    let sv = c.slot(v, i);
    let l = c.lines[sv];
    assert(l == c.line(v, i));
    let wb = c.slot_base(sv);
    assert(wb == c.writeback_addr(a));
    let m1 = written_back(c, m, a);
    lemma_line_in_region(c, lo, hi, a);
    let base = c.fetch_base(a);
    lemma_find_way(c, t, i, 0);
    assert(!(l.valid && l.tag == t));
    g.lemma_in_line(t, i, base);
    g.lemma_decomposition(base);
    assert(c.lookup(base) is None);
    let payload = m1.subrange(base, base + lb);
    lemma_install(c, base, payload);
    let c1 = c.install_op(base, payload);
    assert(refill_op(c, m, a) == (c1, m1));
    assert(c1.lookup(base) == Some(v));
    lemma_aged(c, i);
    let n = crate::cache_view::LineView { valid: true, dirty: false, tag: t as nat, time: c1.lines[sv].time, data: payload };
    assert(c1.lines[sv] == n);
    assert(forall|s: int| 0 <= s < c.lines.len() && s != sv ==> (#[trigger] c1.lines[s]).valid == c.lines[s].valid
        && c1.lines[s].tag == c.lines[s].tag && c1.lines[s].data == c.lines[s].data
        && c1.lines[s].dirty == c.lines[s].dirty);
    // what the write-back changed
    if l.dirty {
        assert(l.valid);
        assert(lo <= wb && wb + lb <= hi);
    }
    assert(forall|y: int| 0 <= y < m.len() ==> #[trigger] m1[y] == (if l.dirty && wb <= y < wb + lb {
        l.data[y - wb]
    } else {
        m[y]
    }));
    assert forall|x: int| 0 <= x < m.len() implies #[trigger] byte_view(c1, m1, x) == byte_view(c, m, x) by {
        g.lemma_in_line(t, i, x);
        g.lemma_decomposition(x);
        if l.valid {
            lemma_slot_inverse(c, sv);
            g.lemma_in_line(l.tag as int, i, x);
        }
        if base <= x < base + lb {
            assert(c1.lookup(x) == c1.lookup(base));
            assert(c.lookup(x) == c.lookup(base));
        } else if l.valid && wb <= x < wb + lb {
            lemma_slot_line(c, sv, x);
            lemma_find_way(c1, l.tag as int, i, 0);
            if let Some(u) = c1.lookup(x) {
                lemma_slot(c, u, i);
                if u != v {
                    lemma_slot_distinct(c, u, i, v, i);
                    assert(c.lines[c.slot(u, i)].valid && c.lines[c.slot(u, i)].tag == l.tag);
                }
            }
            if !l.dirty {
                assert(l.data == m.subrange(wb, wb + lb));
            }
        } else {
            let xi = g.index_of(x);
            let xt = g.tag_of(x);
            assert forall|u: int| 0 <= u < g.assoc implies ((#[trigger] c1.line(u, xi)).valid && c1.line(
                u,
                xi,
            ).tag == xt) == (c.line(u, xi).valid && c.line(u, xi).tag == xt) by {
                lemma_slot(c, u, xi);
                if c.slot(u, xi) == sv {
                    lemma_slot_inverse(c, sv);
                }
            }
            lemma_find_way_agree(c1, c, xt, xi, 0);
            if let Some(u) = c.lookup(x) {
                lemma_find_way(c, xt, xi, 0);
                lemma_slot(c, u, xi);
                if c.slot(u, xi) == sv {
                    lemma_slot_inverse(c, sv);
                }
            }
        }
    }
    assert forall|s: int| 0 <= s < c1.lines.len() && (#[trigger] c1.lines[s]).valid implies lo
        <= c1.slot_base(s) && c1.slot_base(s) + c1.lb() <= hi by {
        if s != sv {
            assert(c.lines[s].valid);
        } else {
            lemma_slot_inverse(c, sv);
        }
    }
    assert forall|s: int|
        0 <= s < c1.lines.len() && (#[trigger] c1.lines[s]).valid && !c1.lines[s].dirty implies c1.lines[s].data
        == m1.subrange(c1.slot_base(s), c1.slot_base(s) + c1.lb()) by {
        if s != sv {
            assert(c.lines[s].valid);
            let sb = c.slot_base(s);
            assert(c.lines[s].data == m.subrange(sb, sb + lb));
            lemma_slot_inverse(c, s);
            assert forall|y: int| sb <= y < sb + lb implies #[trigger] m1[y] == m[y] by {
                g.lemma_in_line(c.lines[s].tag as int, s % nl, y);
                if l.dirty && wb <= y < wb + lb {
                    lemma_slot_inverse(c, sv);
                    g.lemma_in_line(l.tag as int, i, y);
                }
            }
            assert(m1.subrange(sb, sb + lb) =~= m.subrange(sb, sb + lb));
        } else {
            lemma_slot_inverse(c, sv);
        }
    }
}

/// Memory that agrees on every byte of every valid line keeps the pair
/// coherent and shows the same bytes wherever a line is resident.
pub proof fn lemma_frame(c: CacheView, m: Seq<u8>, m1: Seq<u8>, lo: int, hi: int)
    requires
        coherent(c, m, lo, hi),
        0 <= lo <= hi <= m.len(),
        m1.len() == m.len(),
        forall|s: int, y: int|
            0 <= s < c.lines.len() && (#[trigger] c.lines[s]).valid && c.slot_base(s) <= y < c.slot_base(s)
                + c.lb() ==> #[trigger] m1[y] == m[y],
    ensures
        coherent(c, m1, lo, hi),
        forall|x: int| 0 <= x && c.lookup(x) is Some ==> #[trigger] byte_view(c, m1, x) == byte_view(c, m, x),
{
    assert forall|s: int|
        0 <= s < c.lines.len() && (#[trigger] c.lines[s]).valid && !c.lines[s].dirty implies c.lines[s].data
        == m1.subrange(c.slot_base(s), c.slot_base(s) + c.lb()) by {
        let sb = c.slot_base(s);
        assert forall|y: int| sb <= y < sb + c.lb() implies m1[y] == m[y] by {
            assert(c.lines[s].valid);
        }
        assert(m1.subrange(sb, sb + c.lb()) =~= m.subrange(sb, sb + c.lb()));
    }
}

/// The bytes a hit shows at and after `a`, within its line.
pub proof fn lemma_hit_bytes(c: CacheView, m: Seq<u8>, a: int, n: int)
    requires
        c.wf(),
        0 <= a,
        c.lookup(a) is Some,
        0 <= n,
        c.geom.offset_of(a) + n <= c.lb(),
    ensures
        c.line(c.lookup(a)->Some_0, c.geom.index_of(a)).data.len() == c.lb(),
        forall|k: int|
            0 <= k < n ==> #[trigger] byte_view(c, m, a + k) == c.line(c.lookup(a)->Some_0, c.geom.index_of(a)).data[c.geom.offset_of(a) + k],
{
    let w = c.lookup(a)->Some_0;
    lemma_lookup_line(c, a);
    let s = c.slot(w, c.geom.index_of(a));
    assert forall|k: int| 0 <= k < n implies #[trigger] byte_view(c, m, a + k) == c.line(w, c.geom.index_of(a)).data[c.geom.offset_of(a) + k] by {
        lemma_slot_line(c, s, a + k);
        lemma_slot_line(c, s, a);
    }
}

/// A line of `c` that holds a byte of `[a, a + n)` holds `a` too.
pub proof fn lemma_line_holds_start(c: CacheView, s: int, a: int, n: int, y: int)
    requires
        c.wf(),
        0 <= a,
        0 <= n,
        c.geom.offset_of(a) + n <= c.lb(),
        a <= y < a + n,
        0 <= s < c.lines.len(),
        c.lines[s].valid,
        c.slot_base(s) <= y < c.slot_base(s) + c.lb(),
    ensures
        c.lookup(a) is Some,
{
    c.geom.lemma_decomposition(a);
    c.geom.lemma_decomposition(y);
    lemma_slot_line(c, s, y);
    lemma_slot_inverse(c, s);
    c.geom.lemma_in_line(c.geom.tag_of(a), c.geom.index_of(a), y);
    assert(c.line(s / c.nl(), c.geom.index_of(a)) == c.lines[s]);
    lemma_lookup_finds(c, a, s / c.nl());
}

} // verus!
