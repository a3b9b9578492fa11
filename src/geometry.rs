//! Cache geometry and the split of an address into tag, index, word offset
//! and byte offset.
use vstd::arithmetic::div_mod::{
    lemma_div_denominator, lemma_fundamental_div_mod, lemma_fundamental_div_mod_converse, lemma_mod_breakdown, lemma_mod_bound,
};
use vstd::arithmetic::power2::{
    lemma2_to64, lemma_pow2_adds, lemma_pow2_pos, lemma_pow2_strictly_increases, lemma_pow2_unfold, pow2,
};
use vstd::bits::{
    low_bits_mask, lemma_usize_low_bits_mask_is_mod, lemma_usize_pow2_no_overflow,
    lemma_usize_shl_is_mul, lemma_usize_shr_is_div,
};
use vstd::prelude::*;

verus! {

/// Bytes in a word.
pub const WORD_BYTES: usize = 4;

/// Address bits that select a byte within a word.
pub const BYTE_BITS: usize = 2;

/// `n` is a power of two.
pub open spec fn is_pow2(n: nat) -> bool {
    exists|k: nat| pow2(k) == n
}

/// The shape of one cache, fixed when it is built: capacity in bytes, words
/// per line, ways, and what follows from them: the number of indices and the
/// widths of the word and index fields of an address.
#[derive(Debug, Clone, Copy, PartialEq, Eq, Structural)]
pub struct Geometry {
    pub bytes: usize,
    pub words_per_line: usize,
    pub assoc: usize,
    pub num_lines: usize,
    pub word_bits: usize,
    pub index_bits: usize,
}

impl Geometry {
    pub open spec fn line_bytes(self) -> nat {
        (WORD_BYTES * self.words_per_line) as nat
    }

    /// Bytes covered by one way: one line for each index.
    pub open spec fn way_bytes(self) -> nat {
        self.line_bytes() * (self.num_lines as nat)
    }

    pub open spec fn wf(self) -> bool {
        &&& is_pow2(self.bytes as nat)
        &&& self.assoc >= 1
        &&& pow2(self.word_bits as nat) == self.words_per_line
        &&& pow2(self.index_bits as nat) == self.num_lines
        &&& self.num_lines as int == self.bytes as int / (self.assoc as int * self.line_bytes())
        &&& self.assoc as int * self.way_bytes() <= self.bytes as int
    }

    /// The line that holds address `a`, counted from address zero.
    pub open spec fn line_of(self, a: int) -> int {
        a / (self.line_bytes() as int)
    }

    pub open spec fn byte_of(self, a: int) -> int {
        a % (WORD_BYTES as int)
    }

    pub open spec fn word_of(self, a: int) -> int {
        (a / (WORD_BYTES as int)) % (self.words_per_line as int)
    }

    pub open spec fn index_of(self, a: int) -> int {
        self.line_of(a) % (self.num_lines as int)
    }

    pub open spec fn tag_of(self, a: int) -> int {
        self.line_of(a) / (self.num_lines as int)
    }

    /// Position of address `a` within its line.
    pub open spec fn offset_of(self, a: int) -> int {
        a % (self.line_bytes() as int)
    }

    /// Address of byte zero of word zero of the line with this tag and index.
    pub open spec fn line_base(self, tag: int, index: int) -> int {
        tag * self.way_bytes() + index * self.line_bytes()
    }

    /// Checks the shape and derives the number of indices and the field widths.
    pub fn new(bytes: usize, words_per_line: usize, assoc: usize) -> (r: Geometry)
        requires
            is_pow2(bytes as nat),
            is_pow2(words_per_line as nat),
            assoc >= 1,
            assoc * WORD_BYTES * words_per_line <= bytes,
            is_pow2((bytes as int / (assoc * WORD_BYTES * words_per_line)) as nat),
        ensures
            r.wf(),
            r.bytes == bytes,
            r.words_per_line == words_per_line,
            r.assoc == assoc,
    {
        proof {
            let kw = choose|k: nat| pow2(k) == words_per_line;
            lemma_pow2_pos(kw);
            assert(assoc * (WORD_BYTES * words_per_line) >= 1) by (nonlinear_arith)
                requires
                    assoc >= 1,
                    words_per_line >= 1,
            ;
            assert(assoc * WORD_BYTES * words_per_line == assoc * (WORD_BYTES * words_per_line))
                by (nonlinear_arith);
            assert(WORD_BYTES * words_per_line <= assoc * (WORD_BYTES * words_per_line))
                by (nonlinear_arith)
                requires
                    assoc >= 1,
            ;
        }
        let line = WORD_BYTES * words_per_line;
        let set = assoc * line;
        let num_lines = bytes / set;
        proof {
            let n = num_lines as int;
            lemma_fundamental_div_mod(bytes as int, set as int);
            lemma_mod_bound(bytes as int, set as int);
            assert(set * n <= bytes);
            assert(assoc * (line * n) == set * n) by (nonlinear_arith)
                requires
                    set == assoc * line,
            ;
        }
        let word_bits = log2(words_per_line);
        let index_bits = log2(num_lines);
        Geometry { bytes, words_per_line, assoc, num_lines, word_bits, index_bits }
    }

    /// Address bits that select a byte within a word.
    pub fn byte_bits(&self) -> (r: usize)
        ensures
            pow2(r as nat) == WORD_BYTES,
    {
        proof {
            lemma2_to64();
        }
        BYTE_BITS
    }

    pub fn word_bits(&self) -> (r: usize)
        requires
            self.wf(),
        ensures
            pow2(r as nat) == self.words_per_line,
    {
        self.word_bits
    }

    pub fn index_bits(&self) -> (r: usize)
        requires
            self.wf(),
        ensures
            pow2(r as nat) == self.num_lines,
    {
        self.index_bits
    }

    pub fn line_bytes_exec(&self) -> (r: usize)
        requires
            self.wf(),
        ensures
            r == self.line_bytes(),
    {
        proof {
            self.lemma_sizes();
        }
        WORD_BYTES * self.words_per_line
    }

    /// Splits an address into (tag, index, word offset, byte offset) with
    /// shifts and masks.
    pub fn decode_addr(&self, addr: usize) -> (r: (usize, usize, usize, usize))
        requires
            self.wf(),
        ensures
            r.0 == self.tag_of(addr as int),
            r.1 == self.index_of(addr as int),
            r.2 == self.word_of(addr as int),
            r.3 == self.byte_of(addr as int),
    {
        proof {
            self.lemma_field_widths();
        }
        let bb = BYTE_BITS;
        let wb = self.word_bits;
        let ib = self.index_bits;
        let byte_mask = low_mask(bb);
        let word_mask = low_mask(wb);
        let index_mask = low_mask(ib);
        let byte = addr & byte_mask;
        let word = (addr >> bb) & word_mask;
        let index = (addr >> (bb + wb)) & index_mask;
        let tag = addr >> (bb + wb + ib);
        proof {
            let lb = self.line_bytes() as int;
            let nl = self.num_lines as int;
            lemma_usize_low_bits_mask_is_mod(addr, bb as nat);
            lemma_usize_shr_is_div(addr, bb);
            lemma_usize_low_bits_mask_is_mod(addr >> bb, wb as nat);
            lemma_usize_shr_is_div(addr, (bb + wb) as usize);
            lemma_usize_low_bits_mask_is_mod(addr >> (bb + wb), ib as nat);
            lemma_usize_shr_is_div(addr, (bb + wb + ib) as usize);
            lemma_div_denominator(addr as int, lb, nl);
        }
        (tag, index, word, byte)
    }

    /// Address of the first byte of the line with this tag and index.
    pub fn base_addr(&self, tag: usize, index: usize) -> (r: usize)
        requires
            self.wf(),
            self.line_base(tag as int, index as int) <= usize::MAX,
        ensures
            r == self.line_base(tag as int, index as int),
    {
        proof {
            self.lemma_sizes();
            assert(0 <= tag * self.way_bytes());
            assert(0 <= index * self.line_bytes());
        }
        tag * (WORD_BYTES * self.words_per_line * self.num_lines) + index * (WORD_BYTES
            * self.words_per_line)
    }

    /// The fields of an address fit in a word: their widths add up to fewer
    /// bits than an address has, and give the line and way sizes.
    pub proof fn lemma_field_widths(self)
        requires
            self.wf(),
        ensures
            BYTE_BITS + self.word_bits + self.index_bits < usize::BITS,
            pow2(BYTE_BITS as nat) == WORD_BYTES,
            pow2((BYTE_BITS + self.word_bits) as nat) == self.line_bytes(),
            pow2((BYTE_BITS + self.word_bits + self.index_bits) as nat) == self.way_bytes(),
    {
        self.lemma_sizes();
        lemma2_to64();
        lemma_pow2_adds(BYTE_BITS as nat, self.word_bits as nat);
        lemma_pow2_adds((BYTE_BITS + self.word_bits) as nat, self.index_bits as nat);
        let k = (BYTE_BITS + self.word_bits + self.index_bits) as nat;
        assert(self.line_bytes() == 4 * self.words_per_line);
        if k >= usize::BITS {
            if k > usize::BITS {
                lemma_pow2_strictly_increases(usize::BITS as nat, k);
            }
        }
    }

    /// Sizes of a line and of a way are positive and fit in the capacity.
    pub proof fn lemma_sizes(self)
        requires
            self.wf(),
        ensures
            self.words_per_line >= 1,
            self.num_lines >= 1,
            self.line_bytes() >= WORD_BYTES,
            self.line_bytes() <= self.way_bytes(),
            self.way_bytes() <= self.bytes,
    {
        lemma_pow2_pos(self.word_bits as nat);
        lemma_pow2_pos(self.index_bits as nat);
        let lb = self.line_bytes();
        let nl = self.num_lines as nat;
        let a = self.assoc as nat;
        assert(lb <= lb * nl) by (nonlinear_arith)
            requires
                nl >= 1,
        ;
        assert(lb * nl <= a * (lb * nl)) by (nonlinear_arith)
            requires
                a >= 1,
        ;
    }

    /// An address lies in the line with this tag and index exactly when its
    /// own tag and index are these.
    pub proof fn lemma_in_line(self, t: int, i: int, x: int)
        requires
            self.wf(),
            0 <= t,
            0 <= i < self.num_lines,
            0 <= x,
        ensures
            (self.line_base(t, i) <= x < self.line_base(t, i) + self.line_bytes()) == (self.tag_of(x)
                == t && self.index_of(x) == i),
    {
        self.lemma_sizes();
        let lb = self.line_bytes() as int;
        let nl = self.num_lines as int;
        let q = t * nl + i;
        assert(self.line_base(t, i) == lb * q) by (nonlinear_arith)
            requires
                self.line_base(t, i) == t * (lb * nl) + i * lb,
                q == t * nl + i,
        ;
        if self.line_base(t, i) <= x < self.line_base(t, i) + lb {
            lemma_fundamental_div_mod_converse(x, lb, q, x - lb * q);
            assert(q * lb == lb * q) by (nonlinear_arith);
            lemma_fundamental_div_mod_converse(q, nl, t, i);
        }
        if self.tag_of(x) == t && self.index_of(x) == i {
            lemma_fundamental_div_mod(self.line_of(x), nl);
            lemma_fundamental_div_mod(x, lb);
            lemma_mod_bound(x, lb);
            assert(nl * t == t * nl) by (nonlinear_arith);
        }
    }

    /// An aligned access of at most eight bytes stays within its line when
    /// lines are a multiple of eight bytes.
    pub proof fn lemma_aligned_in_line(self, a: int, w: int)
        requires
            self.wf(),
            self.line_bytes() % 8 == 0,
            0 <= a,
            w == 1 || w == 2 || w == 4 || w == 8,
            a % w == 0,
        ensures
            self.offset_of(a) + w <= self.line_bytes(),
    {
        self.lemma_sizes();
        let lb = self.line_bytes() as int;
        let k = lb / w;
        lemma_fundamental_div_mod(lb, 8);
        assert(lb == w * k && k >= 1) by (nonlinear_arith)
            requires
                lb == 8 * (lb / 8),
                lb >= 8,
                w == 1 || w == 2 || w == 4 || w == 8,
                k == lb / w,
        ;
        vstd::arithmetic::div_mod::lemma_mod_mod(a, w, k);
        let off = a % lb;
        lemma_mod_bound(a, lb);
        lemma_fundamental_div_mod(off, w);
        let j = off / w;
        assert(off + w <= lb) by (nonlinear_arith)
            requires
                off == w * j + 0,
                off < lb,
                lb == w * k,
                w >= 1,
                off >= 0,
        ;
    }

    /// Every address is the base of its line plus its word and byte offsets,
    /// and the four fields, shifted into place, give the address back.
    pub proof fn lemma_decomposition(self, a: int)
        requires
            self.wf(),
            0 <= a,
        ensures
            self.line_base(self.tag_of(a), self.index_of(a)) == a - self.word_of(a) * WORD_BYTES
                - self.byte_of(a),
            self.tag_of(a) * pow2((self.index_bits + self.word_bits + BYTE_BITS) as nat)
                + self.index_of(a) * pow2((self.word_bits + BYTE_BITS) as nat) + self.word_of(a)
                * pow2(BYTE_BITS as nat) + self.byte_of(a) == a,
            0 <= self.byte_of(a) < WORD_BYTES,
            0 <= self.word_of(a) < self.words_per_line,
            0 <= self.index_of(a) < self.num_lines,
            0 <= self.tag_of(a),
            self.offset_of(a) == self.word_of(a) * WORD_BYTES + self.byte_of(a),
            0 <= self.offset_of(a) < self.line_bytes(),
            self.line_base(self.tag_of(a), self.index_of(a)) == a - self.offset_of(a),
    {
        self.lemma_sizes();
        let lb = self.line_bytes() as int;
        let nl = self.num_lines as int;
        let wpl = self.words_per_line as int;
        let ln = self.line_of(a);
        let tag = self.tag_of(a);
        let idx = self.index_of(a);
        let word = self.word_of(a);
        let byte = self.byte_of(a);
        lemma_fundamental_div_mod(a, lb);
        lemma_mod_breakdown(a, 4, wpl);
        assert(a % lb == 4 * word + byte);
        lemma_fundamental_div_mod(ln, nl);
        lemma_mod_bound(a, 4);
        lemma_mod_bound(a / 4, wpl);
        lemma_mod_bound(ln, nl);
        lemma_mod_bound(a, lb);
        assert(ln >= 0) by {
            vstd::arithmetic::div_mod::lemma_div_pos_is_pos(a, lb);
        }
        vstd::arithmetic::div_mod::lemma_div_pos_is_pos(ln, nl);
        assert(self.line_base(tag, idx) == lb * ln) by (nonlinear_arith)
            requires
                self.line_base(tag, idx) == tag * (lb * nl) + idx * lb,
                ln == nl * tag + idx,
        ;
        lemma_pow2_adds(self.index_bits as nat, (self.word_bits + BYTE_BITS) as nat);
        lemma_pow2_adds(self.word_bits as nat, BYTE_BITS as nat);
        lemma2_to64();
        assert(pow2((self.index_bits + self.word_bits + BYTE_BITS) as nat) == lb * nl) by (
        nonlinear_arith)
            requires
                pow2((self.index_bits + self.word_bits + BYTE_BITS) as nat) == nl * pow2(
                    (self.word_bits + BYTE_BITS) as nat,
                ),
                pow2((self.word_bits + BYTE_BITS) as nat) == wpl * 4,
                lb == 4 * wpl,
        ;
    }
}

/// The mask of the low `n` bits of a word.
pub fn low_mask(n: usize) -> (r: usize)
    requires
        n < usize::BITS,
    ensures
        r == low_bits_mask(n as nat),
        r == pow2(n as nat) - 1,
{
    proof {
        lemma_usize_pow2_no_overflow(n as nat);
        lemma_usize_shl_is_mul(1, n);
    }
    let one: usize = 1;
    (one << n) - 1
}

/// The base-two logarithm of a power of two.
pub fn log2(n: usize) -> (r: usize)
    requires
        is_pow2(n as nat),
    ensures
        pow2(r as nat) == n,
{
    let ghost e: nat = choose|k: nat| pow2(k) == n;
    proof {
        lemma_pow2_exceeds(e);
    }
    let mut m: usize = n;
    let mut k: usize = 0;
    while m > 1
        invariant
            k <= e,
            e < n,
            m == pow2((e - k) as nat),
            pow2(e) == n,
        decreases m,
    {
        proof {
            if e - k == 0 {
                lemma2_to64();
            }
            lemma_pow2_unfold((e - k) as nat);
        }
        m = m / 2;
        k = k + 1;
    }
    proof {
        if e - k > 0 {
            lemma_pow2_strictly_increases(0, (e - k) as nat);
            lemma2_to64();
        }
        lemma2_to64();
    }
    k
}

proof fn lemma_pow2_exceeds(e: nat)
    ensures
        pow2(e) > e,
    decreases e,
{
    if e == 0 {
        lemma2_to64();
    } else {
        lemma_pow2_exceeds((e - 1) as nat);
        lemma_pow2_unfold(e);
    }
}

} // verus!
