//! Sparse byte-addressable memory with little-endian multi-byte helpers.
//!
//! The mathematical model of a memory is a total map from every 64-bit
//! address to a byte; addresses that were never written hold zero. Multi-byte
//! accesses are little-endian, decompose into byte operations, and wrap
//! around the end of the address space.

use vstd::prelude::*;
use vstd::arithmetic::div_mod::{
    lemma_breakdown, lemma_div_denominator, lemma_fundamental_div_mod,
    lemma_fundamental_div_mod_converse, lemma_mod_mod, lemma_mod_multiples_vanish,
    lemma_small_mod,
};
use vstd::arithmetic::power::{lemma_pow_positive, pow};
use std::collections::HashMap;

verus! {

broadcast use vstd::std_specs::hash::group_hash_axioms;

pub open spec fn addr_space() -> int {
    0x1_0000_0000_0000_0000
}

/// The address `a + k` in a 64-bit address space that wraps around.
pub open spec fn addr_off(a: u64, k: int) -> u64 {
    ((a + k) % addr_space()) as u64
}

/// The memory in which every address holds zero.
pub open spec fn mem_zero() -> Map<u64, u8> {
    Map::new(|a: u64| true, |a: u64| 0u8)
}

/// The `n` little-endian bytes of the non-negative value `v`.
pub open spec fn le_bytes(v: int, n: nat) -> Seq<u8>
    decreases n,
{
    if n == 0 {
        Seq::empty()
    } else {
        seq![(v % 0x100) as u8] + le_bytes(v / 0x100, (n - 1) as nat)
    }
}

/// The value of a little-endian byte sequence.
pub open spec fn from_le(bs: Seq<u8>) -> int
    decreases bs.len(),
{
    if bs.len() == 0 {
        0
    } else {
        bs[0] + 0x100 * from_le(bs.drop_first())
    }
}

/// The `n` bytes of memory starting at `a`.
pub open spec fn read_bytes(m: Map<u64, u8>, a: u64, n: nat) -> Seq<u8> {
    Seq::new(n, |i: int| m[addr_off(a, i)])
}

/// The memory after the bytes `bs` were written starting at `a`.
pub open spec fn write_bytes(m: Map<u64, u8>, a: u64, bs: Seq<u8>) -> Map<u64, u8>
    decreases bs.len(),
{
    if bs.len() == 0 {
        m
    } else {
        write_bytes(m.insert(a, bs[0]), addr_off(a, 1), bs.drop_first())
    }
}

pub open spec fn read8(m: Map<u64, u8>, a: u64) -> u8 {
    m[a]
}

pub open spec fn read16(m: Map<u64, u8>, a: u64) -> u16 {
    from_le(read_bytes(m, a, 2)) as u16
}

pub open spec fn read32(m: Map<u64, u8>, a: u64) -> u32 {
    from_le(read_bytes(m, a, 4)) as u32
}

pub open spec fn read64(m: Map<u64, u8>, a: u64) -> u64 {
    from_le(read_bytes(m, a, 8)) as u64
}

pub open spec fn read128(m: Map<u64, u8>, a: u64) -> u128 {
    from_le(read_bytes(m, a, 16)) as u128
}

pub open spec fn write8(m: Map<u64, u8>, a: u64, v: u8) -> Map<u64, u8> {
    m.insert(a, v)
}

pub open spec fn write16(m: Map<u64, u8>, a: u64, v: u16) -> Map<u64, u8> {
    write_bytes(m, a, le_bytes(v as int, 2))
}

pub open spec fn write32(m: Map<u64, u8>, a: u64, v: u32) -> Map<u64, u8> {
    write_bytes(m, a, le_bytes(v as int, 4))
}

pub open spec fn write64(m: Map<u64, u8>, a: u64, v: u64) -> Map<u64, u8> {
    write_bytes(m, a, le_bytes(v as int, 8))
}

pub open spec fn write128(m: Map<u64, u8>, a: u64, v: u128) -> Map<u64, u8> {
    write_bytes(m, a, le_bytes(v as int, 16))
}

/// Address `x` lies in the window of `n` bytes starting at `a`.
pub open spec fn in_window(a: u64, n: nat, x: u64) -> bool {
    exists|i: int| 0 <= i < n && x == addr_off(a, i)
}

/// A wrapped offset is what `u64::wrapping_add` computes.
pub proof fn lemma_addr_off_is_wrapping(a: u64, k: u64)
    ensures
        addr_off(a, k as int) == vstd::wrapping::u64_specs::wrapping_add(a, k),
{
    if a + k <= u64::MAX {
        lemma_small_mod((a + k) as nat, addr_space() as nat);
    } else {
        lemma_mod_multiples_vanish(1, a + k - addr_space(), addr_space());
        lemma_small_mod((a + k - addr_space()) as nat, addr_space() as nat);
    }
}

pub proof fn lemma_addr_off_add(a: u64, i: int, j: int)
    requires
        0 <= i,
        0 <= j < addr_space(),
    ensures
        addr_off(addr_off(a, i), j) == addr_off(a, i + j),
{
    let b = addr_off(a, i);
    lemma_fundamental_div_mod(a + i, addr_space());
    let q = (a + i) / addr_space();
    assert(a + i == addr_space() * q + b);
    lemma_mod_multiples_vanish(q, b + j, addr_space());
    assert((addr_space() * q + (b + j)) % addr_space() == (b + j) % addr_space());
    assert(a + i + j == addr_space() * q + (b + j));
}

pub proof fn lemma_addr_off_distinct(a: u64, i: int, j: int)
    requires
        0 <= i < j < addr_space(),
    ensures
        addr_off(a, i) != addr_off(a, j),
{
    let r = addr_space();
    let x = a + i;
    let y = a + j;
    lemma_fundamental_div_mod(x, r);
    lemma_fundamental_div_mod(y, r);
    if addr_off(a, i) == addr_off(a, j) {
        let d = y / r - x / r;
        vstd::arithmetic::mul::lemma_mul_is_distributive_sub(r, y / r, x / r);
        assert(r * d == j - i);
        assert(0 < j - i < r);
        vstd::arithmetic::mul::lemma_mul_inequality(1, d, r);
        vstd::arithmetic::mul::lemma_mul_inequality(d, 0, r);
        assert(false);
    }
}

/// Outside the window of a write, the memory is unchanged.
pub proof fn lemma_write_bytes_frame(m: Map<u64, u8>, a: u64, bs: Seq<u8>, x: u64)
    requires
        bs.len() <= 16,
        !in_window(a, bs.len(), x),
    ensures
        write_bytes(m, a, bs).dom().contains(x) == m.dom().contains(x),
        m.dom().contains(x) ==> write_bytes(m, a, bs)[x] == m[x],
    decreases bs.len(),
{
    if bs.len() > 0 {
        let m1 = m.insert(a, bs[0]);
        let a1 = addr_off(a, 1);
        let rest = bs.drop_first();
        lemma_small_mod(a as nat, addr_space() as nat);
        assert(x != a) by {
            if x == a {
                assert(a == addr_off(a, 0));
                assert(in_window(a, bs.len(), x));
            }
        }
        assert(!in_window(a1, rest.len(), x)) by {
            if in_window(a1, rest.len(), x) {
                let i = choose|i: int| 0 <= i < rest.len() && x == addr_off(a1, i);
                lemma_addr_off_add(a, 1, i);
                assert(x == addr_off(a, 1 + i));
                assert(in_window(a, bs.len(), x));
            }
        }
        lemma_write_bytes_frame(m1, a1, rest, x);
    }
}

/// Inside the window of a write, the memory holds the written bytes.
pub proof fn lemma_write_bytes_at(m: Map<u64, u8>, a: u64, bs: Seq<u8>, i: int)
    requires
        bs.len() <= 16,
        0 <= i < bs.len(),
    ensures
        write_bytes(m, a, bs).dom().contains(addr_off(a, i)),
        write_bytes(m, a, bs)[addr_off(a, i)] == bs[i],
    decreases bs.len(),
{
    let m1 = m.insert(a, bs[0]);
    let a1 = addr_off(a, 1);
    let rest = bs.drop_first();
    lemma_small_mod(a as nat, addr_space() as nat);
    assert(addr_off(a, 0) == a);
    if i == 0 {
        assert(!in_window(a1, rest.len(), a)) by {
            if in_window(a1, rest.len(), a) {
                let j = choose|j: int| 0 <= j < rest.len() && a == addr_off(a1, j);
                lemma_addr_off_add(a, 1, j);
                lemma_addr_off_distinct(a, 0, 1 + j);
            }
        }
        lemma_write_bytes_frame(m1, a1, rest, a);
    } else {
        lemma_write_bytes_at(m1, a1, rest, i - 1);
        lemma_addr_off_add(a, 1, i - 1);
    }
}

/// Writing back what a window held restores the memory.
pub proof fn lemma_write_bytes_undo(m: Map<u64, u8>, a: u64, bs: Seq<u8>)
    requires
        bs.len() <= 16,
        m.dom() == Set::<u64>::full(),
    ensures
        write_bytes(write_bytes(m, a, bs), a, read_bytes(m, a, bs.len())) == m,
{
    let n = bs.len();
    let m1 = write_bytes(m, a, bs);
    let rb = read_bytes(m, a, n);
    let m2 = write_bytes(m1, a, rb);
    assert forall|x: u64| #[trigger] m2.dom().contains(x) <==> m.dom().contains(x) by {
        if in_window(a, n, x) {
            let i = choose|i: int| 0 <= i < n && x == addr_off(a, i);
            lemma_write_bytes_at(m1, a, rb, i);
        } else {
            lemma_write_bytes_frame(m, a, bs, x);
            lemma_write_bytes_frame(m1, a, rb, x);
        }
    }
    assert forall|x: u64| m.dom().contains(x) implies #[trigger] m2[x] == m[x] by {
        if in_window(a, n, x) {
            let i = choose|i: int| 0 <= i < n && x == addr_off(a, i);
            lemma_write_bytes_at(m1, a, rb, i);
            assert(m2[addr_off(a, i)] == rb[i]);
        } else {
            lemma_write_bytes_frame(m, a, bs, x);
            lemma_write_bytes_frame(m1, a, rb, x);
        }
    }
    assert(m2 =~= m);
}

pub proof fn lemma_write_bytes_append(m: Map<u64, u8>, a: u64, bs1: Seq<u8>, bs2: Seq<u8>)
    requires
        bs1.len() + bs2.len() < addr_space(),
    ensures
        write_bytes(m, a, bs1 + bs2) == write_bytes(
            write_bytes(m, a, bs1),
            addr_off(a, bs1.len() as int),
            bs2,
        ),
    decreases bs1.len(),
{
    if bs1.len() == 0 {
        assert(bs1 + bs2 =~= bs2);
        lemma_small_mod(a as nat, addr_space() as nat);
        assert(addr_off(a, 0) == a);
    } else {
        let m1 = m.insert(a, bs1[0]);
        let a1 = addr_off(a, 1);
        assert((bs1 + bs2).drop_first() =~= bs1.drop_first() + bs2);
        lemma_write_bytes_append(m1, a1, bs1.drop_first(), bs2);
        lemma_addr_off_add(a, 1, bs1.len() - 1);
    }
}

pub proof fn lemma_read_bytes_split(m: Map<u64, u8>, a: u64, n: nat, k: nat)
    requires
        n + k < addr_space(),
    ensures
        read_bytes(m, a, n + k) == read_bytes(m, a, n) + read_bytes(m, addr_off(a, n as int), k),
{
    assert forall|i: int| 0 <= i < k implies m[addr_off(addr_off(a, n as int), i)] == m[addr_off(
        a,
        n + i,
    )] by {
        lemma_addr_off_add(a, n as int, i);
    }
    assert(read_bytes(m, a, n + k) =~= read_bytes(m, a, n) + read_bytes(
        m,
        addr_off(a, n as int),
        k,
    ));
}

pub proof fn lemma_le_bytes_split(v: int, n: nat, k: nat)
    requires
        0 <= v,
    ensures
        le_bytes(v, n + k) == le_bytes(v % pow(0x100, n), n) + le_bytes(v / pow(0x100, n), k),
    decreases n,
{
    reveal(pow);
    lemma_pow_positive(0x100, n);
    if n == 0 {
        lemma_small_mod(0, 1);
        assert(v % 1 == 0) by {
            lemma_fundamental_div_mod_converse(v, 1, v, 0);
        }
        assert(le_bytes(0, 0) + le_bytes(v, k) =~= le_bytes(v, k));
        assert(v / 1 == v) by {
            lemma_fundamental_div_mod_converse(v, 1, v, 0);
        }
    } else {
        let p: int = pow(0x100, (n - 1) as nat);
        lemma_pow_positive(0x100, (n - 1) as nat);
        assert(pow(0x100, n) == 0x100 * p);
        lemma_le_bytes_split(v / 0x100, (n - 1) as nat, k);
        // digits of v % (0x100 * p)
        lemma_mod_mod(v, 0x100, p);
        lemma_breakdown(v, 0x100, p);
        assert(v % (0x100 * p) == 0x100 * ((v / 0x100) % p) + v % 0x100);
        assert((v % (0x100 * p)) / 0x100 == (v / 0x100) % p) by {
            lemma_fundamental_div_mod_converse(
                v % (0x100 * p),
                0x100,
                (v / 0x100) % p,
                v % 0x100,
            );
        }
        lemma_div_denominator(v, 0x100, p);
        assert((v / 0x100) / p == v / (0x100 * p));
        assert(le_bytes(v, n + k) =~= le_bytes(v % pow(0x100, n), n) + le_bytes(
            v / pow(0x100, n),
            k,
        ));
    }
}

pub proof fn lemma_from_le_append(bs1: Seq<u8>, bs2: Seq<u8>)
    ensures
        from_le(bs1 + bs2) == from_le(bs1) + pow(0x100, bs1.len()) * from_le(bs2),
    decreases bs1.len(),
{
    reveal(pow);
    if bs1.len() == 0 {
        assert(bs1 + bs2 =~= bs2);
        assert(from_le(bs1) == 0);
        assert(pow(0x100, 0) == 1);
    } else {
        assert((bs1 + bs2).drop_first() =~= bs1.drop_first() + bs2);
        lemma_from_le_append(bs1.drop_first(), bs2);
        let p: int = pow(0x100, (bs1.len() - 1) as nat);
        assert(pow(0x100, bs1.len()) == 0x100 * p);
        assert(0x100 * (from_le(bs1.drop_first()) + p * from_le(bs2)) == 0x100 * from_le(
            bs1.drop_first(),
        ) + (0x100 * p) * from_le(bs2)) by (nonlinear_arith);
    }
}

pub proof fn lemma_from_le_bound(bs: Seq<u8>)
    ensures
        0 <= from_le(bs) < pow(0x100, bs.len()),
    decreases bs.len(),
{
    reveal(pow);
    lemma_pow_positive(0x100, bs.len());
    if bs.len() == 0 {
    } else {
        lemma_from_le_bound(bs.drop_first());
        let p: int = pow(0x100, (bs.len() - 1) as nat);
        assert(pow(0x100, bs.len()) == 0x100 * p);
        assert(from_le(bs.drop_first()) <= p - 1 ==> 0x100 * from_le(bs.drop_first()) <= 0x100 * (p
            - 1)) by (nonlinear_arith);
    }
}

pub proof fn lemma_pow256_values()
    ensures
        pow(0x100, 1) == 0x100,
        pow(0x100, 2) == 0x1_0000,
        pow(0x100, 4) == 0x1_0000_0000,
        pow(0x100, 8) == 0x1_0000_0000_0000_0000,
        pow(0x100, 16) == 0x1_0000_0000_0000_0000_0000_0000_0000_0000,
{
    reveal(pow);
    assert(pow(0x100, 1) == 0x100 * pow(0x100, 0));
    assert(pow(0x100, 2) == 0x100 * pow(0x100, 1));
    assert(pow(0x100, 3) == 0x100 * pow(0x100, 2));
    assert(pow(0x100, 4) == 0x100 * pow(0x100, 3));
    assert(pow(0x100, 5) == 0x100 * pow(0x100, 4));
    assert(pow(0x100, 6) == 0x100 * pow(0x100, 5));
    assert(pow(0x100, 7) == 0x100 * pow(0x100, 6));
    assert(pow(0x100, 8) == 0x100 * pow(0x100, 7));
    assert(pow(0x100, 9) == 0x100 * pow(0x100, 8));
    assert(pow(0x100, 10) == 0x100 * pow(0x100, 9));
    assert(pow(0x100, 11) == 0x100 * pow(0x100, 10));
    assert(pow(0x100, 12) == 0x100 * pow(0x100, 11));
    assert(pow(0x100, 13) == 0x100 * pow(0x100, 12));
    assert(pow(0x100, 14) == 0x100 * pow(0x100, 13));
    assert(pow(0x100, 15) == 0x100 * pow(0x100, 14));
    assert(pow(0x100, 16) == 0x100 * pow(0x100, 15));
}

/// A double-width read is the low half plus the high half scaled, and a
/// double-width write is the two half writes.
pub proof fn lemma_split_read(m: Map<u64, u8>, a: u64, n: nat)
    requires
        0 < n <= 8,
    ensures
        from_le(read_bytes(m, a, 2 * n)) == from_le(read_bytes(m, a, n)) + pow(0x100, n)
            * from_le(read_bytes(m, addr_off(a, n as int), n)),
{
    lemma_read_bytes_split(m, a, n, n);
    lemma_from_le_append(read_bytes(m, a, n), read_bytes(m, addr_off(a, n as int), n));
}

pub proof fn lemma_split_write(m: Map<u64, u8>, a: u64, v: int, n: nat)
    requires
        0 < n <= 8,
        0 <= v < pow(0x100, 2 * n),
    ensures
        write_bytes(m, a, le_bytes(v, 2 * n)) == write_bytes(
            write_bytes(m, a, le_bytes(v % pow(0x100, n), n)),
            addr_off(a, n as int),
            le_bytes(v / pow(0x100, n), n),
        ),
{
    lemma_le_bytes_split(v, n, n);
    lemma_le_bytes_len(v % pow(0x100, n), n);
    lemma_le_bytes_len(v / pow(0x100, n), n);
    lemma_write_bytes_append(
        m,
        a,
        le_bytes(v % pow(0x100, n), n),
        le_bytes(v / pow(0x100, n), n),
    );
}

pub proof fn lemma_le_bytes_len(v: int, n: nat)
    ensures
        le_bytes(v, n).len() == n,
    decreases n,
{
    if n > 0 {
        lemma_le_bytes_len(v / 0x100, (n - 1) as nat);
    }
}

pub proof fn lemma_write_bytes_one(m: Map<u64, u8>, a: u64, b: u8)
    ensures
        write_bytes(m, a, seq![b]) == m.insert(a, b),
{
    assert(seq![b].drop_first() =~= Seq::<u8>::empty());
    assert(write_bytes(m.insert(a, b), addr_off(a, 1), Seq::<u8>::empty()) == m.insert(a, b));
}

pub proof fn lemma_read_one(m: Map<u64, u8>, a: u64)
    ensures
        from_le(read_bytes(m, a, 1)) == m[a],
{
    let s = read_bytes(m, a, 1);
    assert(s.drop_first().len() == 0);
    assert(from_le(s.drop_first()) == 0);
    lemma_small_mod(a as nat, addr_space() as nat);
    assert(s[0] == m[a]);
}


/// Writing keeps a total domain total.
pub proof fn lemma_write_bytes_dom_full(m: Map<u64, u8>, a: u64, bs: Seq<u8>)
    requires
        bs.len() <= 16,
        m.dom() == Set::<u64>::full(),
    ensures
        write_bytes(m, a, bs).dom() == Set::<u64>::full(),
{
    assert forall|x: u64| #[trigger] write_bytes(m, a, bs).dom().contains(x) by {
        if in_window(a, bs.len(), x) {
            let i = choose|i: int| 0 <= i < bs.len() && x == addr_off(a, i);
            lemma_write_bytes_at(m, a, bs, i);
        } else {
            lemma_write_bytes_frame(m, a, bs, x);
        }
    }
    assert(write_bytes(m, a, bs).dom() =~= Set::<u64>::full());
}

/// Rebuilding the bytes of a value read back gives the same bytes.
pub proof fn lemma_le_from_le(bs: Seq<u8>)
    ensures
        le_bytes(from_le(bs), bs.len()) == bs,
    decreases bs.len(),
{
    if bs.len() == 0 {
        assert(le_bytes(from_le(bs), 0) =~= bs);
    } else {
        let v = from_le(bs);
        lemma_from_le_bound(bs.drop_first());
        lemma_fundamental_div_mod_converse(v, 0x100, from_le(bs.drop_first()), bs[0] as int);
        lemma_le_from_le(bs.drop_first());
        assert(le_bytes(v, bs.len()) =~= bs);
    }
}

/// A memory object: reads and writes of 8 to 128 bits, little-endian,
/// against a total byte map as the model.
pub trait Memory: Sized {
    spec fn mview(&self) -> Map<u64, u8>;

    fn r8(&mut self, addr: u64) -> (r: u8)
        ensures
            final(self).mview() == old(self).mview(),
            r == read8(old(self).mview(), addr),
    ;

    fn r16(&mut self, addr: u64) -> (r: u16)
        ensures
            final(self).mview() == old(self).mview(),
            r == read16(old(self).mview(), addr),
    ;

    fn r32(&mut self, addr: u64) -> (r: u32)
        ensures
            final(self).mview() == old(self).mview(),
            r == read32(old(self).mview(), addr),
    ;

    fn r64(&mut self, addr: u64) -> (r: u64)
        ensures
            final(self).mview() == old(self).mview(),
            r == read64(old(self).mview(), addr),
    ;

    fn r128(&mut self, addr: u64) -> (r: u128)
        ensures
            final(self).mview() == old(self).mview(),
            r == read128(old(self).mview(), addr),
    ;

    fn w8(&mut self, addr: u64, val: u8)
        ensures
            final(self).mview() == write8(old(self).mview(), addr, val),
    ;

    fn w16(&mut self, addr: u64, val: u16)
        ensures
            final(self).mview() == write16(old(self).mview(), addr, val),
    ;

    fn w32(&mut self, addr: u64, val: u32)
        ensures
            final(self).mview() == write32(old(self).mview(), addr, val),
    ;

    fn w64(&mut self, addr: u64, val: u64)
        ensures
            final(self).mview() == write64(old(self).mview(), addr, val),
    ;

    fn w128(&mut self, addr: u64, val: u128)
        ensures
            final(self).mview() == write128(old(self).mview(), addr, val),
    ;
}

/// Sparse memory backed by a hash map holding only the bytes that were
/// written. Its view is the total byte map: unset addresses read as zero.
pub struct SimpleMemory {
    bytes: HashMap<u64, u8>,
}

impl View for SimpleMemory {
    type V = Map<u64, u8>;

    closed spec fn view(&self) -> Map<u64, u8> {
        Map::new(
            |a: u64| true,
            |a: u64| if self.bytes@.dom().contains(a) { self.bytes@[a] } else { 0u8 },
        )
    }
}

/// The domain of a `SimpleMemory`'s view is the full address space.
pub broadcast proof fn lemma_simple_memory_dom(m: &SimpleMemory)
    ensures
        #[trigger] m@.dom() == Set::<u64>::full(),
{
    assert(m@.dom() =~= Set::<u64>::full());
}

impl Clone for SimpleMemory {
    fn clone(&self) -> (r: Self)
        ensures
            r@ == self@,
    {
        let r = SimpleMemory { bytes: self.bytes.clone() };
        proof {
            assert(r@ =~= self@);
        }
        r
    }
}

impl SimpleMemory {
    pub fn new() -> (r: Self)
        ensures
            r@ == mem_zero(),
    {
        let r = SimpleMemory { bytes: HashMap::new() };
        proof {
            assert(r@ =~= mem_zero());
        }
        r
    }

    /// Read one byte without mutable access.
    pub fn peek8(&self, addr: u64) -> (r: u8)
        ensures
            r == read8(self@, addr),
    {
        match self.bytes.get(&addr) {
            Some(b) => *b,
            None => 0,
        }
    }
}

impl Memory for SimpleMemory {
    open spec fn mview(&self) -> Map<u64, u8> {
        self@
    }

    fn r8(&mut self, addr: u64) -> (r: u8) {
        self.peek8(addr)
    }

    fn r16(&mut self, addr: u64) -> (r: u16) {
        proof {
            lemma_addr_off_is_wrapping(addr, 1);
            lemma_split_read(self@, addr, 1);
            lemma_pow256_values();
            lemma_from_le_bound(read_bytes(self@, addr, 2));
            lemma_read_one(self@, addr);
            lemma_read_one(self@, addr_off(addr, 1));
        }
        let lo = self.r8(addr);
        let hi = self.r8(addr.wrapping_add(1));
        lo as u16 + hi as u16 * 0x100
    }

    fn r32(&mut self, addr: u64) -> (r: u32) {
        proof {
            lemma_addr_off_is_wrapping(addr, 2);
            lemma_split_read(self@, addr, 2);
            lemma_pow256_values();
            lemma_from_le_bound(read_bytes(self@, addr, 4));
            lemma_from_le_bound(read_bytes(self@, addr, 2));
            lemma_from_le_bound(read_bytes(self@, addr_off(addr, 2), 2));
        }
        let lo = self.r16(addr);
        let hi = self.r16(addr.wrapping_add(2));
        lo as u32 + hi as u32 * 0x1_0000
    }

    fn r64(&mut self, addr: u64) -> (r: u64) {
        proof {
            lemma_addr_off_is_wrapping(addr, 4);
            lemma_split_read(self@, addr, 4);
            lemma_pow256_values();
            lemma_from_le_bound(read_bytes(self@, addr, 8));
            lemma_from_le_bound(read_bytes(self@, addr, 4));
            lemma_from_le_bound(read_bytes(self@, addr_off(addr, 4), 4));
        }
        let lo = self.r32(addr);
        let hi = self.r32(addr.wrapping_add(4));
        lo as u64 + hi as u64 * 0x1_0000_0000
    }

    fn r128(&mut self, addr: u64) -> (r: u128) {
        proof {
            lemma_addr_off_is_wrapping(addr, 8);
            lemma_split_read(self@, addr, 8);
            lemma_pow256_values();
            lemma_from_le_bound(read_bytes(self@, addr, 16));
            lemma_from_le_bound(read_bytes(self@, addr, 8));
            lemma_from_le_bound(read_bytes(self@, addr_off(addr, 8), 8));
        }
        let lo = self.r64(addr);
        let hi = self.r64(addr.wrapping_add(8));
        lo as u128 + hi as u128 * 0x1_0000_0000_0000_0000
    }

    fn w8(&mut self, addr: u64, val: u8) {
        let ghost pre = self@;
        self.bytes.insert(addr, val);
        proof {
            assert(self@ =~= write8(pre, addr, val));
        }
    }

    fn w16(&mut self, addr: u64, val: u16) {
        proof {
            lemma_addr_off_is_wrapping(addr, 1);
        }
        let ghost pre = self@;
        self.w8(addr, (val % 0x100) as u8);
        self.w8(addr.wrapping_add(1), (val / 0x100) as u8);
        proof {
            lemma_small_mod((val as int / 0x100) as nat, 0x100 as nat);
            assert(le_bytes(val as int / 0x100 / 0x100, 0) =~= Seq::<u8>::empty());
            assert(le_bytes(val as int / 0x100, 1) =~= seq![(val / 0x100) as u8]);
            assert(le_bytes(val as int, 2) =~= seq![(val % 0x100) as u8]
                + seq![(val / 0x100) as u8]);
            lemma_write_bytes_append(
                pre,
                addr,
                seq![(val % 0x100) as u8],
                seq![(val / 0x100) as u8],
            );
            lemma_write_bytes_one(pre, addr, (val % 0x100) as u8);
            lemma_write_bytes_one(
                write8(pre, addr, (val % 0x100) as u8),
                addr_off(addr, 1),
                (val / 0x100) as u8,
            );
        }
    }

    fn w32(&mut self, addr: u64, val: u32) {
        proof {
            lemma_addr_off_is_wrapping(addr, 2);
            lemma_pow256_values();
            lemma_split_write(self@, addr, val as int, 2);
        }
        self.w16(addr, (val % 0x1_0000) as u16);
        self.w16(addr.wrapping_add(2), (val / 0x1_0000) as u16);
    }

    fn w64(&mut self, addr: u64, val: u64) {
        proof {
            lemma_addr_off_is_wrapping(addr, 4);
            lemma_pow256_values();
            lemma_split_write(self@, addr, val as int, 4);
        }
        self.w32(addr, (val % 0x1_0000_0000) as u32);
        self.w32(addr.wrapping_add(4), (val / 0x1_0000_0000) as u32);
    }

    fn w128(&mut self, addr: u64, val: u128) {
        proof {
            lemma_addr_off_is_wrapping(addr, 8);
            lemma_pow256_values();
            lemma_split_write(self@, addr, val as int, 8);
        }
        self.w64(addr, (val % 0x1_0000_0000_0000_0000) as u64);
        self.w64(addr.wrapping_add(8), (val / 0x1_0000_0000_0000_0000) as u64);
    }
}

} // verus!
