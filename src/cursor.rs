//! A positioned byte cursor and big-endian integer reads.
use vstd::prelude::*;
use vstd::arithmetic::div_mod::lemma_breakdown;

verus! {

/// `256` raised to `n`.
pub open spec fn pow256(n: nat) -> nat
    decreases n,
{
    if n == 0 {
        1
    } else {
        256 * pow256((n - 1) as nat)
    }
}

/// The unsigned integer that `s` encodes, most significant byte first.
pub open spec fn be_value(s: Seq<u8>) -> nat
    decreases s.len(),
{
    if s.len() == 0 {
        0
    } else {
        be_value(s.drop_last()) * 256 + s.last() as nat
    }
}

/// The `n` low bytes of `u`, most significant first.
pub open spec fn be_bytes(u: nat, n: nat) -> Seq<u8>
    decreases n,
{
    if n == 0 {
        Seq::empty()
    } else {
        be_bytes(u / 256, (n - 1) as nat).push((u % 256) as u8)
    }
}

/// The signed value of the `n`-byte two's complement word `u`.
pub open spec fn signed_of(u: nat, n: nat) -> int {
    if u < pow256(n) / 2 {
        u as int
    } else {
        u - pow256(n)
    }
}

/// The two's complement word of `v` in `n` bytes.
pub open spec fn unsigned_of(v: int, n: nat) -> nat {
    if v >= 0 {
        v as nat
    } else {
        (v + pow256(n)) as nat
    }
}

/// The 4-byte big-endian encoding of `v`.
pub open spec fn be_i32_bytes(v: i32) -> Seq<u8> {
    be_bytes(unsigned_of(v as int, 4), 4)
}

/// The 8-byte big-endian encoding of `v`.
pub open spec fn be_i64_bytes(v: i64) -> Seq<u8> {
    be_bytes(unsigned_of(v as int, 8), 8)
}

pub proof fn lemma_pow256_facts()
    ensures
        pow256(4) == 0x1_0000_0000,
        pow256(7) == 0x100_0000_0000_0000,
        pow256(8) == 0x1_0000_0000_0000_0000,
{
    reveal_with_fuel(pow256, 9);
}

pub proof fn lemma_be_value_bound(s: Seq<u8>)
    ensures
        be_value(s) < pow256(s.len()),
    decreases s.len(),
{
    if s.len() > 0 {
        lemma_be_value_bound(s.drop_last());
        assert(be_value(s.drop_last()) + 1 <= pow256((s.len() - 1) as nat));
        assert(be_value(s.drop_last()) * 256 + 256 <= pow256((s.len() - 1) as nat) * 256)
            by (nonlinear_arith)
            requires
                be_value(s.drop_last()) + 1 <= pow256((s.len() - 1) as nat),
        ;
    }
}

/// Encoding the low `n` bytes of `u` and reading them back gives `u` modulo `256^n`.
pub proof fn lemma_be_round_trip(u: nat, n: nat)
    ensures
        be_bytes(u, n).len() == n,
        be_value(be_bytes(u, n)) == u % pow256(n),
    decreases n,
{
    if n > 0 {
        lemma_be_round_trip(u / 256, (n - 1) as nat);
        let s = be_bytes(u, n);
        assert(s.drop_last() =~= be_bytes(u / 256, (n - 1) as nat));
        lemma_pow256_positive((n - 1) as nat);
        lemma_breakdown(u as int, 256, pow256((n - 1) as nat) as int);
        assert(256 * pow256((n - 1) as nat) == pow256(n));
    } else {
        assert(u % 1 == 0);
    }
}

/// A byte buffer and a read position within it.
pub struct Cursor {
    data: Vec<u8>,
    pos: usize,
}

impl Cursor {
    /// The bytes not yet consumed.
    pub open spec fn rest(&self) -> Seq<u8> {
        self.spec_data().subrange(self.spec_pos() as int, self.spec_data().len() as int)
    }

    pub closed spec fn spec_data(&self) -> Seq<u8> {
        self.data@
    }

    pub closed spec fn spec_pos(&self) -> nat {
        self.pos as nat
    }

    pub closed spec fn wf(&self) -> bool {
        self.pos <= self.data.len()
    }

    pub fn new(data: Vec<u8>) -> (r: Cursor)
        ensures
            r.wf(),
            r.spec_data() == data@,
            r.spec_pos() == 0,
            r.rest() == data@,
    {
        let r = Cursor { data, pos: 0 };
        assert(r.rest() =~= data@);
        r
    }

    pub fn position(&self) -> (r: usize)
        ensures
            r == self.spec_pos(),
    {
        self.pos
    }

    pub fn remaining(&self) -> (r: usize)
        requires
            self.wf(),
        ensures
            r == self.rest().len(),
    {
        self.data.len() - self.pos
    }

    /// Consumes `n` bytes and returns their big-endian value.
    pub fn read_be(&mut self, n: usize) -> (r: u64)
        requires
            old(self).wf(),
            n <= 8,
            n <= old(self).rest().len(),
        ensures
            final(self).wf(),
            final(self).spec_data() == old(self).spec_data(),
            final(self).spec_pos() == old(self).spec_pos() + n,
            final(self).rest() == old(self).rest().subrange(n as int, old(self).rest().len() as int),
            r as nat == be_value(old(self).rest().subrange(0, n as int)),
    {
        let r = read_be_at(&self.data, self.pos, n);
        self.pos = self.pos + n;
        assert(self.rest() =~= old(self).rest().subrange(n as int, old(self).rest().len() as int));
        assert(old(self).rest().subrange(0, n as int) =~= self.data@.subrange(
            old(self).pos as int,
            old(self).pos + n,
        ));
        r
    }
}

/// The big-endian value of the `n` bytes of `data` from `start`.
pub fn read_be_at(data: &[u8], start: usize, n: usize) -> (r: u64)
    requires
        n <= 8,
        start + n <= data@.len(),
    ensures
        r as nat == be_value(data@.subrange(start as int, start + n)),
{
    let len = data.len();
    let mut acc: u64 = 0;
    let mut i: usize = 0;
    while i < n
        invariant
            len == data@.len(),
            i <= n,
            n <= 8,
            start + n <= data@.len(),
            acc as nat == be_value(data@.subrange(start as int, start + i)),
        decreases n - i,
    {
        let ghost s = data@.subrange(start as int, start + i + 1);
        assert(s.drop_last() =~= data@.subrange(start as int, start + i));
        proof {
            lemma_be_value_bound(data@.subrange(start as int, start + i));
            lemma_pow256_facts();
            lemma_pow256_mono(i as nat, 7);
        }
        assert(start + i < data@.len());
        let b = data[start + i];
        acc = acc * 256 + b as u64;
        i = i + 1;
    }
    acc
}

pub proof fn lemma_pow256_positive(n: nat)
    ensures
        pow256(n) > 0,
    decreases n,
{
    if n > 0 {
        lemma_pow256_positive((n - 1) as nat);
    }
}

pub proof fn lemma_pow256_mono(a: nat, b: nat)
    requires
        a <= b,
    ensures
        pow256(a) <= pow256(b),
    decreases b,
{
    if a < b {
        lemma_pow256_mono(a, (b - 1) as nat);
    }
}

/// The signed 32-bit value of a 4-byte word.
pub fn to_i32(u: u64) -> (r: i32)
    requires
        u < 0x1_0000_0000,
    ensures
        r as int == signed_of(u as nat, 4),
{
    proof {
        lemma_pow256_facts();
    }
    if u < 0x8000_0000 {
        u as i32
    } else {
        ((u - 0x8000_0000) as i32) + i32::MIN
    }
}

/// The signed 64-bit value of an 8-byte word.
pub fn to_i64(u: u64) -> (r: i64)
    ensures
        r as int == signed_of(u as nat, 8),
{
    proof {
        lemma_pow256_facts();
    }
    if u < 0x8000_0000_0000_0000 {
        u as i64
    } else {
        ((u - 0x8000_0000_0000_0000) as i64) + i64::MIN
    }
}

} // verus!
