//! Little-endian byte encodings: the specification of what a run of bytes
//! means as an integer, and executable readers and writers proved against it.

use vstd::prelude::*;
use vstd::arithmetic::div_mod::{lemma_div_denominator, lemma_mod_breakdown};

verus! {

broadcast use vstd::std_specs::vec::axiom_spec_len;

/// `256^n`.
pub open spec fn pow256(n: nat) -> nat
    decreases n,
{
    if n == 0 {
        1
    } else {
        256 * pow256((n - 1) as nat)
    }
}

/// The integer encoded little-endian by the `n` bytes of `bs` starting at
/// `off`.
pub open spec fn le_at(bs: Seq<u8>, off: int, n: nat) -> nat
    decreases n,
{
    if n == 0 {
        0
    } else {
        (bs[off] + 256 * le_at(bs, off + 1, (n - 1) as nat)) as nat
    }
}

/// The values of `pow256` the executable readers and writers care about.
pub proof fn lemma_pow256_values()
    ensures
        pow256(1) == 0x100,
        pow256(2) == 0x1_0000,
        pow256(3) == 0x100_0000,
        pow256(4) == 0x1_0000_0000,
        pow256(5) == 0x100_0000_0000,
        pow256(6) == 0x1_0000_0000_0000,
        pow256(7) == 0x100_0000_0000_0000,
        pow256(8) == 0x1_0000_0000_0000_0000,
        pow256(16) == 0x1_0000_0000_0000_0000_0000_0000_0000_0000,
{
    assert(pow256(0) == 1);
    assert(pow256(1) == 0x100);
    assert(pow256(2) == 0x1_0000);
    assert(pow256(3) == 0x100_0000);
    assert(pow256(4) == 0x1_0000_0000);
    assert(pow256(5) == 0x100_0000_0000);
    assert(pow256(6) == 0x1_0000_0000_0000);
    assert(pow256(7) == 0x100_0000_0000_0000);
    assert(pow256(8) == 0x1_0000_0000_0000_0000);
    assert(pow256(9) == 0x100_0000_0000_0000_0000);
    assert(pow256(10) == 0x1_0000_0000_0000_0000_0000);
    assert(pow256(11) == 0x100_0000_0000_0000_0000_0000);
    assert(pow256(12) == 0x1_0000_0000_0000_0000_0000_0000);
    assert(pow256(13) == 0x100_0000_0000_0000_0000_0000_0000);
    assert(pow256(14) == 0x1_0000_0000_0000_0000_0000_0000_0000);
    assert(pow256(15) == 0x100_0000_0000_0000_0000_0000_0000_0000);
    assert(pow256(16) == 0x1_0000_0000_0000_0000_0000_0000_0000_0000);
}

/// A little-endian value of `n` bytes is below `256^n`.
pub proof fn lemma_le_at_bound(bs: Seq<u8>, off: int, n: nat)
    requires
        forall|k: int| off <= k < off + n ==> 0 <= #[trigger] bs[k] < 256,
    ensures
        le_at(bs, off, n) < pow256(n),
    decreases n,
{
    if n > 0 {
        lemma_le_at_bound(bs, off + 1, (n - 1) as nat);
    }
}

/// `le_at` only looks at the bytes it covers.
pub proof fn lemma_le_at_agrees(bs1: Seq<u8>, bs2: Seq<u8>, off: int, n: nat)
    requires
        forall|k: int| off <= k < off + n ==> bs1[k] == bs2[k],
    ensures
        le_at(bs1, off, n) == le_at(bs2, off, n),
    decreases n,
{
    if n > 0 {
        assert(bs1[off] == bs2[off]);
        lemma_le_at_agrees(bs1, bs2, off + 1, (n - 1) as nat);
    }
}

/// Splitting a little-endian run: the low `m` bytes plus the high `n` bytes
/// scaled by `256^m`.
pub proof fn lemma_le_at_split(bs: Seq<u8>, off: int, m: nat, n: nat)
    ensures
        le_at(bs, off, m + n) == le_at(bs, off, m) + pow256(m) * le_at(bs, off + m, n),
    decreases m,
{
    if m == 0 {
        assert(pow256(0) == 1);
        assert(1 * le_at(bs, off, n) == le_at(bs, off, n));
    } else {
        lemma_le_at_split(bs, off + 1, (m - 1) as nat, n);
        assert(le_at(bs, off, m + n) == bs[off] + 256 * le_at(bs, off + 1, ((m + n) - 1) as nat));
        assert(le_at(bs, off + 1, ((m - 1) + n) as nat) == le_at(bs, off + 1, (m - 1) as nat)
            + pow256((m - 1) as nat) * le_at(bs, off + m, n));
        let hi = le_at(bs, off + m, n);
        let p = pow256((m - 1) as nat);
        assert(256 * (le_at(bs, off + 1, (m - 1) as nat) + p * hi) == 256 * le_at(
            bs,
            off + 1,
            (m - 1) as nat,
        ) + 256 * (p * hi)) by (nonlinear_arith);
        assert(256 * (p * hi) == (256 * p) * hi) by (nonlinear_arith);
    }
}

/// Read the `n`-byte little-endian integer at `buf[off..off + n]`.
pub fn read_le(buf: &Vec<u8>, off: usize, n: usize) -> (r: u64)
    requires
        n <= 8,
        off + n <= buf@.len(),
    ensures
        r == le_at(buf@, off as int, n as nat),
{
    proof {
        lemma_pow256_values();
        assert(buf.len() == buf@.len());
    }
    let mut r: u64 = 0;
    let mut i: usize = n;
    while i > 0
        invariant
            i <= n <= 8,
            off + n <= buf@.len(),
            buf@.len() <= usize::MAX,
            r == le_at(buf@, off + i, (n - i) as nat),
            r < pow256((n - i) as nat),
            pow256(8) == 0x1_0000_0000_0000_0000,
        decreases i,
    {
        i = i - 1;
        proof {
            lemma_le_at_bound(buf@, off + i, (n - i) as nat);
            lemma_pow256_mono((n - i) as nat, 8);
        }
        r = buf[off + i] as u64 + 256 * r;
    }
    r
}

/// `pow256` is monotone in its exponent.
pub proof fn lemma_pow256_mono(m: nat, n: nat)
    requires
        m <= n,
    ensures
        pow256(m) <= pow256(n),
    decreases n,
{
    if m < n {
        lemma_pow256_mono(m, (n - 1) as nat);
        assert(pow256((n - 1) as nat) <= 256 * pow256((n - 1) as nat)) by (nonlinear_arith)
            requires
                pow256((n - 1) as nat) >= 0,
        ;
    }
}

/// `pow256` is positive.
pub proof fn lemma_pow256_pos(n: nat)
    ensures
        pow256(n) >= 1,
    decreases n,
{
    if n > 0 {
        lemma_pow256_pos((n - 1) as nat);
    }
}

/// Append the `n`-byte little-endian encoding of `val` to `out`.
pub fn push_le(out: &mut Vec<u8>, val: u64, n: usize)
    requires
        n <= 8,
        val < pow256(n as nat),
    ensures
        final(out)@.len() == old(out)@.len() + n,
        forall|k: int|
            0 <= k < old(out)@.len() ==> final(out)@[k] == old(out)@[k],
        le_at(final(out)@, old(out)@.len() as int, n as nat) == val,
{
    let ghost base = out@.len() as int;
    let ghost v0 = val as nat;
    proof {
        assert(pow256(0) == 1);
        assert(v0 / 1 == v0);
        assert(v0 % 1 == 0);
        assert(le_at(out@, base, 0) == 0);
    }
    let mut cur: u64 = val;
    let mut i: usize = 0;
    while i < n
        invariant
            0 <= base,
            i <= n <= 8,
            out@.len() == base + i,
            forall|k: int| 0 <= k < base ==> out@[k] == old(out)@[k],
            cur == v0 / pow256(i as nat),
            le_at(out@, base, i as nat) == v0 % pow256(i as nat),
            v0 < pow256(n as nat),
        decreases n - i,
    {
        let b: u8 = (cur % 256) as u8;
        let ghost pre = out@;
        out.push(b);
        proof {
            lemma_pow256_pos(i as nat);
            assert(out@ == pre.push(b));
            assert forall|k: int| base <= k < base + i implies pre[k] == out@[k] by {
                assert(pre.push(b)[k] == pre[k]);
                assert(out@[k] == pre.push(b)[k]);
            }
            lemma_le_at_agrees(pre, out@, base, i as nat);
            lemma_le_at_split(out@, base, i as nat, 1);
            assert(out@[base + i] == pre.push(b)[base + i]);
            assert(out@[base + i] == b);
            assert(le_at(out@, base + i + 1, 0) == 0);
            assert(le_at(out@, base + i, 1) == b);
            // v0 % pow256(i + 1) == v0 % pow256(i) + pow256(i) * ((v0 / pow256(i)) % 256)
            lemma_mod_breakdown(v0 as int, pow256(i as nat) as int, 256);
            assert(pow256(i as nat) * 256 == 256 * pow256(i as nat)) by (nonlinear_arith);
            assert(pow256((i + 1) as nat) == 256 * pow256(i as nat));
            lemma_div_denominator(v0 as int, pow256(i as nat) as int, 256);
        }
        cur = cur / 256;
        i = i + 1;
    }
    proof {
        lemma_le_at_bound(out@, base, n as nat);
        vstd::arithmetic::div_mod::lemma_small_mod(v0, pow256(n as nat));
    }
}

/// A value that guest memory can be read into and written from, through its
/// little-endian byte encoding.
pub trait Primitive: Sized {
    /// Width of the encoding in bytes.
    spec fn spec_size() -> nat;

    /// The value as a mathematical integer.
    spec fn as_nat(self) -> nat;

    /// Width of the encoding in bytes.
    fn size() -> (n: usize)
        ensures
            n == Self::spec_size(),
            1 <= n <= 16;

    /// Every value fits in its encoding.
    proof fn lemma_bound(self)
        ensures
            self.as_nat() < pow256(Self::spec_size());

    /// Decode a value from its little-endian encoding.
    fn from_le(buf: &Vec<u8>) -> (r: Self)
        requires
            buf@.len() == Self::spec_size(),
        ensures
            r.as_nat() == le_at(buf@, 0, Self::spec_size());

    /// Encode the value little-endian.
    fn to_le(&self) -> (v: Vec<u8>)
        ensures
            v@.len() == Self::spec_size(),
            le_at(v@, 0, Self::spec_size()) == self.as_nat();
}

impl Primitive for u8 {
    open spec fn spec_size() -> nat {
        1
    }

    open spec fn as_nat(self) -> nat {
        self as nat
    }

    fn size() -> (n: usize) {
        1
    }

    proof fn lemma_bound(self) {
        lemma_pow256_values();
    }

    fn from_le(buf: &Vec<u8>) -> (r: Self) {
        proof {
            assert(le_at(buf@, 1, 0) == 0);
            assert(le_at(buf@, 0, 1) == buf@[0]);
        }
        buf[0]
    }

    fn to_le(&self) -> (v: Vec<u8>) {
        let mut v: Vec<u8> = Vec::new();
        v.push(*self);
        proof {
            assert(le_at(v@, 1, 0) == 0);
            assert(le_at(v@, 0, 1) == v@[0]);
        }
        v
    }
}

impl Primitive for u16 {
    open spec fn spec_size() -> nat {
        2
    }

    open spec fn as_nat(self) -> nat {
        self as nat
    }

    fn size() -> (n: usize) {
        2
    }

    proof fn lemma_bound(self) {
        lemma_pow256_values();
    }

    fn from_le(buf: &Vec<u8>) -> (r: Self) {
        proof {
            lemma_le_at_bound(buf@, 0, 2);
            lemma_pow256_values();
        }
        read_le(buf, 0, 2) as u16
    }

    fn to_le(&self) -> (v: Vec<u8>) {
        proof {
            lemma_pow256_values();
        }
        let mut v: Vec<u8> = Vec::new();
        push_le(&mut v, *self as u64, 2);
        v
    }
}

impl Primitive for u32 {
    open spec fn spec_size() -> nat {
        4
    }

    open spec fn as_nat(self) -> nat {
        self as nat
    }

    fn size() -> (n: usize) {
        4
    }

    proof fn lemma_bound(self) {
        lemma_pow256_values();
    }

    fn from_le(buf: &Vec<u8>) -> (r: Self) {
        proof {
            lemma_le_at_bound(buf@, 0, 4);
            lemma_pow256_values();
        }
        read_le(buf, 0, 4) as u32
    }

    fn to_le(&self) -> (v: Vec<u8>) {
        proof {
            lemma_pow256_values();
        }
        let mut v: Vec<u8> = Vec::new();
        push_le(&mut v, *self as u64, 4);
        v
    }
}

impl Primitive for u64 {
    open spec fn spec_size() -> nat {
        8
    }

    open spec fn as_nat(self) -> nat {
        self as nat
    }

    fn size() -> (n: usize) {
        8
    }

    proof fn lemma_bound(self) {
        lemma_pow256_values();
    }

    fn from_le(buf: &Vec<u8>) -> (r: Self) {
        read_le(buf, 0, 8)
    }

    fn to_le(&self) -> (v: Vec<u8>) {
        proof {
            lemma_pow256_values();
        }
        let mut v: Vec<u8> = Vec::new();
        push_le(&mut v, *self, 8);
        v
    }
}

impl Primitive for u128 {
    open spec fn spec_size() -> nat {
        16
    }

    open spec fn as_nat(self) -> nat {
        self as nat
    }

    fn size() -> (n: usize) {
        16
    }

    proof fn lemma_bound(self) {
        lemma_pow256_values();
    }

    fn from_le(buf: &Vec<u8>) -> (r: Self) {
        let lo = read_le(buf, 0, 8);
        let hi = read_le(buf, 8, 8);
        proof {
            lemma_pow256_values();
            lemma_le_at_split(buf@, 0, 8, 8);
            lemma_le_at_bound(buf@, 0, 8);
            lemma_le_at_bound(buf@, 8, 8);
            assert(pow256(8) * le_at(buf@, 8, 8) == le_at(buf@, 8, 8) * pow256(8))
                by (nonlinear_arith);
        }
        lo as u128 + (hi as u128) * 0x1_0000_0000_0000_0000u128
    }

    fn to_le(&self) -> (v: Vec<u8>) {
        proof {
            lemma_pow256_values();
        }
        let lo: u64 = (*self % 0x1_0000_0000_0000_0000u128) as u64;
        #[verifier::truncate]
        let hi: u64 = (*self >> 64) as u64;
        proof {
            assert(hi == self.as_nat() / 0x1_0000_0000_0000_0000) by (bit_vector)
                requires
                    hi == (*self >> 64u128) as u64,
            ;
        }
        let mut v: Vec<u8> = Vec::new();
        push_le(&mut v, lo, 8);
        let ghost mid = v@;
        push_le(&mut v, hi, 8);
        proof {
            lemma_le_at_agrees(mid, v@, 0, 8);
            lemma_le_at_split(v@, 0, 8, 8);
            assert(pow256(8) * le_at(v@, 8, 8) == le_at(v@, 8, 8) * pow256(8))
                by (nonlinear_arith);
            vstd::arithmetic::div_mod::lemma_fundamental_div_mod(
                self.as_nat() as int,
                0x1_0000_0000_0000_0000,
            );
        }
        v
    }
}

} // verus!
