//! Fixed-width numbers on the wire: unsigned values of `n` bytes in either
//! byte order, and the two's-complement reading of signed ones.
use vstd::prelude::*;
use crate::types::Endian;

verus! {

/// 256 to the power `n`.
pub open spec fn pow256(n: nat) -> nat
    decreases n,
{
    if n == 0 {
        1
    } else {
        256 * pow256((n - 1) as nat)
    }
}

/// The number whose big-endian bytes are `b`.
pub open spec fn be_nat(b: Seq<u8>) -> nat
    decreases b.len(),
{
    if b.len() == 0 {
        0
    } else {
        (be_nat(b.drop_last()) * 256 + b.last()) as nat
    }
}

/// The number whose little-endian bytes are `b`.
pub open spec fn le_nat(b: Seq<u8>) -> nat
    decreases b.len(),
{
    if b.len() == 0 {
        0
    } else {
        (b[0] + 256 * le_nat(b.subrange(1, b.len() as int))) as nat
    }
}

/// The number whose bytes in order `e` are `b`.
pub open spec fn uint_of(b: Seq<u8>, e: Endian) -> nat {
    match e {
        Endian::Big => be_nat(b),
        Endian::Little => le_nat(b),
    }
}

/// The `n` low bytes of `x`, most significant first.
pub open spec fn be_bytes(x: nat, n: nat) -> Seq<u8>
    decreases n,
{
    if n == 0 {
        Seq::empty()
    } else {
        be_bytes(x / 256, (n - 1) as nat).push((x % 256) as u8)
    }
}

/// The `n` low bytes of `x`, least significant first.
pub open spec fn le_bytes(x: nat, n: nat) -> Seq<u8>
    decreases n,
{
    if n == 0 {
        Seq::empty()
    } else {
        seq![(x % 256) as u8] + le_bytes(x / 256, (n - 1) as nat)
    }
}

/// The `n` low bytes of `x` in order `e`.
pub open spec fn uint_bytes(x: nat, n: nat, e: Endian) -> Seq<u8> {
    match e {
        Endian::Big => be_bytes(x, n),
        Endian::Little => le_bytes(x, n),
    }
}

pub open spec fn i8_bits(x: i8) -> nat {
    if x < 0 { (x + 256) as nat } else { x as nat }
}

pub open spec fn i16_bits(x: i16) -> nat {
    if x < 0 { (x + 0x1_0000) as nat } else { x as nat }
}

pub open spec fn i32_bits(x: i32) -> nat {
    if x < 0 { (x + 0x1_0000_0000) as nat } else { x as nat }
}

pub open spec fn i64_bits(x: i64) -> nat {
    if x < 0 { (x + 0x1_0000_0000_0000_0000) as nat } else { x as nat }
}

pub open spec fn i8_from(u: nat) -> i8 {
    if u >= 0x80 { (u - 0x100) as i8 } else { u as i8 }
}

pub open spec fn i16_from(u: nat) -> i16 {
    if u >= 0x8000 { (u - 0x1_0000) as i16 } else { u as i16 }
}

pub open spec fn i32_from(u: nat) -> i32 {
    if u >= 0x8000_0000 { (u - 0x1_0000_0000) as i32 } else { u as i32 }
}

pub open spec fn i64_from(u: nat) -> i64 {
    if u >= 0x8000_0000_0000_0000 { (u - 0x1_0000_0000_0000_0000) as i64 } else { u as i64 }
}

pub proof fn lemma_pow256_values()
    ensures
        pow256(1) == 0x100,
        pow256(2) == 0x1_0000,
        pow256(4) == 0x1_0000_0000,
        pow256(8) == 0x1_0000_0000_0000_0000,
{
    reveal_with_fuel(pow256, 9);
}

pub proof fn lemma_be_nat_bound(b: Seq<u8>)
    ensures
        be_nat(b) < pow256(b.len()),
    decreases b.len(),
{
    if b.len() > 0 {
        lemma_be_nat_bound(b.drop_last());
        let r = be_nat(b.drop_last());
        let p = pow256((b.len() - 1) as nat);
        assert(r * 256 + b.last() < p * 256) by (nonlinear_arith)
            requires r < p, b.last() < 256;
    }
}

pub proof fn lemma_le_nat_bound(b: Seq<u8>)
    ensures
        le_nat(b) < pow256(b.len()),
    decreases b.len(),
{
    if b.len() > 0 {
        let t = b.subrange(1, b.len() as int);
        lemma_le_nat_bound(t);
        let r = le_nat(t);
        let p = pow256((b.len() - 1) as nat);
        assert(b[0] + 256 * r < 256 * p) by (nonlinear_arith)
            requires r < p, b[0] < 256;
    }
}

pub proof fn lemma_uint_of_bound(b: Seq<u8>, e: Endian)
    ensures
        uint_of(b, e) < pow256(b.len()),
{
    lemma_be_nat_bound(b);
    lemma_le_nat_bound(b);
}

pub proof fn lemma_be_round_trip(x: nat, n: nat)
    requires
        x < pow256(n),
    ensures
        be_bytes(x, n).len() == n,
        be_nat(be_bytes(x, n)) == x,
    decreases n,
{
    if n > 0 {
        let p = pow256((n - 1) as nat);
        assert(x / 256 < p) by (nonlinear_arith)
            requires x < 256 * p;
        lemma_be_round_trip(x / 256, (n - 1) as nat);
        let b = be_bytes(x, n);
        assert(b.drop_last() =~= be_bytes(x / 256, (n - 1) as nat));
        assert((x / 256) * 256 + x % 256 == x) by (nonlinear_arith);
    }
}

pub proof fn lemma_le_round_trip(x: nat, n: nat)
    requires
        x < pow256(n),
    ensures
        le_bytes(x, n).len() == n,
        le_nat(le_bytes(x, n)) == x,
    decreases n,
{
    if n > 0 {
        let p = pow256((n - 1) as nat);
        assert(x / 256 < p) by (nonlinear_arith)
            requires x < 256 * p;
        lemma_le_round_trip(x / 256, (n - 1) as nat);
        let b = le_bytes(x, n);
        assert(b.subrange(1, b.len() as int) =~= le_bytes(x / 256, (n - 1) as nat));
        assert(x % 256 + 256 * (x / 256) == x) by (nonlinear_arith);
    }
}

/// Reading back the `n` bytes written for `x` gives `x`, in either byte order.
pub proof fn lemma_uint_round_trip(x: nat, n: nat, e: Endian)
    requires
        x < pow256(n),
    ensures
        uint_bytes(x, n, e).len() == n,
        uint_of(uint_bytes(x, n, e), e) == x,
{
    lemma_be_round_trip(x, n);
    lemma_le_round_trip(x, n);
}

/// Reads the number of `n` bytes starting at `b[p]`.
pub fn read_uint(b: &Vec<u8>, p: usize, n: usize, e: Endian) -> (r: u64)
    requires
        n <= 8,
        p + n <= b.len(),
    ensures
        r == uint_of(b@.subrange(p as int, p + n), e),
{
    let ghost s = b@.subrange(p as int, p + n);
    proof {
        lemma_pow256_values();
        assert(pow256(n as nat) <= pow256(8)) by {
            lemma_pow256_mono(n as nat, 8);
        }
    }
    match e {
        Endian::Big => {
            let mut acc: u64 = 0;
            let mut i: usize = 0;
            while i < n
                invariant
                    i <= n <= 8,
                    p + n <= b.len(),
                    s == b@.subrange(p as int, p + n),
                    pow256(n as nat) <= pow256(8),
                    pow256(8) == 0x1_0000_0000_0000_0000,
                    acc == be_nat(s.subrange(0, i as int)),
                decreases n - i,
            {
                let ghost t = s.subrange(0, i + 1);
                assert(t.drop_last() =~= s.subrange(0, i as int));
                proof {
                    lemma_be_nat_bound(t);
                    lemma_pow256_mono((i + 1) as nat, n as nat);
                }
                acc = acc * 256 + b[p + i] as u64;
                i = i + 1;
            }
            assert(s.subrange(0, n as int) =~= s);
            acc
        },
        Endian::Little => {
            let mut acc: u64 = 0;
            let mut i: usize = n;
            while i > 0
                invariant
                    i <= n <= 8,
                    p + n <= b.len(),
                    s == b@.subrange(p as int, p + n),
                    pow256(n as nat) <= pow256(8),
                    pow256(8) == 0x1_0000_0000_0000_0000,
                    acc == le_nat(s.subrange(i as int, n as int)),
                decreases i,
            {
                let ghost t = s.subrange(i - 1, n as int);
                assert(t.subrange(1, t.len() as int) =~= s.subrange(i as int, n as int));
                proof {
                    lemma_le_nat_bound(t);
                    lemma_pow256_mono(t.len(), n as nat);
                }
                acc = b[p + i - 1] as u64 + 256 * acc;
                i = i - 1;
            }
            assert(s.subrange(0, n as int) =~= s);
            acc
        },
    }
}

pub proof fn lemma_pow256_mono(a: nat, b: nat)
    requires
        a <= b,
    ensures
        pow256(a) <= pow256(b),
    decreases b,
{
    if a < b {
        lemma_pow256_mono(a, (b - 1) as nat);
    }
}

/// Appends the `n` low bytes of `x` in order `e`.
pub fn push_uint(out: &mut Vec<u8>, x: u64, n: usize, e: Endian)
    requires
        n <= 8,
    ensures
        final(out)@ == old(out)@ + uint_bytes(x as nat, n as nat, e),
    decreases n,
{
    match e {
        Endian::Big => {
            if n > 0 {
                push_uint(out, x / 256, n - 1, e);
                out.push((x % 256) as u8);
            }
            assert(out@ =~= old(out)@ + uint_bytes(x as nat, n as nat, e));
        },
        Endian::Little => {
            if n > 0 {
                out.push((x % 256) as u8);
                push_uint(out, x / 256, n - 1, e);
            }
            assert(out@ =~= old(out)@ + uint_bytes(x as nat, n as nat, e));
        },
    }
}

} // verus!
