//! Morton (Z-order) codes of voxels.
//!
//! A Morton code interleaves the bits of the three coordinates: bit `3 * i` of
//! the code is bit `i` of `x`, bit `3 * i + 1` is bit `i` of `y` and bit
//! `3 * i + 2` is bit `i` of `z`.

#![allow(unused_imports)]

use vstd::arithmetic::div_mod::lemma_div_denominator;
use vstd::arithmetic::power2::{
    lemma2_to64, lemma_pow2_adds, lemma_pow2_pos, lemma_pow2_unfold, pow2,
};
use vstd::prelude::*;

verus! {

/// The number made of bits `0, 3, 6, ..` of `m`, `n` bits in all.
pub open spec fn every_third_bit(m: int, n: nat) -> int
    decreases n,
{
    if n == 0 {
        0
    } else {
        m % 2 + 2 * every_third_bit(m / 8, (n - 1) as nat)
    }
}

/// The number whose bits `0, 3, 6, ..` are the `n` low bits of `v`, and whose
/// other bits are zero.
pub open spec fn spread_bits(v: int, n: nat) -> int
    decreases n,
{
    if n == 0 {
        0
    } else {
        v % 2 + 8 * spread_bits(v / 2, (n - 1) as nat)
    }
}

/// The voxel with Morton code `m`; bits of `m` from bit 24 on play no part.
pub open spec fn morton_voxel(m: int) -> (u8, u8, u8) {
    (
        every_third_bit(m, 8) as u8,
        every_third_bit(m / 2, 8) as u8,
        every_third_bit(m / 4, 8) as u8,
    )
}

/// The Morton code of a voxel.
pub open spec fn morton_code(v: (u8, u8, u8)) -> int {
    spread_bits(v.0 as int, 8) + 2 * spread_bits(v.1 as int, 8) + 4 * spread_bits(v.2 as int, 8)
}

/// De-interleave one axis of a Morton code.
fn compact1(v: u32) -> (r: u32)
    ensures
        r == every_third_bit(v as int, 8),
        r < 256,
{
    let a: u32 = v & 0x0924_9249;
    let b: u32 = (a ^ (a >> 2)) & 0x030c_30c3;
    let c: u32 = (b ^ (b >> 4)) & 0x0300_f00f;
    let d: u32 = (c ^ (c >> 8)) & 0x0000_0fff;
    proof {
        assert(d == v % 2 + 2 * ((v / 0x8) % 2) + 4 * ((v / 0x40) % 2) + 8 * ((v / 0x200) % 2)
            + 16 * ((v / 0x1000) % 2) + 32 * ((v / 0x8000) % 2) + 64 * ((v / 0x4_0000) % 2)
            + 128 * ((v / 0x20_0000) % 2)) by (bit_vector)
            requires
                a == v & 0x0924_9249,
                b == (a ^ (a >> 2)) & 0x030c_30c3,
                c == (b ^ (b >> 4)) & 0x0300_f00f,
                d == (c ^ (c >> 8)) & 0x0000_0fff,
        ;
        reveal_with_fuel(every_third_bit, 9);
    }
    d
}

/// Decode a Morton code into `(x, y, z)`. Each coordinate of a 15-bit code is
/// in `0..32`.
pub fn morton_decode3(m: u32) -> (v: (u8, u8, u8))
    ensures
        v == morton_voxel(m as int),
        m < 0x8000 ==> v.0 < 32 && v.1 < 32 && v.2 < 32,
{
    assert(m >> 1 == m / 2) by (bit_vector);
    assert(m >> 2 == m / 4) by (bit_vector);
    let x: u32 = compact1(m);
    let y: u32 = compact1(m >> 1);
    let z: u32 = compact1(m >> 2);
    proof {
        if m < 0x8000 {
            law_morton_voxel_in_grid(m as int);
        }
    }
    (x as u8, y as u8, z as u8)
}

/// Every coordinate of a voxel with a 15-bit Morton code is in `0..32`.
pub proof fn law_morton_voxel_in_grid(m: int)
    requires
        0 <= m < 0x8000,
    ensures
        morton_voxel(m).0 < 32,
        morton_voxel(m).1 < 32,
        morton_voxel(m).2 < 32,
{
    lemma2_to64();
    lemma_every_third_bit_bound(m, 5, 8);
    lemma_every_third_bit_bound(m / 2, 5, 8);
    lemma_every_third_bit_bound(m / 4, 5, 8);
}

/// The low three bits of a number, and what is left of it along each axis.
proof fn lemma_low_bits(a: int, b: int, c: int, rest: int)
    requires
        0 <= a < 2,
        0 <= b < 2,
        0 <= c < 2,
    ensures
        ({
            let m = a + 2 * b + 4 * c + 8 * rest;
            &&& m % 2 == a
            &&& (m / 2) % 2 == b
            &&& (m / 4) % 2 == c
            &&& m / 8 == rest
            &&& (m / 2) / 8 == rest / 2
            &&& (m / 4) / 8 == rest / 4
        }),
{
    let m = a + 2 * b + 4 * c + 8 * rest;
    let half = b + 2 * c + 4 * rest;
    let quarter = c + 2 * rest;
    assert(m == a + 2 * half);
    assert(m / 2 == half && m % 2 == a);
    assert(half == b + 2 * quarter);
    assert(half % 2 == b && half / 2 == quarter);
    assert(m == (a + 2 * b) + 4 * quarter);
    assert(m / 4 == quarter);
    assert(quarter % 2 == c && quarter / 2 == rest);
    assert(half / 8 == rest / 2) by {
        let q = rest / 2;
        let r = rest % 2;
        assert(half == 8 * q + (4 * r + 2 * c + b));
    }
    assert(quarter / 8 == rest / 4) by {
        let q = rest / 4;
        let r = rest % 4;
        assert(quarter == 8 * q + (2 * r + c));
    }
}

/// Interleaving three `n`-bit numbers and taking every third bit gives them back.
proof fn lemma_interleave_then_split(x: int, y: int, z: int, n: nat)
    requires
        0 <= x < pow2(n),
        0 <= y < pow2(n),
        0 <= z < pow2(n),
    ensures
        ({
            let m = spread_bits(x, n) + 2 * spread_bits(y, n) + 4 * spread_bits(z, n);
            &&& every_third_bit(m, n) == x
            &&& every_third_bit(m / 2, n) == y
            &&& every_third_bit(m / 4, n) == z
        }),
    decreases n,
{
    if n == 0 {
        lemma2_to64();
    } else {
        let k = (n - 1) as nat;
        lemma_pow2_unfold(n);
        lemma_interleave_then_split(x / 2, y / 2, z / 2, k);
        let m = spread_bits(x, n) + 2 * spread_bits(y, n) + 4 * spread_bits(z, n);
        let rest = spread_bits(x / 2, k) + 2 * spread_bits(y / 2, k) + 4 * spread_bits(z / 2, k);
        assert(m == x % 2 + 2 * (y % 2) + 4 * (z % 2) + 8 * rest);
        lemma_low_bits(x % 2, y % 2, z % 2, rest);
        assert(every_third_bit(m, n) == x % 2 + 2 * every_third_bit(rest, k));
        assert(every_third_bit(m / 2, n) == y % 2 + 2 * every_third_bit(rest / 2, k));
        assert(every_third_bit(m / 4, n) == z % 2 + 2 * every_third_bit(rest / 4, k));
    }
}

/// Splitting a `3 * n`-bit number into its three axes and interleaving them
/// gives it back.
proof fn lemma_split_then_interleave(m: int, n: nat)
    requires
        0 <= m < pow2(3 * n),
    ensures
        spread_bits(every_third_bit(m, n), n) + 2 * spread_bits(every_third_bit(m / 2, n), n) + 4
            * spread_bits(every_third_bit(m / 4, n), n) == m,
    decreases n,
{
    if n == 0 {
        lemma2_to64();
    } else {
        let k = (n - 1) as nat;
        lemma_pow2_adds(3, 3 * k);
        lemma2_to64();
        assert(pow2(3 * n) == 8 * pow2(3 * k));
        lemma_split_then_interleave(m / 8, k);
        assert((m / 2) / 8 == (m / 8) / 2);
        assert((m / 4) / 8 == (m / 8) / 4);
    }
}

/// Decoding the Morton code of a voxel gives the voxel back.
pub proof fn law_morton_code_then_voxel(v: (u8, u8, u8))
    ensures
        morton_voxel(morton_code(v)) == v,
        0 <= morton_code(v) < 0x100_0000,
        v.0 < 32 && v.1 < 32 && v.2 < 32 ==> morton_code(v) < 0x8000,
{
    lemma2_to64();
    lemma_interleave_then_split(v.0 as int, v.1 as int, v.2 as int, 8);
    lemma_spread_bits_bound(v.0 as int, 8, 8);
    lemma_spread_bits_bound(v.1 as int, 8, 8);
    lemma_spread_bits_bound(v.2 as int, 8, 8);
    if v.0 < 32 && v.1 < 32 && v.2 < 32 {
        lemma_spread_bits_bound(v.0 as int, 5, 8);
        lemma_spread_bits_bound(v.1 as int, 5, 8);
        lemma_spread_bits_bound(v.2 as int, 5, 8);
    }
}

/// The spread form of a `k`-bit number has `3 * k` bits, two thirds of them zero.
proof fn lemma_spread_bits_bound(v: int, k: nat, n: nat)
    requires
        0 <= v < pow2(k),
    ensures
        0 <= spread_bits(v, n),
        7 * spread_bits(v, n) < pow2(3 * k),
    decreases n,
{
    lemma_pow2_pos(3 * k);
    if n > 0 {
        if k == 0 {
            lemma2_to64();
            lemma_spread_bits_bound(0, 0, (n - 1) as nat);
        } else {
            let j = (k - 1) as nat;
            lemma_pow2_unfold(k);
            lemma_pow2_adds(3, 3 * j);
            lemma2_to64();
            assert(pow2(3 * k) == 8 * pow2(3 * j));
            lemma_spread_bits_bound(v / 2, j, (n - 1) as nat);
        }
    }
}

/// The Morton code of the voxel that a code of up to 24 bits stands for is that
/// code: codes and voxels are in one-to-one correspondence.
pub proof fn law_morton_voxel_then_code(m: int)
    requires
        0 <= m < 0x100_0000,
    ensures
        morton_code(morton_voxel(m)) == m,
{
    lemma2_to64();
    lemma_split_then_interleave(m, 8);
    lemma_every_third_bit_bound(m, 8, 8);
    lemma_every_third_bit_bound(m / 2, 8, 8);
    lemma_every_third_bit_bound(m / 4, 8, 8);
}

/// Taking every third bit of a `3 * k`-bit number gives a `k`-bit number.
proof fn lemma_every_third_bit_bound(m: int, k: nat, n: nat)
    requires
        0 <= m < pow2(3 * k),
    ensures
        0 <= every_third_bit(m, n) < pow2(k),
    decreases n,
{
    lemma_pow2_pos(k);
    if n > 0 {
        if k == 0 {
            lemma2_to64();
            lemma_every_third_bit_bound(0, 0, (n - 1) as nat);
        } else {
            let j = (k - 1) as nat;
            lemma_pow2_unfold(k);
            lemma_pow2_adds(3, 3 * j);
            lemma2_to64();
            assert(pow2(3 * k) == 8 * pow2(3 * j));
            lemma_every_third_bit_bound(m / 8, j, (n - 1) as nat);
        }
    }
}

/// A coordinate of a Morton code is made of every third bit of the code: bits
/// 0, 3, 6, .. for `x`, bits 1, 4, 7, .. for `y` and bits 2, 5, 8, .. for `z`.
pub proof fn law_morton_voxel_takes_every_third_bit(m: int)
    requires
        0 <= m,
    ensures
        morton_voxel(m).0 == m % 2 + 2 * (m / 0x8 % 2) + 4 * (m / 0x40 % 2) + 8 * (m / 0x200 % 2)
            + 16 * (m / 0x1000 % 2) + 32 * (m / 0x8000 % 2) + 64 * (m / 0x4_0000 % 2) + 128 * (m
            / 0x20_0000 % 2),
        morton_voxel(m).1 == m / 0x2 % 2 + 2 * (m / 0x10 % 2) + 4 * (m / 0x80 % 2) + 8 * (m
            / 0x400 % 2) + 16 * (m / 0x2000 % 2) + 32 * (m / 0x1_0000 % 2) + 64 * (m / 0x8_0000
            % 2) + 128 * (m / 0x40_0000 % 2),
        morton_voxel(m).2 == m / 0x4 % 2 + 2 * (m / 0x20 % 2) + 4 * (m / 0x100 % 2) + 8 * (m
            / 0x800 % 2) + 16 * (m / 0x4000 % 2) + 32 * (m / 0x2_0000 % 2) + 64 * (m / 0x10_0000
            % 2) + 128 * (m / 0x80_0000 % 2),
{
    lemma_eight_third_bits(m);
    lemma_eight_third_bits(m / 2);
    lemma_eight_third_bits(m / 4);
    lemma_div_twice(m);
}

/// The first eight of every third bit.
proof fn lemma_eight_third_bits(m: int)
    requires
        0 <= m,
    ensures
        every_third_bit(m, 8) == m % 2 + 2 * (m / 0x8 % 2) + 4 * (m / 0x40 % 2) + 8 * (m / 0x200
            % 2) + 16 * (m / 0x1000 % 2) + 32 * (m / 0x8000 % 2) + 64 * (m / 0x4_0000 % 2) + 128
            * (m / 0x20_0000 % 2),
        0 <= every_third_bit(m, 8) < 256,
{
    let m1 = m / 8;
    let m2 = m1 / 8;
    let m3 = m2 / 8;
    let m4 = m3 / 8;
    let m5 = m4 / 8;
    let m6 = m5 / 8;
    let m7 = m6 / 8;
    assert(m2 == m / 0x40);
    assert(m3 == m / 0x200);
    assert(m4 == m / 0x1000);
    assert(m5 == m / 0x8000);
    assert(m6 == m / 0x4_0000);
    assert(m7 == m / 0x20_0000);
    assert(every_third_bit(m7 / 8, 0) == 0);
    assert(every_third_bit(m7, 1) == m7 % 2);
    assert(every_third_bit(m6, 2) == m6 % 2 + 2 * every_third_bit(m7, 1));
    assert(every_third_bit(m5, 3) == m5 % 2 + 2 * every_third_bit(m6, 2));
    assert(every_third_bit(m4, 4) == m4 % 2 + 2 * every_third_bit(m5, 3));
    assert(every_third_bit(m3, 5) == m3 % 2 + 2 * every_third_bit(m4, 4));
    assert(every_third_bit(m2, 6) == m2 % 2 + 2 * every_third_bit(m3, 5));
    assert(every_third_bit(m1, 7) == m1 % 2 + 2 * every_third_bit(m2, 6));
    assert(every_third_bit(m, 8) == m % 2 + 2 * every_third_bit(m1, 7));
}

/// Dividing by 2 or 4 first and by a power of 8 then.
proof fn lemma_div_twice(m: int)
    requires
        0 <= m,
    ensures
        m / 2 / 0x8 == m / 0x10,
        m / 2 / 0x40 == m / 0x80,
        m / 2 / 0x200 == m / 0x400,
        m / 2 / 0x1000 == m / 0x2000,
        m / 2 / 0x8000 == m / 0x1_0000,
        m / 2 / 0x4_0000 == m / 0x8_0000,
        m / 2 / 0x20_0000 == m / 0x40_0000,
        m / 4 / 0x8 == m / 0x20,
        m / 4 / 0x40 == m / 0x100,
        m / 4 / 0x200 == m / 0x800,
        m / 4 / 0x1000 == m / 0x4000,
        m / 4 / 0x8000 == m / 0x2_0000,
        m / 4 / 0x4_0000 == m / 0x10_0000,
        m / 4 / 0x20_0000 == m / 0x80_0000,
{
    lemma_div_denominator(m, 2, 0x8);
    lemma_div_denominator(m, 2, 0x40);
    lemma_div_denominator(m, 2, 0x200);
    lemma_div_denominator(m, 2, 0x1000);
    lemma_div_denominator(m, 2, 0x8000);
    lemma_div_denominator(m, 2, 0x4_0000);
    lemma_div_denominator(m, 2, 0x20_0000);
    lemma_div_denominator(m, 4, 0x8);
    lemma_div_denominator(m, 4, 0x40);
    lemma_div_denominator(m, 4, 0x200);
    lemma_div_denominator(m, 4, 0x1000);
    lemma_div_denominator(m, 4, 0x8000);
    lemma_div_denominator(m, 4, 0x4_0000);
    lemma_div_denominator(m, 4, 0x20_0000);
}

} // verus!
