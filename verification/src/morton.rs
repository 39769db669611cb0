//! Morton (Z-order) codes of grid cells

use vstd::prelude::*;
use vstd::arithmetic::power2::{pow2, lemma2_to64, lemma_pow2_adds, lemma_pow2_pos, lemma_pow2_strictly_increases};
use vstd::arithmetic::div_mod::lemma_div_denominator;
use vstd::bits::lemma_u32_shr_is_div;

verus! {

/// The Morton code of cell `(x, y, z)` of a grid with `2^n` cells per side: the low
/// `n` bits of the three coordinates interleaved, three bits per level, with the
/// bit of `x` lowest in each group
pub open spec fn morton_code(x: nat, y: nat, z: nat, n: nat) -> nat
    decreases n,
{
    if n == 0 {
        0
    } else {
        morton_code(x / 2, y / 2, z / 2, (n - 1) as nat) * 8 + (z % 2) * 4 + (y % 2) * 2 + x % 2
    }
}

proof fn lemma_pow2_step3(n: nat)
    ensures
        pow2(3 * n + 3) == pow2(3 * n) * 8,
{
    lemma_pow2_adds(3 * n, 3);
    lemma2_to64();
}

/// A Morton code of `n` levels has `3n` bits
pub proof fn lemma_morton_bound(x: nat, y: nat, z: nat, n: nat)
    ensures
        morton_code(x, y, z, n) < pow2(3 * n),
    decreases n,
{
    if n == 0 {
        lemma2_to64();
    } else {
        lemma_morton_bound(x / 2, y / 2, z / 2, (n - 1) as nat);
        lemma_pow2_step3((n - 1) as nat);
    }
}

/// Dropping the last `k` levels of a Morton code gives the code of the cell `2^k`
/// times as large that holds it
pub proof fn lemma_morton_shift(x: nat, y: nat, z: nat, n: nat, k: nat)
    requires
        k <= n,
    ensures
        morton_code(x, y, z, n) / pow2(3 * k) == morton_code(
            x / pow2(k),
            y / pow2(k),
            z / pow2(k),
            (n - k) as nat,
        ),
    decreases k,
{
    lemma2_to64();
    if k == 0 {
        assert(x / pow2(0) == x);
        assert(y / pow2(0) == y);
        assert(z / pow2(0) == z);
        assert(morton_code(x, y, z, n) / pow2(0) == morton_code(x, y, z, n));
    } else {
        let k1 = (k - 1) as nat;
        lemma_morton_shift(x, y, z, n, k1);
        lemma_pow2_pos(3 * k1);
        lemma_pow2_pos(k1);
        lemma_pow2_step3(k1);
        lemma_pow2_adds(k1, 1);
        lemma_div_denominator(morton_code(x, y, z, n) as int, pow2(3 * k1) as int, 8);
        lemma_div_denominator(x as int, pow2(k1) as int, 2);
        lemma_div_denominator(y as int, pow2(k1) as int, 2);
        lemma_div_denominator(z as int, pow2(k1) as int, 2);
        let mm = morton_code(x, y, z, n);
        let m = morton_code(x / pow2(k) , y / pow2(k), z / pow2(k), (n - k) as nat);
        assert(pow2(k) == pow2(k1) * 2);
        assert((x / pow2(k1)) / 2 == x / pow2(k));
        assert((y / pow2(k1)) / 2 == y / pow2(k));
        assert((z / pow2(k1)) / 2 == z / pow2(k));
        let d = ((z / pow2(k1)) % 2) * 4 + ((y / pow2(k1)) % 2) * 2 + (x / pow2(k1)) % 2;
        assert(morton_code(x / pow2(k1), y / pow2(k1), z / pow2(k1), (n - k1) as nat) == m * 8 + d);
        assert(mm / pow2(3 * k1) == m * 8 + d);
        assert(0 <= d < 8);
        assert((m * 8 + d) / 8 == m);
        assert(pow2(3 * k) == pow2(3 * k1) * 8);
        assert(mm / pow2(3 * k) == (mm / pow2(3 * k1)) / 8);
    }
}

/// Interleave the low `depth` bits of the cell coordinates into a Morton code
pub fn interleave(x: u32, y: u32, z: u32, depth: u8) -> (code: u64)
    requires
        depth <= 21,
    ensures
        code == morton_code(x as nat, y as nat, z as nat, depth as nat),
{
    let mut code: u64 = 0;
    let mut i: u8 = depth;
    proof {
        lemma2_to64();
        lemma_u32_shr_is_div(x, depth as u32);
        lemma_u32_shr_is_div(y, depth as u32);
        lemma_u32_shr_is_div(z, depth as u32);
    }
    while i > 0
        invariant
            i <= depth <= 21,
            code == morton_code(x as nat / pow2(i as nat), y as nat / pow2(i as nat), z as nat / pow2(i as nat), (depth - i) as nat),
        decreases i,
    {
        i = i - 1;
        let ghost ip = i as nat;
        proof {
            lemma2_to64();
            lemma_pow2_pos(ip);
            lemma_pow2_adds(ip, 1);
            lemma_div_denominator(x as int, pow2(ip) as int, 2);
            lemma_div_denominator(y as int, pow2(ip) as int, 2);
            lemma_div_denominator(z as int, pow2(ip) as int, 2);
            lemma_u32_shr_is_div(x, i as u32);
            lemma_u32_shr_is_div(y, i as u32);
            lemma_u32_shr_is_div(z, i as u32);
            let xs = x >> (i as u32);
            let ys = y >> (i as u32);
            let zs = z >> (i as u32);
            assert(xs & 1 == xs % 2) by (bit_vector);
            assert(ys & 1 == ys % 2) by (bit_vector);
            assert(zs & 1 == zs % 2) by (bit_vector);
            lemma_morton_bound(x as nat / pow2(ip + 1), y as nat / pow2(ip + 1), z as nat / pow2(ip + 1), (depth - ip - 1) as nat);
            let mlev = (depth - ip - 1) as nat;
            if 3 * mlev < 60 {
                lemma_pow2_strictly_increases(3 * mlev, 60);
            }
            lemma_pow2_adds(32, 28);
            assert(pow2(60) == 0x1000_0000_0000_0000);
            assert(code < 0x1000_0000_0000_0000);
            assert(xs & 1 <= 1) by (bit_vector);
            assert(ys & 1 <= 1) by (bit_vector);
            assert(zs & 1 <= 1) by (bit_vector);
        }
        let xb: u64 = ((x >> i) & 1) as u64;
        let yb: u64 = ((y >> i) & 1) as u64;
        let zb: u64 = ((z >> i) & 1) as u64;
        code = code * 8 + zb * 4 + yb * 2 + xb;
    }
    proof {
        lemma2_to64();
        assert(x as nat / pow2(0) == x as nat);
        assert(y as nat / pow2(0) == y as nat);
        assert(z as nat / pow2(0) == z as nat);
    }
    code
}

} // verus!
