//! Integer values as IEEE-754 single-precision bit patterns.
//!
//! The binary export format writes every scalar as the little-endian bit
//! pattern of the nearest 32-bit float (ties to even). Since the values are
//! integers, that pattern is a pure integer function of the value, defined
//! here as a spec and computed by verified integer arithmetic: no floating
//! point is involved.

use vstd::arithmetic::div_mod::{
    lemma_div_is_ordered, lemma_fundamental_div_mod, lemma_multiply_divide_lt,
};
use vstd::arithmetic::mul::lemma_mul_inequality;
use vstd::arithmetic::power2::{
    lemma2_to64, lemma2_to64_rest, lemma_pow2_adds, lemma_pow2_strictly_increases, pow2,
};
use vstd::prelude::*;

verus! {

/// The position of the highest set bit: `ilog2(1) == 0`, `ilog2(2) == 1`.
pub open spec fn ilog2(n: nat) -> nat
    decreases n,
{
    if n < 2 {
        0
    } else {
        1 + ilog2(n / 2)
    }
}

/// The IEEE-754 single-precision bit pattern of a non-negative integer:
/// zero maps to zero; otherwise the exponent field holds `ilog2(v) + 127`
/// and the mantissa holds the 23 bits after the leading one, rounded to
/// nearest with ties to even (rounding can carry into the exponent).
pub open spec fn f32_bits_of_mag(v: nat) -> nat {
    if v == 0 {
        0
    } else {
        let e = ilog2(v);
        if e <= 23 {
            ((e + 127) * pow2(23) + v * pow2((23 - e) as nat) - pow2(23)) as nat
        } else {
            let s = (e - 23) as nat;
            let q = (v as int) / (pow2(s) as int);
            let r = (v as int) % (pow2(s) as int);
            let half = pow2((s - 1) as nat) as int;
            let q2: int = if r > half || (r == half && q % 2 == 1) {
                q + 1
            } else {
                q
            };
            if q2 == pow2(24) {
                (e + 128) * pow2(23)
            } else {
                ((e + 127) * pow2(23) + q2 - pow2(23)) as nat
            }
        }
    }
}

/// The bit pattern of any integer: negative values set the sign bit.
pub open spec fn f32_bits(v: int) -> nat {
    if v >= 0 {
        f32_bits_of_mag(v as nat)
    } else {
        pow2(31) + f32_bits_of_mag((-v) as nat)
    }
}

/// A 32-bit pattern as its four little-endian bytes.
pub open spec fn le_bytes_32(b: nat) -> Seq<u8> {
    seq![
        (b % 256) as u8,
        ((b / 256) % 256) as u8,
        ((b / 65536) % 256) as u8,
        ((b / 16777216) % 256) as u8,
    ]
}

/// The four bytes an integer scalar contributes to the export format.
pub open spec fn f32_le_bytes(v: int) -> Seq<u8> {
    le_bytes_32(f32_bits(v))
}

/// The bytes of a whole sequence of scalars, in order.
pub open spec fn flatt_bytes(s: Seq<int>) -> Seq<u8>
    decreases s.len(),
{
    if s.len() == 0 {
        Seq::empty()
    } else {
        flatt_bytes(s.drop_last()) + f32_le_bytes(s.last())
    }
}

/// `ilog2` names the highest set bit: `v` lies between its power of two and
/// the next.
pub proof fn lemma_ilog2_bounds(v: nat)
    requires
        v >= 1,
    ensures
        pow2(ilog2(v)) <= v < pow2(ilog2(v) + 1),
    decreases v,
{
    if v < 2 {
        lemma2_to64();
    } else {
        lemma_ilog2_bounds(v / 2);
        let e = ilog2(v / 2);
        lemma_pow2_adds(e, 1);
        lemma_pow2_adds(e + 1, 1);
        lemma2_to64();
        assert(pow2(e + 1) == 2 * pow2(e));
        assert(pow2(e + 2) == 2 * pow2(e + 1));
        assert(v >= 2 * (v / 2));
        assert(v <= 2 * (v / 2) + 1);
    }
}

/// Executable power of two.
fn pow2_u64(e: u64) -> (r: u64)
    requires
        e < 64,
    ensures
        r as nat == pow2(e as nat),
        r >= 1,
{
    let mut i: u64 = 0;
    let mut p: u64 = 1;
    proof {
        lemma2_to64();
    }
    while i < e
        invariant
            i <= e < 64,
            p as nat == pow2(i as nat),
            p >= 1,
        decreases e - i,
    {
        proof {
            lemma_pow2_adds(i as nat, 1);
            lemma2_to64();
            lemma_pow2_strictly_increases((i + 1) as nat, 64);
            lemma2_to64_rest();
        }
        p = p * 2;
        i = i + 1;
    }
    p
}

/// The bit pattern of a magnitude, by verified integer arithmetic.
pub(crate) fn f32_bits_mag(mag: u64) -> (b: u32)
    ensures
        b as nat == f32_bits_of_mag(mag as nat),
{
    if mag == 0 {
        return 0;
    }
    let mut e: u64 = 0;
    let mut t: u64 = mag;
    proof {
        lemma2_to64();
    }
    while t >= 2
        invariant
            t >= 1,
            ilog2(mag as nat) == e as nat + ilog2(t as nat),
            (t as nat) * pow2(e as nat) <= mag as nat,
            e < 64,
        decreases t,
    {
        proof {
            lemma2_to64();
            vstd::arithmetic::power2::lemma_pow2_pos(e as nat);
            lemma_pow2_adds(e as nat, 1);
            assert((t as nat / 2) * (2 * pow2(e as nat)) <= (t as nat) * pow2(e as nat))
                by (nonlinear_arith)
                requires
                    t >= 2,
                    pow2(e as nat) >= 1,
            ;
            if e + 1 >= 64 {
                lemma2_to64();
                lemma2_to64_rest();
                if e + 1 > 64 {
                    lemma_pow2_strictly_increases(64, (e + 1) as nat);
                }
                assert(pow2((e + 1) as nat) >= pow2(64));
                assert(t as nat / 2 >= 1);
                assert((t as nat / 2) * pow2((e + 1) as nat) >= pow2((e + 1) as nat))
                    by (nonlinear_arith)
                    requires
                        t as nat / 2 >= 1,
                ;
                assert(false);
            }
        }
        t = t / 2;
        e = e + 1;
    }
    proof {
        assert(ilog2(t as nat) == 0);
        assert(ilog2(mag as nat) == e as nat);
        lemma_ilog2_bounds(mag as nat);
    }
    let ghost ge = e as nat;
    if e <= 23 {
        let scale = pow2_u64(23 - e);
        proof {
            lemma_pow2_adds(ge, (23 - ge) as nat);
            lemma_pow2_adds((ge + 1) as nat, (23 - ge) as nat);
            lemma2_to64();
            assert((mag as nat) * (scale as nat) < pow2((ge + 1) as nat) * pow2((23 - ge) as nat))
                by (nonlinear_arith)
                requires
                    (mag as nat) < pow2((ge + 1) as nat),
                    scale as nat == pow2((23 - ge) as nat),
                    scale >= 1,
            ;
            lemma_mul_inequality(pow2(ge) as int, mag as int, scale as int);
        }
        let frac = mag * scale;
        let bits: u32 = ((e as u32) + 127) * 8388608 + (frac as u32) - 8388608;
        proof {
            lemma2_to64();
        }
        bits
    } else {
        let s = e - 23;
        let p = pow2_u64(s);
        let q = mag / p;
        let r = mag % p;
        let half = p / 2;
        proof {
            lemma_pow2_adds((s - 1) as nat, 1);
            lemma2_to64();
            assert(half as nat == pow2((s - 1) as nat));
            // q lies in [2^23, 2^24)
            lemma_pow2_adds(23, s as nat);
            lemma_div_is_ordered(pow2(ge) as int, mag as int, p as int);
            assert(pow2(ge) as int / p as int == pow2(23)) by {
                lemma_fundamental_div_mod(pow2(ge) as int, p as int);
                assert(pow2(ge) == pow2(23) * pow2(s as nat));
                vstd::arithmetic::div_mod::lemma_div_multiples_vanish(
                    pow2(23) as int,
                    p as int,
                );
            }
            lemma_pow2_adds(24, s as nat);
            lemma_multiply_divide_lt(mag as int, p as int, pow2(24) as int);
            assert(pow2(23) <= q as nat && (q as nat) < pow2(24));
        }
        let q2 = if r > half || (r == half && q % 2 == 1) {
            q + 1
        } else {
            q
        };
        proof {
            lemma2_to64();
        }
        if q2 == 16777216 {
            let bits: u32 = ((e as u32) + 128) * 8388608;
            bits
        } else {
            let bits: u32 = ((e as u32) + 127) * 8388608 + (q2 as u32) - 8388608;
            bits
        }
    }
}

/// The bit pattern of an `i64` scalar.
pub(crate) fn f32_bits_i64(v: i64) -> (b: u32)
    ensures
        b as nat == f32_bits(v as int),
{
    if v >= 0 {
        f32_bits_mag(v as u64)
    } else {
        let mag: u64 = ((-(v + 1)) as u64) + 1;
        let high = f32_bits_mag(mag);
        proof {
            lemma2_to64();
            assert(f32_bits_of_mag(mag as nat) < pow2(31)) by {
                lemma_f32_bits_mag_bound(mag as nat);
            }
        }
        2147483648u32 + high
    }
}

/// The bit pattern of a `usize` dimension.
pub(crate) fn f32_bits_usize(v: usize) -> (b: u32)
    ensures
        b as nat == f32_bits(v as int),
{
    f32_bits_mag(v as u64)
}

/// A magnitude below 2^64 encodes with a clear sign bit.
pub proof fn lemma_f32_bits_mag_bound(v: nat)
    requires
        v < pow2(64),
    ensures
        f32_bits_of_mag(v) < pow2(31),
{
    lemma2_to64();
    lemma2_to64_rest();
    if v == 0 {
    } else {
        let e = ilog2(v);
        lemma_ilog2_bounds(v);
        if e >= 64 {
            lemma_pow2_strictly_increases(64, e);
            assert(false);
        }
        if e <= 23 {
            assert(v * pow2((23 - e) as nat) < pow2((e + 1) as nat) * pow2((23 - e) as nat))
                by (nonlinear_arith)
                requires
                    v < pow2((e + 1) as nat),
                    pow2((23 - e) as nat) >= 1,
            ;
            lemma_pow2_adds((e + 1) as nat, (23 - e) as nat);
            assert((e + 127) * pow2(23) + v * pow2((23 - e) as nat) - pow2(23) < (e + 128) * pow2(
                23,
            ) < pow2(31)) by (nonlinear_arith)
                requires
                    v * pow2((23 - e) as nat) < pow2(24),
                    pow2(24) == 0x1000000,
                    pow2(23) == 0x800000,
                    pow2(31) == 0x80000000,
                    e <= 23,
                    v >= 1,
                    pow2((23 - e) as nat) >= 1,
            ;
        } else {
            let s = (e - 23) as nat;
            let q = (v as int) / (pow2(s) as int);
            lemma_pow2_adds(24, s);
            lemma_multiply_divide_lt(v as int, pow2(s) as int, pow2(24) as int);
            assert(q < pow2(24));
            assert((e + 128) * pow2(23) <= 191 * pow2(23)) by (nonlinear_arith)
                requires
                    e <= 63,
                    pow2(23) >= 1,
            ;
            assert(191 * pow2(23) < pow2(31));
        }
    }
}

/// Appends the four little-endian bytes of a 32-bit pattern.
pub(crate) fn push_le_bytes(out: &mut Vec<u8>, bits: u32)
    ensures
        final(out)@ == old(out)@ + le_bytes_32(bits as nat),
{
    out.push((bits % 256) as u8);
    out.push(((bits / 256) % 256) as u8);
    out.push(((bits / 65536) % 256) as u8);
    out.push(((bits / 16777216) % 256) as u8);
    proof {
        assert(out@ =~= old(out)@ + le_bytes_32(bits as nat));
    }
}

} // verus!
