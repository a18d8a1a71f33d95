//! IEEE-754 numbers as bit patterns: the exact widening of a 32-bit pattern
//! to the 64-bit pattern of the same number, and its partial inverse.
//!
//! A 32-bit pattern is a sign bit, 8 exponent bits and 23 fraction bits; a
//! 64-bit pattern is a sign bit, 11 exponent bits and 52 fraction bits.
//! Infinities and NaNs keep their sign and their fraction bits.

use vstd::prelude::*;

verus! {

/// Doubles `m` until it reaches 2^23, and lowers `e` by one for each
/// doubling: the number `m * 2^e` stays the same.
pub open spec fn normalize(m: int, e: int) -> (int, int)
    decreases 0x100_0000 - m,
    when m > 0
{
    if m >= 0x80_0000 {
        (m, e)
    } else {
        normalize(2 * m, e - 1)
    }
}

/// Halves `m` while `e` is below 897, and raises `e` by one for each
/// halving; `None` if an odd `m` would have to be halved.
pub open spec fn denormalize(m: int, e: int) -> Option<int>
    decreases 897 - e,
{
    if e >= 897 {
        Some(m)
    } else if m % 2 != 0 {
        None
    } else {
        denormalize(m / 2, e + 1)
    }
}

/// The 64-bit pattern without its sign of the number whose 32-bit pattern
/// has the exponent bits `e` and the fraction bits `m`.
pub open spec fn widen_magnitude(e: int, m: int) -> int {
    if e == 0xff {
        0x7ff * 0x10_0000_0000_0000 + m * 0x2000_0000
    } else if e > 0 {
        (e + 896) * 0x10_0000_0000_0000 + m * 0x2000_0000
    } else if m == 0 {
        0
    } else {
        let (mm, ee) = normalize(m, 897);
        ee * 0x10_0000_0000_0000 + (mm - 0x80_0000) * 0x2000_0000
    }
}

/// The 64-bit pattern of the number whose 32-bit pattern is `f`.
pub open spec fn widened(f: u32) -> u64 {
    ((f / 0x8000_0000) * 0x8000_0000_0000_0000 + widen_magnitude(
        ((f / 0x80_0000) % 0x100) as int,
        (f % 0x80_0000) as int,
    )) as u64
}

/// The 32-bit pattern that widens to `d`, if there is one.
pub open spec fn narrowed(d: u64) -> Option<u32> {
    if exists|f: u32| widened(f) == d {
        Some(choose|f: u32| widened(f) == d)
    } else {
        None
    }
}

/// The 32-bit pattern without its sign that widens to the 64-bit pattern
/// with the exponent bits `e` and the fraction bits `m`, if there is one.
pub open spec fn narrow_magnitude(e: int, m: int) -> Option<int> {
    if m % 0x2000_0000 != 0 {
        None
    } else if e == 0x7ff {
        Some(0x7f80_0000 + m / 0x2000_0000)
    } else if e == 0 {
        if m == 0 {
            Some(0)
        } else {
            None
        }
    } else if 897 <= e <= 1150 {
        Some((e - 896) * 0x80_0000 + m / 0x2000_0000)
    } else if 874 <= e <= 896 {
        denormalize(0x80_0000 + m / 0x2000_0000, e)
    } else {
        None
    }
}

/// The same as [`narrowed`], by calculation.
pub open spec fn narrow_calc(d: u64) -> Option<u32> {
    match narrow_magnitude(
        ((d / 0x10_0000_0000_0000) % 0x800) as int,
        (d % 0x10_0000_0000_0000) as int,
    ) {
        Some(mag) => Some(((d / 0x8000_0000_0000_0000) * 0x8000_0000 + mag) as u32),
        None => None,
    }
}

spec fn pow2(k: int) -> int
    decreases k,
{
    if k <= 0 {
        1
    } else {
        2 * pow2(k - 1)
    }
}

/// Normalizing `m`, which `k` doublings bring to 2^23 or above, takes at
/// most `k` steps, and denormalizing takes them back.
proof fn lemma_normalize(m: int, e: int, k: int)
    requires
        0 < m < 0x100_0000,
        e <= 897,
        0 <= k,
        m * pow2(k) >= 0x80_0000,
    ensures
        0x80_0000 <= normalize(m, e).0 < 0x100_0000,
        e - k <= normalize(m, e).1 <= e,
        m < 0x80_0000 ==> normalize(m, e).1 < e,
        denormalize(normalize(m, e).0, normalize(m, e).1) == denormalize(m, e),
    decreases 0x100_0000 - m,
{
    if m < 0x80_0000 {
        assert(k > 0);
        assert(pow2(k) == 2 * pow2(k - 1));
        assert((2 * m) * pow2(k - 1) == m * pow2(k)) by (nonlinear_arith)
            requires
                pow2(k) == 2 * pow2(k - 1),
        ;
        lemma_normalize(2 * m, e - 1, k - 1);
        assert(denormalize(2 * m, e - 1) == denormalize(m, e));
    }
}

/// What denormalizing yields normalizes to where it came from.
proof fn lemma_denormalize(mm: int, e: int, m: int)
    requires
        0 < mm < 0x100_0000,
        e <= 897,
        denormalize(mm, e) == Some(m),
    ensures
        normalize(m, 897) == normalize(mm, e),
        0 < m <= mm,
        e < 897 ==> m < 0x80_0000,
    decreases 897 - e,
{
    if e < 897 {
        lemma_denormalize(mm / 2, e + 1, m);
        assert(normalize(mm / 2, e + 1) == normalize(mm, e));
    }
}

/// Narrowing undoes widening.
#[verifier::rlimit(50)]
pub proof fn lemma_narrow_widen(f: u32)
    ensures
        narrow_calc(widened(f)) == Some(f),
{
    let e = (f / 0x80_0000) % 0x100;
    let m = f % 0x80_0000;
    if e == 0 && m != 0 {
        assert(pow2(23) == 0x80_0000) by {
            reveal_with_fuel(pow2, 24);
        }
        lemma_normalize(m as int, 897, 23);
    }
}

/// What narrowing yields widens to where it came from.
#[verifier::rlimit(50)]
pub proof fn lemma_widen_narrow(d: u64, f: u32)
    requires
        narrow_calc(d) == Some(f),
    ensures
        widened(f) == d,
{
    let e = (d / 0x10_0000_0000_0000) % 0x800;
    let m = d % 0x10_0000_0000_0000;
    if m % 0x2000_0000 == 0 && 874 <= e <= 896 {
        let mm = 0x80_0000 + m / 0x2000_0000;
        let m32 = denormalize(mm, e as int).unwrap();
        lemma_denormalize(mm, e as int, m32);
    }
}

/// The calculation finds the pattern that widens to `d` exactly when there
/// is one.
pub proof fn lemma_narrow_calc(d: u64)
    ensures
        narrowed(d) == narrow_calc(d),
{
    match narrow_calc(d) {
        Some(f) => {
            lemma_widen_narrow(d, f);
            let g = choose|g: u32| widened(g) == d;
            lemma_narrow_widen(g);
        },
        None => {
            assert forall|g: u32| widened(g) != d by {
                lemma_narrow_widen(g);
            }
        },
    }
}

/// Widening is exact: different 32-bit patterns widen to different 64-bit
/// patterns, and narrowing a widened pattern gives it back.
pub proof fn lemma_narrow_inverts_widen(f: u32)
    ensures
        narrowed(widened(f)) == Some(f),
{
    lemma_narrow_calc(widened(f));
    lemma_narrow_widen(f);
}

/// A pattern that narrows is the widening of what it narrows to.
pub proof fn lemma_widen_inverts_narrow(d: u64)
    ensures
        narrowed(d) matches Some(f) ==> widened(f) == d,
{
}

/// The 64-bit pattern of the number whose 32-bit pattern is `f`.
pub fn widen(f: u32) -> (d: u64)
    ensures
        d == widened(f),
{
    let sign: u64 = (f / 0x8000_0000) as u64 * 0x8000_0000_0000_0000;
    let e: u64 = ((f / 0x80_0000) % 0x100) as u64;
    let m: u64 = (f % 0x80_0000) as u64;
    if e == 0xff {
        sign + 0x7ff * 0x10_0000_0000_0000 + m * 0x2000_0000
    } else if e > 0 {
        sign + (e + 896) * 0x10_0000_0000_0000 + m * 0x2000_0000
    } else if m == 0 {
        sign
    } else {
        let mut mm: u64 = m;
        let mut ee: u64 = 897;
        proof {
            assert(pow2(23) == 0x80_0000) by {
                reveal_with_fuel(pow2, 24);
            }
            lemma_normalize(m as int, 897, 23);
        }
        while mm < 0x80_0000
            invariant
                0 < mm < 0x100_0000,
                874 <= normalize(mm as int, ee as int).1,
                ee <= 897,
                normalize(mm as int, ee as int) == normalize(m as int, 897),
            decreases 0x100_0000 - mm,
        {
            proof {
                assert(pow2(23) == 0x80_0000) by {
                    reveal_with_fuel(pow2, 24);
                }
                lemma_normalize(2 * mm as int, ee as int - 1, 23);
            }
            mm = 2 * mm;
            ee = ee - 1;
        }
        sign + ee * 0x10_0000_0000_0000 + (mm - 0x80_0000) * 0x2000_0000
    }
}

/// The 32-bit pattern that widens to `d`; `None` if the number that `d`
/// stands for has no 32-bit pattern.
#[verifier::loop_isolation(false)]
pub fn narrow(d: u64) -> (r: Option<u32>)
    ensures
        r == narrowed(d),
{
    proof {
        lemma_narrow_calc(d);
    }
    let sign: u32 = (d / 0x8000_0000_0000_0000) as u32 * 0x8000_0000;
    let e: u64 = (d / 0x10_0000_0000_0000) % 0x800;
    let m: u64 = d % 0x10_0000_0000_0000;
    if m % 0x2000_0000 != 0 {
        return None;
    }
    let frac: u32 = (m / 0x2000_0000) as u32;
    if e == 0x7ff {
        Some(sign + 0x7f80_0000 + frac)
    } else if e == 0 {
        if m == 0 {
            Some(sign)
        } else {
            None
        }
    } else if 897 <= e && e <= 1150 {
        Some(sign + ((e - 896) as u32) * 0x80_0000 + frac)
    } else if 874 <= e && e <= 896 {
        let mut mm: u32 = 0x80_0000 + frac;
        let mut ee: u64 = e;
        while ee < 897
            invariant
                874 <= ee <= 897,
                0 < mm < 0x100_0000,
                ee > e ==> mm < 0x80_0000,
                denormalize(mm as int, ee as int) == denormalize(0x80_0000 + frac, e as int),
            decreases 897 - ee,
        {
            if mm % 2 != 0 {
                return None;
            }
            mm = mm / 2;
            ee = ee + 1;
        }
        Some(sign + mm)
    } else {
        None
    }
}

} // verus!
