//! Widening of narrow floating-point items. The value model holds every float
//! as the bit pattern of an IEEE-754 binary64 number, so a binary16 or binary32
//! item is widened by laying its sign, exponent and fraction out again in the
//! wider format: exactly, since every narrow number is a binary64 number. A NaN
//! keeps its payload and comes out quiet.
use vstd::prelude::*;
use vstd::arithmetic::power2::{lemma2_to64, lemma2_to64_rest, lemma_pow2_adds, lemma_pow2_pos, lemma_pow2_unfold, pow2};
use vstd::arithmetic::div_mod::lemma_fundamental_div_mod_converse;

verus! {

/// The binary64 layout of a subnormal fraction `f` (exponent `e` biased for
/// binary64): shifted up, one place and one exponent step at a time, at most
/// `n` times, until the bit of weight `one` (the hidden bit) is reached; the
/// fraction below it is then moved into place by multiplying by `shift`.
pub open spec fn normalized(f: nat, e: nat, one: nat, shift: nat, n: nat) -> nat
    decreases n,
{
    if f >= one || n == 0 || e == 0 {
        (e * 0x10_0000_0000_0000 + (if f >= one { f - one } else { 0 }) * shift) as nat
    } else {
        normalized(f * 2, (e - 1) as nat, one, shift, (n - 1) as nat)
    }
}

/// The binary64 fraction of a NaN or infinity: the narrow fraction moved into
/// place, with the quiet bit set for a NaN.
pub open spec fn quieted(frac: nat, moved: nat) -> nat {
    if frac != 0 && moved < 0x8_0000_0000_0000 {
        moved + 0x8_0000_0000_0000
    } else {
        moved
    }
}

/// The binary64 bits of the binary32 number whose bits are `raw`
/// (`lemma_widen_single_exact` shows they denote the same number).
pub open spec fn widen_single(raw: nat) -> nat {
    let sign = raw / 0x8000_0000;
    let exp = (raw / 0x80_0000) % 0x100;
    let frac = raw % 0x80_0000;
    sign * 0x8000_0000_0000_0000 + if exp == 0xff {
        0x7ff0_0000_0000_0000 + quieted(frac, frac * 0x2000_0000)
    } else if exp == 0 {
        if frac == 0 {
            0
        } else {
            normalized(frac, 897, 0x80_0000, 0x2000_0000, 23)
        }
    } else {
        (exp + 896) * 0x10_0000_0000_0000 + frac * 0x2000_0000
    }
}

/// The binary64 bits of the binary16 number whose bits are `raw`
/// (`lemma_widen_half_exact` shows they denote the same number).
pub open spec fn widen_half(raw: nat) -> nat {
    let sign = raw / 0x8000;
    let exp = (raw / 0x400) % 0x20;
    let frac = raw % 0x400;
    sign * 0x8000_0000_0000_0000 + if exp == 0x1f {
        0x7ff0_0000_0000_0000 + quieted(frac, frac * 0x400_0000_0000)
    } else if exp == 0 {
        if frac == 0 {
            0
        } else {
            normalized(frac, 1009, 0x400, 0x400_0000_0000, 10)
        }
    } else {
        (exp + 1008) * 0x10_0000_0000_0000 + frac * 0x400_0000_0000
    }
}

fn normalize(frac: u64, e0: u64, one: u64, shift: u64, steps: u64) -> (r: u64)
    requires
        (one == 0x80_0000 && shift == 0x2000_0000 && e0 == 897 && steps == 23) || (one == 0x400
            && shift == 0x400_0000_0000 && e0 == 1009 && steps == 10),
        0 < frac < one,
    ensures
        r == normalized(frac as nat, e0 as nat, one as nat, shift as nat, steps as nat),
        r < 0x4000_0000_0000_0000,
{
    let mut f = frac;
    let mut e = e0;
    let mut n = steps;
    while !(f >= one || n == 0 || e == 0)
        invariant
            (one == 0x80_0000 && shift == 0x2000_0000 && e0 == 897 && steps == 23) || (one == 0x400
                && shift == 0x400_0000_0000 && e0 == 1009 && steps == 10),
            0 < f < 2 * one,
            n <= steps,
            e == e0 - (steps - n),
            normalized(frac as nat, e0 as nat, one as nat, shift as nat, steps as nat) == normalized(
                f as nat,
                e as nat,
                one as nat,
                shift as nat,
                n as nat,
            ),
        decreases n,
    {
        f = f * 2;
        e = e - 1;
        n = n - 1;
    }
    let low = if f >= one {
        f - one
    } else {
        0
    };
    assert(low * shift < 0x10_0000_0000_0000) by (nonlinear_arith)
        requires
            low < one,
            (one == 0x80_0000 && shift == 0x2000_0000) || (one == 0x400 && shift == 0x400_0000_0000),
    ;
    e * 0x10_0000_0000_0000 + low * shift
}

/// Widens a binary32 bit pattern to binary64.
pub fn widen_single_bits(raw: u32) -> (r: u64)
    ensures
        r == widen_single(raw as nat),
{
    let raw = raw as u64;
    let sign = raw / 0x8000_0000;
    let exp = (raw / 0x80_0000) % 0x100;
    let frac = raw % 0x80_0000;
    let magnitude: u64 = if exp == 0xff {
        let moved = frac * 0x2000_0000;
        if frac != 0 && moved < 0x8_0000_0000_0000 {
            0x7ff0_0000_0000_0000 + moved + 0x8_0000_0000_0000
        } else {
            0x7ff0_0000_0000_0000 + moved
        }
    } else if exp == 0 {
        if frac == 0 {
            0
        } else {
            normalize(frac, 897, 0x80_0000, 0x2000_0000, 23)
        }
    } else {
        (exp + 896) * 0x10_0000_0000_0000 + frac * 0x2000_0000
    };
    sign * 0x8000_0000_0000_0000 + magnitude
}

/// Widens a binary16 bit pattern to binary64.
pub fn widen_half_bits(raw: u16) -> (r: u64)
    ensures
        r == widen_half(raw as nat),
{
    let raw = raw as u64;
    let sign = raw / 0x8000;
    let exp = (raw / 0x400) % 0x20;
    let frac = raw % 0x400;
    let magnitude: u64 = if exp == 0x1f {
        let moved = frac * 0x400_0000_0000;
        if frac != 0 && moved < 0x8_0000_0000_0000 {
            0x7ff0_0000_0000_0000 + moved + 0x8_0000_0000_0000
        } else {
            0x7ff0_0000_0000_0000 + moved
        }
    } else if exp == 0 {
        if frac == 0 {
            0
        } else {
            normalize(frac, 1009, 0x400, 0x400_0000_0000, 10)
        }
    } else {
        (exp + 1008) * 0x10_0000_0000_0000 + frac * 0x400_0000_0000
    };
    sign * 0x8000_0000_0000_0000 + magnitude
}


/// The magnitude of the finite binary64 number whose bits are `bits`, times
/// 2^1074 (a whole number for every binary64 number): the significand (with
/// its hidden bit when the exponent field is not 0) shifted by the exponent.
pub open spec fn scaled_double(bits: nat) -> nat {
    let e = (bits / 0x10_0000_0000_0000) % 0x800;
    let f = bits % 0x10_0000_0000_0000;
    if e == 0 {
        f
    } else {
        (0x10_0000_0000_0000 + f) * pow2((e - 1) as nat)
    }
}

/// The magnitude of the finite binary32 number whose bits are `raw`, times 2^1074.
pub open spec fn scaled_single(raw: nat) -> nat {
    let e = (raw / 0x80_0000) % 0x100;
    let f = raw % 0x80_0000;
    if e == 0 {
        f * pow2(925)
    } else {
        (0x80_0000 + f) * pow2((e + 924) as nat)
    }
}

/// The magnitude of the finite binary16 number whose bits are `raw`, times 2^1074.
pub open spec fn scaled_half(raw: nat) -> nat {
    let e = (raw / 0x400) % 0x20;
    let f = raw % 0x400;
    if e == 0 {
        f * pow2(1050)
    } else {
        (0x400 + f) * pow2((e + 1049) as nat)
    }
}

proof fn lemma_fields(s: nat, e: nat, f: nat)
    requires
        s <= 1,
        e < 0x800,
        f < 0x10_0000_0000_0000,
    ensures
        (s * 0x8000_0000_0000_0000 + e * 0x10_0000_0000_0000 + f) / 0x8000_0000_0000_0000 == s,
        ((s * 0x8000_0000_0000_0000 + e * 0x10_0000_0000_0000 + f) / 0x10_0000_0000_0000) % 0x800 == e,
        (s * 0x8000_0000_0000_0000 + e * 0x10_0000_0000_0000 + f) % 0x10_0000_0000_0000 == f,
{
    let x = s * 0x8000_0000_0000_0000 + e * 0x10_0000_0000_0000 + f;
    lemma_fundamental_div_mod_converse(x as int, 0x8000_0000_0000_0000, s as int, (e * 0x10_0000_0000_0000 + f) as int);
    lemma_fundamental_div_mod_converse(x as int, 0x10_0000_0000_0000, (s * 0x800 + e) as int, f as int);
    lemma_fundamental_div_mod_converse((s * 0x800 + e) as int, 0x800, s as int, e as int);
}

proof fn lemma_normalized_value(f: nat, e: nat, one: nat, shift: nat, n: nat)
    requires
        one * shift == 0x10_0000_0000_0000,
        one >= 1,
        0 < f < 2 * one,
        f * pow2(n) >= one,
        e >= n + 1,
        e < 0x7ff,
    ensures
        ({
            let r = normalized(f, e, one, shift, n);
            let big = r / 0x10_0000_0000_0000;
            &&& 1 <= big < 0x7ff
            &&& (0x10_0000_0000_0000 + r % 0x10_0000_0000_0000) * pow2((big - 1) as nat) == f * shift
                * pow2((e - 1) as nat)
        }),
    decreases n,
{
    if f >= one {
        let low = (f - one) as nat;
        assert(low * shift < 0x10_0000_0000_0000) by (nonlinear_arith)
            requires
                low < one,
                one * shift == 0x10_0000_0000_0000,
        ;
        let r = e * 0x10_0000_0000_0000 + low * shift;
        assert(normalized(f, e, one, shift, n) == r);
        lemma_fields(0, e, low * shift);
        assert(0x10_0000_0000_0000 + low * shift == f * shift) by (nonlinear_arith)
            requires
                low + one == f,
                one * shift == 0x10_0000_0000_0000,
        ;
    } else {
        if n == 0 {
            lemma2_to64();
            assert(false);
        }
        lemma_pow2_unfold(n);
        assert((f * 2) * pow2((n - 1) as nat) >= one) by (nonlinear_arith)
            requires
                f * pow2(n) >= one,
                pow2(n) == 2 * pow2((n - 1) as nat),
        ;
        lemma_normalized_value(f * 2, (e - 1) as nat, one, shift, (n - 1) as nat);
        lemma_pow2_unfold((e - 1) as nat);
        assert((f * 2) * shift * pow2((e - 2) as nat) == f * shift * pow2((e - 1) as nat)) by (nonlinear_arith)
            requires
                pow2((e - 1) as nat) == 2 * pow2((e - 2) as nat),
        ;
    }
}

/// Widening keeps the sign; an infinity stays an infinity and a NaN stays a
/// NaN with its payload, made quiet; every other number stays finite and keeps
/// its value exactly.
pub proof fn lemma_widen_single_exact(raw: nat)
    requires
        raw < 0x1_0000_0000,
    ensures
        ({
            let r = widen_single(raw);
            let exp = (raw / 0x80_0000) % 0x100;
            let frac = raw % 0x80_0000;
            &&& r / 0x8000_0000_0000_0000 == raw / 0x8000_0000
            &&& exp == 0xff ==> (r / 0x10_0000_0000_0000) % 0x800 == 0x7ff && r % 0x10_0000_0000_0000
                == quieted(frac, frac * 0x2000_0000)
            &&& exp != 0xff ==> (r / 0x10_0000_0000_0000) % 0x800 != 0x7ff && scaled_double(r)
                == scaled_single(raw)
        }),
{
    let sign = raw / 0x8000_0000;
    let exp = (raw / 0x80_0000) % 0x100;
    let frac = raw % 0x80_0000;
    lemma2_to64();
    if exp == 0xff {
        lemma_fields(sign, 0x7ff, quieted(frac, frac * 0x2000_0000));
    } else if exp == 0 {
        if frac == 0 {
            lemma_fields(sign, 0, 0);
        } else {
            lemma_pow2_pos(23);
            assert(frac * pow2(23) >= 0x80_0000) by (nonlinear_arith)
                requires
                    frac >= 1,
                    pow2(23) == 0x80_0000,
            ;
            lemma_normalized_value(frac, 897, 0x80_0000, 0x2000_0000, 23);
            let m = normalized(frac, 897, 0x80_0000, 0x2000_0000, 23);
            let big = m / 0x10_0000_0000_0000;
            let low = m % 0x10_0000_0000_0000;
            lemma_fundamental_div_mod_converse(m as int, 0x10_0000_0000_0000, big as int, low as int);
            lemma_fields(sign, big, low);
            lemma_pow2_adds(29, 896);
            assert(frac * 0x2000_0000 * pow2(896) == frac * pow2(925)) by (nonlinear_arith)
                requires
                    pow2(925) == pow2(29) * pow2(896),
                    pow2(29) == 0x2000_0000,
            ;
        }
    } else {
        let big = exp + 896;
        let low = frac * 0x2000_0000;
        lemma_fields(sign, big, low);
        lemma_pow2_adds(29, (exp + 895) as nat);
        assert((0x10_0000_0000_0000 + low) * pow2((big - 1) as nat) == (0x80_0000 + frac) * pow2(
            (exp + 924) as nat,
        )) by (nonlinear_arith)
            requires
                low == frac * 0x2000_0000,
                big - 1 == exp + 895,
                pow2((exp + 924) as nat) == pow2(29) * pow2((exp + 895) as nat),
                pow2(29) == 0x2000_0000,
        ;
    }
}

/// Widening keeps the sign; an infinity stays an infinity and a NaN stays a
/// NaN with its payload, made quiet; every other number stays finite and keeps
/// its value exactly.
pub proof fn lemma_widen_half_exact(raw: nat)
    requires
        raw < 0x1_0000,
    ensures
        ({
            let r = widen_half(raw);
            let exp = (raw / 0x400) % 0x20;
            let frac = raw % 0x400;
            &&& r / 0x8000_0000_0000_0000 == raw / 0x8000
            &&& exp == 0x1f ==> (r / 0x10_0000_0000_0000) % 0x800 == 0x7ff && r % 0x10_0000_0000_0000
                == quieted(frac, frac * 0x400_0000_0000)
            &&& exp != 0x1f ==> (r / 0x10_0000_0000_0000) % 0x800 != 0x7ff && scaled_double(r)
                == scaled_half(raw)
        }),
{
    let sign = raw / 0x8000;
    let exp = (raw / 0x400) % 0x20;
    let frac = raw % 0x400;
    lemma2_to64();
    lemma2_to64_rest();
    if exp == 0x1f {
        lemma_fields(sign, 0x7ff, quieted(frac, frac * 0x400_0000_0000));
    } else if exp == 0 {
        if frac == 0 {
            lemma_fields(sign, 0, 0);
        } else {
            assert(frac * pow2(10) >= 0x400) by (nonlinear_arith)
                requires
                    frac >= 1,
                    pow2(10) == 0x400,
            ;
            lemma_normalized_value(frac, 1009, 0x400, 0x400_0000_0000, 10);
            let m = normalized(frac, 1009, 0x400, 0x400_0000_0000, 10);
            let big = m / 0x10_0000_0000_0000;
            let low = m % 0x10_0000_0000_0000;
            lemma_fundamental_div_mod_converse(m as int, 0x10_0000_0000_0000, big as int, low as int);
            lemma_fields(sign, big, low);
            lemma_pow2_adds(42, 1008);
            assert(frac * 0x400_0000_0000 * pow2(1008) == frac * pow2(1050)) by (nonlinear_arith)
                requires
                    pow2(1050) == pow2(42) * pow2(1008),
                    pow2(42) == 0x400_0000_0000,
            ;
        }
    } else {
        let big = exp + 1008;
        let low = frac * 0x400_0000_0000;
        lemma_fields(sign, big, low);
        lemma_pow2_adds(42, (exp + 1007) as nat);
        assert((0x10_0000_0000_0000 + low) * pow2((big - 1) as nat) == (0x400 + frac) * pow2(
            (exp + 1049) as nat,
        )) by (nonlinear_arith)
            requires
                low == frac * 0x400_0000_0000,
                big - 1 == exp + 1007,
                pow2((exp + 1049) as nat) == pow2(42) * pow2((exp + 1007) as nat),
                pow2(42) == 0x400_0000_0000,
        ;
    }
}

} // verus!
