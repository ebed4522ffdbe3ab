//! Human-readable size formatting.
//!
//! A size of at least 1 KiB is shown in the largest binary (IEC) unit up to TiB
//! that keeps the number at least 1, with two decimals. The number shown is the
//! byte count as a double-precision value (rounded to 53 significant bits,
//! ties to even) divided by the unit, rounded to two decimals with ties to
//! even — computed here exactly, in integers.

use vstd::prelude::*;
use vstd::arithmetic::power2::pow2;
use crate::text::{dec_digits, digit_char, push_char, push_decimal, push_str};

verus! {

/// 2^53: integers below it are exact doubles.
pub open spec fn exact_limit() -> nat {
    0x20_0000_0000_0000
}

/// How many low bits a double drops from `b`.
pub open spec fn f64_shift(b: nat) -> nat
    decreases b,
{
    if b < exact_limit() {
        0
    } else {
        1 + f64_shift(b / 2)
    }
}

/// `b` rounded to the nearest double (53 significant bits, ties to even).
pub open spec fn f64_round(b: nat) -> nat {
    let e = f64_shift(b);
    if e == 0 {
        b
    } else {
        let p = pow2(e);
        let q = b / p;
        let r = b % p;
        let h = p / 2;
        if r > h || (r == h && q % 2 == 1) {
            (q + 1) * p
        } else {
            q * p
        }
    }
}

/// `n / d` rounded to the nearest integer, ties to even.
pub open spec fn div_round_even(n: nat, d: nat) -> nat {
    let q = n / d;
    let r = n % d;
    if 2 * r > d || (2 * r == d && q % 2 == 1) {
        q + 1
    } else {
        q
    }
}

/// The unit a (rounded) size is shown in: 0 = B, 1 = KiB, ..., 4 = TiB.
pub open spec fn unit_index(m: nat) -> nat {
    if m < 1024 {
        0
    } else if m < 0x10_0000 {
        1
    } else if m < 0x4000_0000 {
        2
    } else if m < 0x100_0000_0000 {
        3
    } else {
        4
    }
}

/// The number of bytes in unit `k`.
pub open spec fn unit_size(k: nat) -> nat {
    if k == 0 {
        1
    } else if k == 1 {
        1024
    } else if k == 2 {
        0x10_0000
    } else if k == 3 {
        0x4000_0000
    } else {
        0x100_0000_0000
    }
}

pub open spec fn unit_name(k: nat) -> Seq<char> {
    if k == 0 {
        "B"@
    } else if k == 1 {
        "KiB"@
    } else if k == 2 {
        "MiB"@
    } else if k == 3 {
        "GiB"@
    } else {
        "TiB"@
    }
}

/// The text of `format_size(bytes)`.
pub open spec fn spec_format_size(bytes: nat) -> Seq<char> {
    if bytes < 1024 {
        dec_digits(bytes) + " B"@
    } else {
        let m = f64_round(bytes);
        let k = unit_index(m);
        let c = div_round_even(100 * m, unit_size(k));
        dec_digits(c / 100) + seq!['.', digit_char(((c % 100) / 10) as int), digit_char((c % 10) as int), ' ']
            + unit_name(k)
    }
}

/// `bytes` rounded to the nearest double, as an integer.
fn nearest_double(bytes: u64) -> (res: u128)
    ensures
        res == f64_round(bytes as nat),
        res <= 0x2_0000_0000_0000_0000,
{
    let b: u128 = bytes as u128;
    let mut t: u128 = b;
    let mut p: u128 = 1;
    let ghost mut e: nat = 0;
    proof {
        vstd::arithmetic::power2::lemma_pow2(0);
        assert(vstd::arithmetic::power::pow(2, 0) == 1) by {
            vstd::arithmetic::power::lemma_pow0(2);
        }
    }
    while t >= 0x20_0000_0000_0000
        invariant
            p == pow2(e),
            1 <= p,
            t == (b as int) / (p as int),
            f64_shift(b as nat) == e + f64_shift(t as nat),
            p <= b || e == 0,
            e == 0 <==> p == 1,
            b == bytes as u128,
        decreases t,
    {
        proof {
            vstd::arithmetic::div_mod::lemma_div_denominator(b as int, p as int, 2);
            vstd::arithmetic::power2::lemma_pow2_unfold(e + 1);
            assert(p * 2 <= b) by (nonlinear_arith)
                requires
                    t == (b as int) / (p as int),
                    t >= 0x20_0000_0000_0000,
                    p >= 1,
            {
                vstd::arithmetic::div_mod::lemma_fundamental_div_mod(b as int, p as int);
            }
        }
        t = t / 2;
        p = p * 2;
        proof {
            e = e + 1;
        }
    }
    if p == 1 {
        assert(f64_shift(b as nat) == 0);
        return b;
    }
    proof {
        vstd::arithmetic::div_mod::lemma_fundamental_div_mod(b as int, p as int);
        assert(t * p <= b) by (nonlinear_arith)
            requires
                t == (b as int) / (p as int),
                p >= 1,
                b == p * ((b as int) / (p as int)) + (b as int) % (p as int),
                (b as int) % (p as int) >= 0,
        {
        }
    }
    let q = t;
    let r = b - q * p;
    let h = p / 2;
    assert(r == (b as int) % (p as int));
    proof {
        assert((q + 1) * p <= 0x2_0000_0000_0000_0000) by (nonlinear_arith)
            requires
                q * p <= b,
                p <= b,
                b <= 0xffff_ffff_ffff_ffff,
        {
        }
    }
    if r > h || (r == h && q % 2 == 1) {
        (q + 1) * p
    } else {
        q * p
    }
}

/// Format a byte count with binary (IEC) units: `1536` -> `"1.50 KiB"`.
pub fn format_size(bytes: u64) -> (res: String)
    ensures
        res@ == spec_format_size(bytes as nat),
{
    let mut out = String::new();
    if bytes < 1024 {
        push_decimal(&mut out, bytes as u128);
        push_str(&mut out, " B");
        return out;
    }
    let m = nearest_double(bytes);
    let (k, size, name): (u8, u128, &str) = if m < 1024 {
        (0, 1, "B")
    } else if m < 0x10_0000 {
        (1, 1024, "KiB")
    } else if m < 0x4000_0000 {
        (2, 0x10_0000, "MiB")
    } else if m < 0x100_0000_0000 {
        (3, 0x4000_0000, "GiB")
    } else {
        (4, 0x100_0000_0000, "TiB")
    };
    assert(k == unit_index(m as nat));
    assert(size == unit_size(k as nat));
    assert(name@ == unit_name(k as nat));
    let n = 100 * m;
    let q = n / size;
    let r = n % size;
    let c = if 2 * r > size || (2 * r == size && q % 2 == 1) {
        q + 1
    } else {
        q
    };
    assert(c == div_round_even(n as nat, size as nat));
    push_decimal(&mut out, c / 100);
    push_char(&mut out, '.');
    let tens: u8 = ((c % 100) / 10) as u8;
    let ones: u8 = (c % 10) as u8;
    push_char(&mut out, (48u8 + tens) as char);
    push_char(&mut out, (48u8 + ones) as char);
    push_char(&mut out, ' ');
    push_str(&mut out, name);
    assert(out@ =~= spec_format_size(bytes as nat));
    out
}

/// A whole number `n` (`1 <= n < 1024`) of KiB, MiB, GiB or TiB is shown as
/// `n` with two zero decimals in that unit: five MiB reads
/// `5.00 MiB`.
pub proof fn lemma_format_size_whole_units(n: nat, k: nat)
    requires
        1 <= n < 1024,
        1 <= k <= 4,
    ensures
        spec_format_size(n * unit_size(k)) == dec_digits(n) + seq!['.', '0', '0', ' '] + unit_name(k),
{
    let u = unit_size(k);
    let b = n * u;
    if k == 1 {
        assert(b == n * 1024);
    } else if k == 2 {
        assert(b == n * 0x10_0000);
    } else if k == 3 {
        assert(b == n * 0x4000_0000);
    } else {
        assert(b == n * 0x100_0000_0000);
    }
    assert(b < exact_limit());
    assert(f64_shift(b) == 0);
    assert(f64_round(b) == b);
    assert(unit_index(b) == k);
    assert(100 * b == (100 * n) * u) by (nonlinear_arith)
        requires
            b == n * u,
    ;
    assert((100 * n) * u / u == 100 * n && ((100 * n) * u) % u == 0) by (nonlinear_arith)
        requires
            u > 0,
    ;
    assert(div_round_even(100 * b, u) == 100 * n);
    let c = 100 * n;
    assert(c / 100 == n);
    assert(c % 100 == 0);
    assert(c % 10 == 0);
    assert(digit_char(0) == '0');
}

} // verus!
