//! Fixed-point numbers with sixteen fractional bits.
//!
//! Progress values, curve control points and geometry are all expressed in
//! these units: the integer `ONE` stands for the real number 1.
use vstd::prelude::*;
use vstd::arithmetic::div_mod::lemma_fundamental_div_mod_converse;

verus! {

/// The fixed-point representation of 1.
pub const ONE: i64 = 65536;

/// Floor division of a signed value by a positive divisor.
pub fn floor_div(a: i128, b: i128) -> (r: i128)
    requires
        b > 0,
        a > i128::MIN,
    ensures
        r == a / b,
{
    if a >= 0 {
        a / b
    } else {
        let n: i128 = -a;
        let q: i128 = n / b;
        let rem: i128 = n % b;
        assert(n == q * b + rem) by (nonlinear_arith)
            requires q == n / b, rem == n % b, b > 0, n > 0;
        if rem == 0 {
            assert(a == (-q) * b) by (nonlinear_arith)
                requires n == q * b + rem, rem == 0, a == -n;
            proof { lemma_fundamental_div_mod_converse(a as int, b as int, -q as int, 0); }
            -q
        } else {
            assert(a == (-q - 1) * b + (b - rem)) by (nonlinear_arith)
                requires n == q * b + rem, a == -n;
            proof {
                lemma_fundamental_div_mod_converse(a as int, b as int, -q - 1, (b - rem) as int);
            }
            -q - 1
        }
    }
}

} // verus!
