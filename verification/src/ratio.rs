//! Greatest common divisor and exact reduction of a rational to machine
//! width. The clustering coefficient folds a sum of per-node fractions; each
//! step reduces by the gcd so the exact value stays representable far longer
//! than the raw cross-multiplied form would.

use vstd::prelude::*;

use crate::Ratio;

verus! {

/// Euclid's greatest common divisor.
pub open spec fn gcd(a: nat, b: nat) -> nat
    decreases b,
{
    if b == 0 {
        a
    } else {
        gcd(b, a % b)
    }
}

/// The gcd of two numbers, one of them positive, is positive.
pub proof fn lemma_gcd_pos(a: nat, b: nat)
    ensures
        a > 0 || b > 0 ==> gcd(a, b) > 0,
    decreases b,
{
    if b > 0 {
        lemma_gcd_pos(b, a % b);
    }
}

/// The gcd divides both of its arguments.
pub proof fn lemma_gcd_divides(a: nat, b: nat)
    ensures
        gcd(a, b) > 0 ==> (a as int) % (gcd(a, b) as int) == 0,
        gcd(a, b) > 0 ==> (b as int) % (gcd(a, b) as int) == 0,
    decreases b,
{
    let g = gcd(a, b) as int;
    if b == 0 {
        if a > 0 {
            vstd::arithmetic::div_mod::lemma_mod_self_0(a as int);
            vstd::arithmetic::div_mod::lemma_small_mod(0, a);
        }
    } else {
        lemma_gcd_divides(b, a % b);
        if g > 0 {
            vstd::arithmetic::div_mod::lemma_fundamental_div_mod(a as int, b as int);
            vstd::arithmetic::div_mod::lemma_fundamental_div_mod(b as int, g);
            // a == g * ((b / g) * (a / b)) + a % b
            assert(a as int == g * ((b as int / g) * (a as int / b as int)) + (a as int % b as int))
                by (nonlinear_arith)
                requires
                    a as int == (b as int) * (a as int / b as int) + (a as int % b as int),
                    b as int == g * (b as int / g),
            ;
            vstd::arithmetic::div_mod::lemma_mod_multiples_vanish(
                (b as int / g) * (a as int / b as int),
                (a % b) as int,
                g,
            );
        }
    }
}

/// Euclid's algorithm.
pub(crate) fn gcd_u128(a: u128, b: u128) -> (g: u128)
    ensures
        g as nat == gcd(a as nat, b as nat),
{
    let mut x = a;
    let mut y = b;
    while y != 0
        invariant
            gcd(x as nat, y as nat) == gcd(a as nat, b as nat),
        decreases y,
    {
        let t = x % y;
        x = y;
        y = t;
    }
    x
}

/// `num0 / den0` is `rt` scaled by the positive integer factor `g`: the two
/// denote the same rational number.
pub open spec fn scales(g: int, num0: int, den0: int, rt: Ratio) -> bool {
    &&& 1 <= g
    &&& num0 == g * (rt.num as int)
    &&& den0 == g * (rt.den as int)
    &&& rt.den > 0
}

/// Reduces `num0 / den0` by the gcd and returns it as a `Ratio` when the
/// reduced parts fit in `u64` — in particular whenever the unreduced parts
/// already fit. The result denotes exactly the same rational: both inputs
/// are the outputs scaled by one positive factor.
pub(crate) fn ratio_reduce_fit(num0: u128, den0: u128) -> (r: Option<Ratio>)
    requires
        den0 > 0,
    ensures
        r is Some ==> exists|g: int|
            #[trigger] scales(g, num0 as int, den0 as int, r->Some_0),
        num0 <= u64::MAX && den0 <= u64::MAX ==> r is Some,
{
    let g = gcd_u128(num0, den0);
    proof {
        lemma_gcd_pos(num0 as nat, den0 as nat);
        lemma_gcd_divides(num0 as nat, den0 as nat);
        assert(g > 0);
        vstd::arithmetic::div_mod::lemma_fundamental_div_mod(num0 as int, g as int);
        vstd::arithmetic::div_mod::lemma_fundamental_div_mod(den0 as int, g as int);
    }
    let rn = num0 / g;
    let rd = den0 / g;
    proof {
        assert(num0 as int == (g as int) * (rn as int));
        assert(den0 as int == (g as int) * (rd as int));
        assert(rd > 0) by (nonlinear_arith)
            requires
                den0 as int == (g as int) * (rd as int),
                den0 > 0,
                g > 0,
                rd >= 0,
        ;
        assert(rn <= num0) by (nonlinear_arith)
            requires
                num0 as int == (g as int) * (rn as int),
                g >= 1,
                rn >= 0,
        ;
        assert(rd <= den0) by (nonlinear_arith)
            requires
                den0 as int == (g as int) * (rd as int),
                g >= 1,
                rd >= 0,
        ;
    }
    if rn <= u64::MAX as u128 && rd <= u64::MAX as u128 {
        let rt = Ratio { num: rn as u64, den: rd as u64 };
        let r = Some(rt);
        proof {
            assert(r->Some_0 == rt);
            assert(scales(g as int, num0 as int, den0 as int, r->Some_0));
        }
        r
    } else {
        None
    }
}

} // verus!
