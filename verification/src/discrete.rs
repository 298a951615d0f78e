//! Discrete combinatorics helpers.

use vstd::prelude::*;

verus! {

/// The factorial as a mathematical value.
pub open spec fn fact(n: nat) -> nat
    decreases n,
{
    if n == 0 {
        1
    } else {
        n * fact((n - 1) as nat)
    }
}

pub proof fn lemma_fact_pos(n: nat)
    ensures
        fact(n) >= 1,
    decreases n,
{
    if n > 0 {
        lemma_fact_pos((n - 1) as nat);
        assert(n * fact((n - 1) as nat) >= 1) by (nonlinear_arith)
            requires
                n >= 1,
                fact((n - 1) as nat) >= 1,
        ;
    }
}

pub proof fn lemma_fact_mono(a: nat, b: nat)
    requires
        a <= b,
    ensures
        fact(a) <= fact(b),
    decreases b,
{
    if b > a {
        lemma_fact_mono(a, (b - 1) as nat);
        lemma_fact_pos((b - 1) as nat);
        assert(fact((b - 1) as nat) <= b * fact((b - 1) as nat)) by (nonlinear_arith)
            requires
                b >= 1,
                fact((b - 1) as nat) >= 1,
        ;
    }
}

/// `n!` by iterated multiplication.
pub fn factorial(n: u32) -> (r: u32)
    requires
        fact(n as nat) <= u32::MAX,
    ensures
        r as nat == fact(n as nat),
{
    let mut result: u32 = 1;
    let mut i: u32 = 0;
    while i < n
        invariant
            i <= n,
            fact(n as nat) <= u32::MAX,
            result as nat == fact(i as nat),
        decreases n - i,
    {
        i += 1;
        proof {
            lemma_fact_mono(i as nat, n as nat);
            assert(fact(i as nat) == (i as nat) * fact((i - 1) as nat));
            assert((result as nat) * (i as nat) == (i as nat) * (result as nat))
                by (nonlinear_arith);
        }
        result = result * i;
    }
    result
}

/// The number of ways to choose `k` of `n` items, by the factorial
/// formula.
pub fn combination(n: u32, k: u32) -> (r: u32)
    requires
        k <= n,
        fact(n as nat) <= u32::MAX,
    ensures
        r as nat == fact(n as nat) / (fact(k as nat) * fact((n - k) as nat)),
{
    proof {
        lemma_fact_pos(k as nat);
        lemma_fact_pos((n - k) as nat);
        lemma_fact_mono(k as nat, n as nat);
        lemma_fact_mono((n - k) as nat, n as nat);
        assert((fact(k as nat)) * (fact((n - k) as nat)) >= 1) by (nonlinear_arith)
            requires
                fact(k as nat) >= 1,
                fact((n - k) as nat) >= 1,
        ;
        assert((fact(k as nat)) * (fact((n - k) as nat)) <= u32::MAX * u32::MAX)
            by (nonlinear_arith)
            requires
                1 <= fact(k as nat) <= u32::MAX,
                1 <= fact((n - k) as nat) <= u32::MAX,
        ;
    }
    let fk = factorial(k) as u64;
    let fnk = factorial(n - k) as u64;
    let whole = factorial(n) as u64;
    let d = fk * fnk;
    let q = whole / d;
    proof {
        vstd::arithmetic::div_mod::lemma_fundamental_div_mod(whole as int, d as int);
        assert(q as int <= whole as int) by (nonlinear_arith)
            requires
                whole as int == (d as int) * (q as int) + (whole as int) % (d as int),
                (whole as int) % (d as int) >= 0,
                d as int >= 1,
                q as int >= 0,
        ;
    }
    q as u32
}

/// The number of ordered arrangements of `k` of `n` items.
pub fn permutation(n: u32, k: u32) -> (r: u32)
    requires
        k <= n,
        fact(n as nat) <= u32::MAX,
    ensures
        r as nat == fact(n as nat) / fact((n - k) as nat),
{
    proof {
        lemma_fact_pos((n - k) as nat);
        lemma_fact_mono((n - k) as nat, n as nat);
    }
    factorial(n) / factorial(n - k)
}

} // verus!
