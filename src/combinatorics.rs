//! Factorials and binomial coefficients.
use vstd::arithmetic::div_mod::{
    lemma_fundamental_div_mod, lemma_fundamental_div_mod_converse, lemma_mod_pos_bound,
};
use vstd::prelude::*;

verus! {

#[derive(Debug, PartialEq)]
pub enum MathError {
    InvalidInput(String),
}

pub open spec fn fact(n: nat) -> nat
    decreases n,
{
    if n == 0 {
        1
    } else {
        n * fact((n - 1) as nat)
    }
}

/// The product `(lo + 1) * (lo + 2) * ... * hi` (`1` when `hi <= lo`).
pub open spec fn rising_product(lo: nat, hi: nat) -> nat
    decreases hi,
{
    if hi <= lo {
        1
    } else {
        hi * rising_product(lo, (hi - 1) as nat)
    }
}

/// The binomial coefficient `n! / (k! * (n - k)!)`, for `k <= n`.
pub open spec fn binomial(n: nat, k: nat) -> nat {
    fact(n) / (fact(k) * fact((n - k) as nat))
}

pub open spec fn max_nat(a: nat, b: nat) -> nat {
    if a >= b {
        a
    } else {
        b
    }
}

pub open spec fn min_nat(a: nat, b: nat) -> nat {
    if a <= b {
        a
    } else {
        b
    }
}

/// The decimal digit for `d < 10`.
pub open spec fn digit_char(d: nat) -> char {
    seq!['0', '1', '2', '3', '4', '5', '6', '7', '8', '9'][d as int]
}

/// The decimal notation of `x`, without leading zeros.
pub open spec fn decimal(x: nat) -> Seq<char>
    decreases x,
{
    if x < 10 {
        seq![digit_char(x)]
    } else {
        decimal(x / 10).push(digit_char(x % 10))
    }
}

/// The message of the error that `n_choose_k(n, k)` returns when `k > n`.
pub open spec fn choose_error_text(n: nat, k: nat) -> Seq<char> {
    "n choose k cannot have k > n, n: "@ + decimal(n) + ", k: "@ + decimal(k)
}

/// `r` is an `InvalidInput` error whose message is `text`.
pub open spec fn is_invalid_input<T>(r: Result<T, MathError>, text: Seq<char>) -> bool {
    match r {
        Err(MathError::InvalidInput(m)) => m@ == text,
        Ok(_) => false,
    }
}

/// Relies on `u128`'s `Display` through `ToString::to_string`: the decimal digits.
#[verifier::external_body]
fn decimal_string(x: u128) -> (r: String)
    ensures
        r@ == decimal(x as nat),
{
    x.to_string()
}

/// Relies on `<[&str]>::concat`: the two strings one after the other.
#[verifier::external_body]
fn concat(a: &str, b: &str) -> (r: String)
    ensures
        r@ == a@ + b@,
{
    [a, b].concat()
}

proof fn lemma_fact_positive(n: nat)
    ensures
        fact(n) >= 1,
    decreases n,
{
    if n > 0 {
        lemma_fact_positive((n - 1) as nat);
        assert(n * fact((n - 1) as nat) >= 1) by (nonlinear_arith)
            requires
                n >= 1,
                fact((n - 1) as nat) >= 1,
        ;
    }
}

proof fn lemma_fact_monotone(i: nat, n: nat)
    requires
        i <= n,
    ensures
        fact(i) <= fact(n),
    decreases n,
{
    if i < n {
        lemma_fact_monotone(i, (n - 1) as nat);
        lemma_fact_positive((n - 1) as nat);
        assert(fact((n - 1) as nat) <= n * fact((n - 1) as nat)) by (nonlinear_arith)
            requires
                n >= 1,
                fact((n - 1) as nat) >= 1,
        ;
    }
}

proof fn lemma_rising_monotone(lo: nat, i: nat, j: nat)
    requires
        i <= j,
    ensures
        1 <= rising_product(lo, i) <= rising_product(lo, j),
    decreases j,
{
    if i < j {
        lemma_rising_monotone(lo, i, (j - 1) as nat);
        if j > lo {
            let r = rising_product(lo, (j - 1) as nat);
            assert(r <= j * r) by (nonlinear_arith)
                requires
                    j >= 1,
                    r >= 1,
            ;
        }
    } else if i > lo {
        lemma_rising_monotone(lo, (i - 1) as nat, (i - 1) as nat);
        let r = rising_product(lo, (i - 1) as nat);
        assert(i * r >= 1) by (nonlinear_arith)
            requires
                i >= 1,
                r >= 1,
        ;
    }
}

/// `hi! == rising_product(lo, hi) * lo!`.
proof fn lemma_rising_fact(lo: nat, hi: nat)
    requires
        lo <= hi,
    ensures
        fact(hi) == rising_product(lo, hi) * fact(lo),
    decreases hi,
{
    if lo < hi {
        lemma_rising_fact(lo, (hi - 1) as nat);
        let r = rising_product(lo, (hi - 1) as nat);
        assert(fact(hi) == hi * fact((hi - 1) as nat));
        assert(rising_product(lo, hi) == hi * r);
        assert(hi * (r * fact(lo)) == (hi * r) * fact(lo)) by (nonlinear_arith);
        assert(fact((hi - 1) as nat) == r * fact(lo));
    } else {
        assert(rising_product(lo, hi) == 1);
    }
}

/// The `j` factors above `lo` multiply to at least `j!`.
proof fn lemma_rising_at_least_fact(lo: nat, j: nat)
    ensures
        fact(j) <= rising_product(lo, lo + j),
    decreases j,
{
    if j > 0 {
        lemma_rising_at_least_fact(lo, (j - 1) as nat);
        let a = fact((j - 1) as nat);
        let b = rising_product(lo, (lo + j - 1) as nat);
        assert(j * a <= (lo + j) * b) by (nonlinear_arith)
            requires
                a <= b,
                a >= 0,
        ;
    }
}

/// Returns `n!`.
pub fn factorial(n: u128) -> (r: u128)
    requires
        fact(n as nat) <= u128::MAX,
    ensures
        r == fact(n as nat),
{
    let mut r: u128 = 1;
    let mut i: u128 = 0;
    while i < n
        invariant
            i <= n,
            r == fact(i as nat),
            fact(n as nat) <= u128::MAX,
        decreases n - i,
    {
        i = i + 1;
        proof {
            lemma_fact_monotone(i as nat, n as nat);
            assert(fact(i as nat) == i * fact((i - 1) as nat));
            assert(r * i == i * r) by (nonlinear_arith);
        }
        r = r * i;
    }
    r
}

/// Returns the binomial coefficient "`n` choose `k`", or an `InvalidInput`
/// error when `k > n`.
///
/// The larger of `k!` and `(n - k)!` is cancelled before anything is
/// multiplied, so only the product of the remaining factors of `n!` has to
/// fit in a `u128`.
pub fn n_choose_k(n: u128, k: u128) -> (r: Result<u128, MathError>)
    requires
        k <= n ==> rising_product(max_nat(k as nat, (n - k) as nat), n as nat) <= u128::MAX,
    ensures
        k > n ==> is_invalid_input(r, choose_error_text(n as nat, k as nat)),
        k <= n ==> r == Ok::<u128, MathError>(binomial(n as nat, k as nat) as u128),
{
    if k > n {
        let head = concat("n choose k cannot have k > n, n: ", decimal_string(n).as_str());
        let middle = concat(head.as_str(), ", k: ");
        let text = concat(middle.as_str(), decimal_string(k).as_str());
        return Err(MathError::InvalidInput(text));
    }
    let min = if k <= n - k {
        k
    } else {
        n - k
    };
    let max = if k <= n - k {
        n - k
    } else {
        k
    };
    let ghost bound = rising_product(max as nat, n as nat);
    let mut dividend: u128 = 1;
    let mut i: u128 = max;
    while i < n
        invariant
            max <= i <= n,
            dividend == rising_product(max as nat, i as nat),
            bound == rising_product(max as nat, n as nat),
            bound <= u128::MAX,
        decreases n - i,
    {
        i = i + 1;
        proof {
            lemma_rising_monotone(max as nat, i as nat, n as nat);
            assert(rising_product(max as nat, i as nat) == i * rising_product(
                max as nat,
                (i - 1) as nat,
            ));
            assert(dividend * i == i * dividend) by (nonlinear_arith);
        }
        dividend = dividend * i;
    }
    proof {
        assert(n == max + min);
        lemma_rising_at_least_fact(max as nat, min as nat);
        lemma_fact_positive(min as nat);
        lemma_fact_positive(max as nat);
        lemma_rising_fact(max as nat, n as nat);
    }
    let divisor = factorial(min);
    let r = dividend / divisor;
    proof {
        let d = dividend as int;
        let m = divisor as int;
        let f = fact(max as nat) as int;
        let q = d / m;
        let rem = d % m;
        assert(d == q * m + rem && 0 <= rem < m) by {
            lemma_fundamental_div_mod(d, m);
            lemma_mod_pos_bound(d, m);
            assert(m * q == q * m) by (nonlinear_arith);
        }
        assert(d * f == q * (m * f) + rem * f && 0 <= rem * f < m * f) by (nonlinear_arith)
            requires
                d == q * m + rem,
                0 <= rem < m,
                f >= 1,
        ;
        lemma_fundamental_div_mod_converse(d * f, m * f, q, rem * f);
        assert(fact(k as nat) * fact((n - k) as nat) == m * f) by (nonlinear_arith)
            requires
                (k == min && n - k == max) || (k == max && n - k == min),
                m == fact(min as nat),
                f == fact(max as nat),
        ;
    }
    Ok(r)
}

} // verus!
