//! Prime numbers by sieving.
use crate::factors::strictly_ascending;
use vstd::arithmetic::div_mod::lemma_fundamental_div_mod;
use vstd::prelude::*;

verus! {

pub open spec fn is_prime(x: int) -> bool {
    x >= 2 && forall|d: int| 2 <= d < x ==> #[trigger] (x % d) != 0
}

/// If `d` divides `x` and `q` divides `d`, then `q` divides `x`.
proof fn lemma_divides_transitive(x: int, d: int, q: int)
    requires
        x >= 1,
        d >= 1,
        q >= 1,
        x % d == 0,
        d % q == 0,
    ensures
        x % q == 0,
{
    lemma_fundamental_div_mod(x, d);
    lemma_fundamental_div_mod(d, q);
    let a = x / d;
    let b = d / q;
    assert(x == q * (b * a)) by (nonlinear_arith)
        requires
            x == d * a,
            d == q * b,
    ;
    vstd::arithmetic::div_mod::lemma_mod_multiples_basic(b * a, q);
    assert(q * (b * a) == (b * a) * q) by (nonlinear_arith);
}

/// Every integer `x >= 2` has a prime factor no larger than itself.
proof fn lemma_prime_factor(x: int) -> (q: int)
    requires
        x >= 2,
    ensures
        2 <= q <= x,
        is_prime(q),
        x % q == 0,
    decreases x,
{
    if is_prime(x) {
        vstd::arithmetic::div_mod::lemma_mod_self_0(x);
        x
    } else {
        let d = choose|d: int| 2 <= d < x && #[trigger] (x % d) == 0;
        let q = lemma_prime_factor(d);
        lemma_divides_transitive(x, d, q);
        q
    }
}

/// Not divisible by any element of `ps`.
pub open spec fn coprime_to_all(y: u64, ps: Seq<u64>) -> bool {
    forall|i: int| 0 <= i < ps.len() ==> y % #[trigger] ps[i] != 0
}

/// Returns `2` followed by every odd prime below `max`, in ascending order
/// (so `[2]` alone when `max <= 3`).
pub fn generate_primes(max: u64) -> (primes: Vec<u64>)
    ensures
        strictly_ascending(primes@),
        forall|x: u64| #[trigger]
            primes@.contains(x) <==> x == 2 || (is_prime(x as int) && x < max),
{
    let mut primes: Vec<u64> = vec![2];
    let mut sieve: Vec<u64> = Vec::new();
    let mut x: u64 = 3;
    while x < max
        invariant
            3 <= x,
            x % 2 == 1,
            strictly_ascending(sieve@),
            forall|i: int| 0 <= i < sieve@.len() ==> sieve@[i] < x,
            forall|y: u64| #[trigger] sieve@.contains(y) <==> 3 <= y < x && y < max && y % 2 == 1,
        decreases max as int + 1 - x as int,
    {
        let ghost before = sieve@;
        sieve.push(x);
        proof {
            assert forall|y: u64| #[trigger]
                sieve@.contains(y) <==> 3 <= y < x + 2 && y < max && y % 2 == 1 by {
                if sieve@.contains(y) && y != x {
                    let k = choose|k: int| 0 <= k < sieve@.len() && sieve@[k] == y;
                    assert(before.contains(y)) by {
                        assert(before[k] == y);
                    }
                }
                if 3 <= y < x && y < max && y % 2 == 1 {
                    assert(before.contains(y));
                    let k = choose|k: int| 0 <= k < before.len() && before[k] == y;
                    assert(sieve@[k] == y);
                }
                if y == x {
                    assert(sieve@[before.len() as int] == y);
                }
            }
        }
        x = x + 2;
    }
    assert(primes@ =~= seq![2u64]);
    assert forall|i: int| 0 <= i < sieve@.len() implies primes@.last() < #[trigger] sieve@[i] by {
        assert(sieve@.contains(sieve@[i]));
    }
    while sieve.len() > 0
        invariant
            primes@.len() >= 1,
            primes@[0] == 2,
            strictly_ascending(primes@),
            strictly_ascending(sieve@),
            forall|i: int| 0 <= i < sieve@.len() ==> primes@.last() < #[trigger] sieve@[i],
            forall|y: u64| #[trigger]
                primes@.contains(y) ==> y == 2 || (is_prime(y as int) && y < max),
            forall|y: u64| #[trigger]
                sieve@.contains(y) <==> 3 <= y < max && y > primes@.last() && coprime_to_all(
                    y,
                    primes@,
                ),
            forall|y: u64|
                is_prime(y as int) && y < max && y <= primes@.last() ==> #[trigger] primes@.contains(
                    y,
                ),
        decreases sieve@.len(),
    {
        let first = sieve[0];
        let ghost last = primes@.last();
        let ghost old_primes = primes@;
        proof {
            assert(sieve@.contains(first));
            if !is_prime(first as int) {
                let q = lemma_prime_factor(first as int);
                let qq = q as u64;
                if qq <= last {
                    assert(primes@.contains(qq));
                    let i = choose|i: int| 0 <= i < primes@.len() && primes@[i] == qq;
                    assert(first % primes@[i] != 0);
                } else {
                    assert(coprime_to_all(qq, primes@)) by {
                        assert forall|i: int| 0 <= i < primes@.len() implies qq % #[trigger] primes@[i]
                            != 0 by {
                            let p = primes@[i];
                            assert(primes@.contains(p));
                            if i < primes@.len() - 1 {
                                assert(p < last);
                            }
                            assert(2 <= p < qq);
                            assert((q % (p as int)) != 0);
                        }
                    }
                    assert(sieve@.contains(qq));
                    let k = choose|k: int| 0 <= k < sieve@.len() && sieve@[k] == qq;
                    if k > 0 {
                        assert(sieve@[0] < sieve@[k]);
                    }
                }
            }
        }
        primes.push(first);
        proof {
            vstd::arithmetic::div_mod::lemma_mod_self_0(first as int);
        }
        let mut rest: Vec<u64> = Vec::new();
        let mut j: usize = 0;
        while j < sieve.len()
            invariant
                j <= sieve@.len(),
                first == sieve@[0],
                first >= 3,
                first % first == 0,
                rest@.len() <= j,
                j >= 1 ==> rest@.len() < j,
                strictly_ascending(sieve@),
                strictly_ascending(rest@),
                j < sieve@.len() ==> forall|i: int| 0 <= i < rest@.len() ==> rest@[i] < sieve@[j as int],
                forall|y: u64| #[trigger]
                    rest@.contains(y) <==> sieve@.take(j as int).contains(y) && y % first != 0,
            decreases sieve@.len() - j,
        {
            let y = sieve[j];
            let ghost before = rest@;
            proof {
                assert(sieve@.take(j + 1) =~= sieve@.take(j as int).push(y));
            }
            if y % first != 0 {
                rest.push(y);
            }
            proof {
                if j + 1 < sieve@.len() {
                    assert(y < sieve@[j + 1]);
                }
                assert forall|z: u64| #[trigger]
                    rest@.contains(z) <==> sieve@.take(j + 1).contains(z) && z % first != 0 by {
                    if rest@.contains(z) && z != y {
                        let k = choose|k: int| 0 <= k < rest@.len() && rest@[k] == z;
                        assert(before[k] == z);
                        assert(before.contains(z));
                        let m = choose|m: int| 0 <= m < j && #[trigger] sieve@.take(j as int)[m] == z;
                        assert(sieve@.take(j + 1)[m] == z);
                    }
                    if rest@.contains(z) && z == y {
                        assert(sieve@.take(j + 1)[j as int] == z);
                    }
                    if sieve@.take(j + 1).contains(z) && z % first != 0 {
                        let m = choose|m: int| 0 <= m < j + 1 && #[trigger] sieve@.take(j + 1)[m] == z;
                        if m < j {
                            assert(sieve@.take(j as int)[m] == z);
                            assert(before.contains(z));
                            let k = choose|k: int| 0 <= k < before.len() && before[k] == z;
                            assert(rest@[k] == z);
                        } else {
                            assert(rest@[rest@.len() - 1] == z);
                        }
                    }
                }
            }
            j = j + 1;
        }
        proof {
            assert(sieve@.take(j as int) =~= sieve@);
            assert(primes@.last() == first);
            assert forall|y: u64| #[trigger]
                rest@.contains(y) <==> 3 <= y < max && y > first && coprime_to_all(y, primes@) by {
                if rest@.contains(y) {
                    assert(sieve@.contains(y));
                    let k = choose|k: int| 0 <= k < sieve@.len() && sieve@[k] == y;
                    vstd::arithmetic::div_mod::lemma_mod_self_0(first as int);
                    assert(k != 0);
                    assert(sieve@[0] < sieve@[k]);
                    assert(coprime_to_all(y, old_primes));
                    assert forall|i: int| 0 <= i < primes@.len() implies y % #[trigger] primes@[i]
                        != 0 by {
                        if i < old_primes.len() {
                            assert(primes@[i] == old_primes[i]);
                        }
                    }
                }
                if 3 <= y < max && y > first && coprime_to_all(y, primes@) {
                    assert(coprime_to_all(y, old_primes)) by {
                        assert forall|i: int| 0 <= i < old_primes.len() implies y
                            % #[trigger] old_primes[i] != 0 by {
                            assert(primes@[i] == old_primes[i]);
                        }
                    }
                    assert(y % primes@[old_primes.len() as int] != 0);
                    assert(sieve@.contains(y));
                }
            }
            assert forall|y: u64|
                is_prime(y as int) && y < max && y <= first implies #[trigger] primes@.contains(y) by {
                if y <= last {
                    assert(old_primes.contains(y));
                    let k = choose|k: int| 0 <= k < old_primes.len() && old_primes[k] == y;
                    assert(primes@[k] == y);
                } else if y < first {
                    assert(coprime_to_all(y, old_primes)) by {
                        assert forall|i: int| 0 <= i < old_primes.len() implies y
                            % #[trigger] old_primes[i] != 0 by {
                            let p = old_primes[i];
                            assert(old_primes.contains(p));
                            if i < old_primes.len() - 1 {
                                assert(p < last);
                            }
                            assert((y as int % (p as int)) != 0);
                        }
                    }
                    assert(sieve@.contains(y));
                    let k = choose|k: int| 0 <= k < sieve@.len() && sieve@[k] == y;
                    if k > 0 {
                        assert(sieve@[0] < sieve@[k]);
                    }
                } else {
                    assert(primes@[old_primes.len() as int] == y);
                }
            }
            assert forall|y: u64| #[trigger]
                primes@.contains(y) implies y == 2 || (is_prime(y as int) && y < max) by {
                let k = choose|k: int| 0 <= k < primes@.len() && primes@[k] == y;
                if k < old_primes.len() {
                    assert(old_primes[k] == y);
                    assert(old_primes.contains(y));
                }
            }
        }
        proof {
            assert forall|i: int| 0 <= i < rest@.len() implies primes@.last() < #[trigger] rest@[i] by {
                assert(rest@.contains(rest@[i]));
            }
        }
        sieve = rest;
    }
    proof {
        assert forall|y: u64| y == 2 || (is_prime(y as int) && y < max) implies #[trigger]
            primes@.contains(y) by {
            if y == 2 {
                assert(primes@[0] == y);
            } else if y > primes@.last() {
                assert(coprime_to_all(y, primes@)) by {
                    assert forall|i: int| 0 <= i < primes@.len() implies y % #[trigger] primes@[i]
                        != 0 by {
                        let p = primes@[i];
                        assert(primes@.contains(p));
                        if i < primes@.len() - 1 {
                            assert(p < primes@.last());
                        }
                        assert((y as int % (p as int)) != 0);
                    }
                }
                assert(sieve@.contains(y));
            }
        }
    }
    primes
}

} // verus!
