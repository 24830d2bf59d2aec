//! Factors, proper factors and multiplicative partitions of an integer.
use crate::ordered::{insert_sorted, lemma_lex_sorted_no_duplicates, lex_sorted, views};
use vstd::arithmetic::div_mod::{
    lemma_div_decreases, lemma_div_multiples_vanish, lemma_fundamental_div_mod,
    lemma_mod_multiples_basic,
};
use vstd::prelude::*;

verus! {

/// The candidates `1, 2, ..., k`.
pub open spec fn one_to(k: nat) -> Seq<u64> {
    Seq::new(k, |i: int| (i + 1) as u64)
}

/// Holds of the divisors of `n`.
pub open spec fn divides(n: u64) -> spec_fn(u64) -> bool {
    |f: u64| n % f == 0
}

/// Holds of every number but `1` and `n`.
pub open spec fn neither_one_nor(n: u64) -> spec_fn(u64) -> bool {
    |f: u64| f != 1 && f != n
}

/// The numbers in `1..=k` that divide `n`, ascending.
pub open spec fn divisors_up_to(n: u64, k: nat) -> Seq<u64> {
    one_to(k).filter(divides(n))
}

/// Every factor of `n` (including `1` and `n`), ascending.
pub open spec fn all_factors(n: u64) -> Seq<u64> {
    divisors_up_to(n, n as nat)
}

/// The factors of `n` other than `1` and `n`, ascending.
pub open spec fn proper_factors(n: u64) -> Seq<u64> {
    all_factors(n).filter(neither_one_nor(n))
}

pub open spec fn strictly_ascending(s: Seq<u64>) -> bool {
    forall|i: int, j: int| 0 <= i < j < s.len() ==> s[i] < s[j]
}

proof fn lemma_divisors_up_to(n: u64, k: nat)
    requires
        k <= n,
    ensures
        strictly_ascending(divisors_up_to(n, k)),
        forall|f: u64| #[trigger]
            divisors_up_to(n, k).contains(f) <==> 1 <= f <= k && n % f == 0,
    decreases k,
{
    broadcast use vstd::seq_lib::group_seq_properties;

    if k > 0 {
        let prev = divisors_up_to(n, (k - 1) as nat);
        lemma_divisors_up_to(n, (k - 1) as nat);
        assert(one_to(k) =~= one_to((k - 1) as nat).push(k as u64));
        one_to((k - 1) as nat).lemma_filter_push(k as u64, divides(n));
        assert forall|i: int| 0 <= i < prev.len() implies prev[i] < k by {
            assert(prev.contains(prev[i]));
        }
    } else {
        assert(divisors_up_to(n, 0) =~= Seq::<u64>::empty()) by {
            reveal(Seq::filter);
        }
    }
}

/// `all_factors(n)` lists exactly the divisors of `n` in `1..=n`, strictly ascending.
pub proof fn lemma_all_factors(n: u64)
    ensures
        strictly_ascending(all_factors(n)),
        forall|f: u64| #[trigger] all_factors(n).contains(f) <==> 1 <= f <= n && n % f == 0,
{
    lemma_divisors_up_to(n, n as nat);
}

/// `proper_factors(n)` lists exactly the divisors of `n` strictly between `1` and `n`.
pub proof fn lemma_proper_factors(n: u64)
    ensures
        forall|f: u64| #[trigger] proper_factors(n).contains(f) <==> 1 < f < n && n % f == 0,
{
    broadcast use vstd::seq_lib::group_seq_properties;

    lemma_all_factors(n);
    let pred = neither_one_nor(n);
    assert forall|f: u64| #[trigger] proper_factors(n).contains(f) <==> 1 < f < n && n % f == 0 by {
        let all = all_factors(n);
        let proper = proper_factors(n);
        if proper.contains(f) {
            all.lemma_filter_contains_rev(pred, f);
            let i = choose|i: int| 0 <= i < proper.len() && proper[i] == f;
            all.lemma_filter_pred(pred, i);
        }
        if 1 < f < n && n % f == 0 {
            assert(all.contains(f));
            let i = choose|i: int| 0 <= i < all.len() && all[i] == f;
            assert(pred(all[i]));
            all.lemma_filter_contains(pred, i);
        }
    }
}

/// Returns all factors of `n`, including `1` and `n`, in ascending order.
pub fn get_all_factors(n: u64) -> (factors: Vec<u64>)
    ensures
        factors@ == all_factors(n),
{
    let mut factors: Vec<u64> = Vec::new();
    let mut x: u64 = 0;
    while x < n
        invariant
            x <= n,
            factors@ == divisors_up_to(n, x as nat),
        decreases n - x,
    {
        x = x + 1;
        proof {
            assert(one_to(x as nat) =~= one_to((x - 1) as nat).push(x));
            one_to((x - 1) as nat).lemma_filter_push(x, divides(n));
        }
        if n % x == 0 {
            factors.push(x);
        }
    }
    factors
}

/// Returns the factors of `n` other than `1` and `n`, in ascending order.
pub fn get_proper_factors(n: u64) -> (proper: Vec<u64>)
    ensures
        proper@ == proper_factors(n),
{
    let all = get_all_factors(n);
    let mut proper: Vec<u64> = Vec::new();
    let mut i: usize = 0;
    while i < all.len()
        invariant
            i <= all@.len(),
            proper@ == all@.take(i as int).filter(neither_one_nor(n)),
        decreases all@.len() - i,
    {
        let f = all[i];
        proof {
            assert(all@.take(i + 1) =~= all@.take(i as int).push(f));
            all@.take(i as int).lemma_filter_push(f, neither_one_nor(n));
        }
        if f != 1 && f != n {
            proper.push(f);
        }
        i = i + 1;
    }
    assert(all@.take(i as int) =~= all@);
    proper
}

/// Non-decreasing.
pub open spec fn ascending(s: Seq<u64>) -> bool {
    forall|i: int, j: int| 0 <= i < j < s.len() ==> s[i] <= s[j]
}

/// The product of the elements (`1` for the empty sequence).
pub open spec fn product(s: Seq<u64>) -> int
    decreases s.len(),
{
    if s.len() == 0 {
        1
    } else {
        product(s.drop_last()) * s.last()
    }
}

/// A non-empty ascending sequence of integers, each at least `2`, whose product is `n`.
pub open spec fn is_factorization(p: Seq<u64>, n: u64) -> bool {
    &&& p.len() > 0
    &&& ascending(p)
    &&& forall|i: int| 0 <= i < p.len() ==> p[i] >= 2
    &&& product(p) == n
}

/// A multiplicative partition of `n` in canonical (ascending) form; the
/// trivial partition `[n]` always counts, also for `n` below `2`.
pub open spec fn is_multiplicative_partition(p: Seq<u64>, n: u64) -> bool {
    p == seq![n] || is_factorization(p, n)
}

/// What `get_multiplicative_partitions(n)` returns: an ordered set that holds
/// exactly the multiplicative partitions of `n`.
pub open spec fn lists_partitions(parts: Seq<Seq<u64>>, n: u64) -> bool {
    &&& lex_sorted(parts)
    &&& forall|p: Seq<u64>| #[trigger] parts.contains(p) <==> is_multiplicative_partition(p, n)
}

proof fn lemma_product_single(x: u64)
    ensures
        product(seq![x]) == x,
{
    assert(seq![x].drop_last() =~= Seq::<u64>::empty());
    assert(product(Seq::<u64>::empty()) == 1);
}

proof fn lemma_product_at_least_two(s: Seq<u64>)
    requires
        s.len() > 0,
        forall|i: int| 0 <= i < s.len() ==> s[i] >= 2,
    ensures
        product(s) >= 2,
    decreases s.len(),
{
    if s.len() > 1 {
        lemma_product_at_least_two(s.drop_last());
        let a = product(s.drop_last());
        let b = s.last() as int;
        assert(a * b >= 2) by (nonlinear_arith)
            requires
                a >= 2,
                b >= 2,
        ;
    } else {
        assert(s.drop_last() =~= Seq::<u64>::empty());
        assert(product(Seq::<u64>::empty()) == 1);
    }
}

proof fn lemma_product_insert(s: Seq<u64>, k: int, x: u64)
    requires
        0 <= k <= s.len(),
    ensures
        product(s.insert(k, x)) == product(s) * x,
    decreases s.len(),
{
    if k == s.len() {
        assert(s.insert(k, x) =~= s.push(x));
        assert(s.push(x).drop_last() =~= s);
    } else {
        let t = s.drop_last();
        lemma_product_insert(t, k, x);
        assert(s.insert(k, x).drop_last() =~= t.insert(k, x));
        let a = product(t);
        let l = s.last() as int;
        assert((a * x) * l == (a * l) * x) by (nonlinear_arith);
    }
}

/// A factorization of `n` with at least two elements ends in a proper factor
/// `f` of `n`, and what precedes `f` is a factorization of `n / f`.
proof fn lemma_split_last(q: Seq<u64>, n: u64)
    requires
        is_factorization(q, n),
        q.len() >= 2,
    ensures
        1 < q.last() < n,
        n % q.last() == 0,
        is_factorization(q.drop_last(), n / q.last()),
{
    let d = q.drop_last();
    let f = q.last() as int;
    lemma_product_at_least_two(d);
    let a = product(d);
    assert(a * f > f) by (nonlinear_arith)
        requires
            a >= 2,
            f >= 2,
    ;
    lemma_mod_multiples_basic(a, f);
    lemma_div_multiples_vanish(a, f);
    assert(f * a == a * f) by (nonlinear_arith);
}

/// A factorization with one element is the trivial partition.
proof fn lemma_factorization_single(q: Seq<u64>, n: u64)
    requires
        is_factorization(q, n),
        q.len() == 1,
    ensures
        q == seq![n],
{
    assert(q =~= seq![q[0]]);
    lemma_product_single(q[0]);
}

/// Inserts `f` into the ascending vector `p` before the first element that is
/// not smaller than `f`; returns the position used.
fn insert_ascending(p: &mut Vec<u64>, f: u64) -> (k: usize)
    requires
        ascending(old(p)@),
    ensures
        k <= old(p)@.len(),
        final(p)@ == old(p)@.insert(k as int, f),
        ascending(final(p)@),
        forall|j: int| k <= j < old(p)@.len() ==> f <= old(p)@[j],
{
    let mut k: usize = 0;
    while k < p.len() && p[k] < f
        invariant
            k <= p@.len(),
            forall|j: int| 0 <= j < k ==> p@[j] < f,
        decreases p@.len() - k,
    {
        k = k + 1;
    }
    let ghost before = p@;
    p.insert(k, f);
    proof {
        assert forall|j: int| k <= j < before.len() implies f <= before[j] by {
            assert(before[k as int] <= before[j]);
        }
    }
    k
}

/// Returns every multiplicative partition of `n`, each as an ascending
/// sequence, without repeats and ordered lexicographically. The trivial
/// partition `[n]` is always among them; `1`s are never used as factors.
pub fn get_multiplicative_partitions(n: u64) -> (partitions: Vec<Vec<u64>>)
    ensures
        lists_partitions(views(partitions@), n),
    decreases n,
{
    let proper = get_proper_factors(n);
    proof {
        lemma_proper_factors(n);
    }
    let mut partitions: Vec<Vec<u64>> = Vec::new();
    let mut i: usize = 0;
    while i < proper.len()
        invariant
            i <= proper@.len(),
            proper@ == proper_factors(n),
            lex_sorted(views(partitions@)),
            forall|q: Seq<u64>| #[trigger]
                views(partitions@).contains(q) ==> is_multiplicative_partition(q, n),
            forall|q: Seq<u64>|
                #![trigger is_factorization(q, n)]
                is_factorization(q, n) && q.len() >= 2 && proper@.take(i as int).contains(q.last())
                    ==> views(partitions@).contains(q),
        decreases proper@.len() - i,
    {
        let f = proper[i];
        proof {
            lemma_proper_factors(n);
            assert(proper@.contains(f));
        }
        let m = n / f;
        proof {
            lemma_div_decreases(n as int, f as int);
            lemma_fundamental_div_mod(n as int, f as int);
        }
        let subs = get_multiplicative_partitions(m);
        let mut j: usize = 0;
        while j < subs.len()
            invariant
                j <= subs@.len(),
                1 < f < n,
                n % f == 0,
                m == n / f,
                n == f * m,
                lists_partitions(views(subs@), m),
                lex_sorted(views(partitions@)),
                forall|q: Seq<u64>| #[trigger]
                    views(partitions@).contains(q) ==> is_multiplicative_partition(q, n),
                forall|q: Seq<u64>|
                    #![trigger is_factorization(q, n)]
                    is_factorization(q, n) && q.len() >= 2 && proper@.take(i as int).contains(
                        q.last(),
                    ) ==> views(partitions@).contains(q),
                forall|k: int|
                    0 <= k < j && (forall|x: int| 0 <= x < subs@[k]@.len() ==> subs@[k]@[x] <= f)
                        ==> views(partitions@).contains(#[trigger] subs@[k]@.push(f)),
            decreases subs@.len() - j,
        {
            let mut sub = subs[j].clone();
            assert(sub@ =~= subs@[j as int]@);
            let ghost d = sub@;
            assert(views(subs@).contains(d)) by {
                assert(views(subs@)[j as int] == d);
            }
            assert(is_factorization(d, m)) by {
                if d == seq![m] {
                    lemma_product_single(m);
                    assert(m >= 2) by (nonlinear_arith)
                        requires
                            n == f * m,
                            1 < f < n,
                    ;
                }
            }
            let k = insert_ascending(&mut sub, f);
            proof {
                lemma_product_insert(d, k as int, f);
                assert(is_factorization(sub@, n)) by {
                    assert forall|x: int| 0 <= x < sub@.len() implies sub@[x] >= 2 by {
                        if x > k {
                            assert(sub@[x] == d[x - 1]);
                        }
                    }
                    assert(product(d) * f == f * m) by (nonlinear_arith)
                        requires
                            product(d) == m,
                    ;
                }
                if forall|x: int| 0 <= x < d.len() ==> d[x] <= f {
                    assert(sub@ =~= d.push(f));
                }
            }
            let ghost before = views(partitions@);
            insert_sorted(&mut partitions, sub);
            proof {
                assert forall|q: Seq<u64>|
                    #![trigger is_factorization(q, n)]
                    is_factorization(q, n) && q.len() >= 2 && proper@.take(i as int).contains(
                        q.last(),
                    ) implies views(partitions@).contains(q) by {
                    assert(before.contains(q));
                }
                assert forall|kk: int|
                    0 <= kk < j + 1 && (forall|x: int|
                        0 <= x < subs@[kk]@.len() ==> subs@[kk]@[x] <= f) implies views(
                    partitions@,
                ).contains(#[trigger] subs@[kk]@.push(f)) by {
                    if kk < j {
                        assert(before.contains(subs@[kk]@.push(f)));
                    }
                }
            }
            j = j + 1;
        }
        proof {
            assert forall|q: Seq<u64>|
                #![trigger is_factorization(q, n)]
                is_factorization(q, n) && q.len() >= 2 && proper@.take(i + 1).contains(q.last())
                    implies views(partitions@).contains(q) by {
                if !proper@.take(i as int).contains(q.last()) {
                    let x = choose|x: int| 0 <= x < i + 1 && #[trigger] proper@.take(i + 1)[x] == q.last();
                    assert(x == i);
                    lemma_split_last(q, n);
                    let d = q.drop_last();
                    assert(views(subs@).contains(d));
                    let kk = choose|kk: int| 0 <= kk < views(subs@).len() && views(subs@)[kk] == d;
                    assert(subs@[kk]@ == d);
                    assert(q =~= d.push(f));
                }
            }
        }
        i = i + 1;
    }
    proof {
        lemma_proper_factors(n);
        assert(proper@.take(i as int) =~= proper@);
        assert(lex_sorted(views(partitions@)));
    }
    let ghost before = views(partitions@);
    let trivial = vec![n];
    assert(trivial@ =~= seq![n]);
    insert_sorted(&mut partitions, trivial);
    proof {
        let after = views(partitions@);
        assert forall|q: Seq<u64>| #[trigger]
            after.contains(q) <==> is_multiplicative_partition(q, n) by {
            if is_multiplicative_partition(q, n) && q != seq![n] {
                if q.len() == 1 {
                    lemma_factorization_single(q, n);
                } else {
                    lemma_split_last(q, n);
                    assert(before.contains(q));
                }
            }
        }
    }
    partitions
}

/// For every `n >= 1`, the factor list holds `1` and `n`, is strictly
/// ascending, every element divides `n`, and the proper factors are the
/// factors with `1` and `n` taken out.
pub proof fn lemma_factor_lists(n: u64)
    requires
        n >= 1,
    ensures
        all_factors(n).contains(1),
        all_factors(n).contains(n),
        strictly_ascending(all_factors(n)),
        forall|i: int| 0 <= i < all_factors(n).len() ==> n % #[trigger] all_factors(n)[i] == 0,
        proper_factors(n) == all_factors(n).filter(neither_one_nor(n)),
{
    lemma_all_factors(n);
    assert forall|i: int| 0 <= i < all_factors(n).len() implies n % #[trigger] all_factors(n)[i]
        == 0 by {
        assert(all_factors(n).contains(all_factors(n)[i]));
    }
}

/// For every `n >= 1`, the partitions of `n` include `[n]`, each has product
/// `n`, and no two of them hold the same multiset of factors.
pub proof fn lemma_partitions_law(n: u64, parts: Seq<Seq<u64>>)
    requires
        n >= 1,
        lists_partitions(parts, n),
    ensures
        parts.contains(seq![n]),
        forall|i: int| 0 <= i < parts.len() ==> product(#[trigger] parts[i]) == n,
        forall|i: int, j: int|
            0 <= i < parts.len() && 0 <= j < parts.len() && i != j ==> (#[trigger] parts[i]).to_multiset()
                != (#[trigger] parts[j]).to_multiset(),
{
    let leq = |a: u64, b: u64| a <= b;
    assert(vstd::relations::total_ordering(leq));
    lemma_lex_sorted_no_duplicates(parts);
    assert forall|i: int| 0 <= i < parts.len() implies product(#[trigger] parts[i]) == n
        && vstd::relations::sorted_by(parts[i], leq) by {
        assert(parts.contains(parts[i]));
        if parts[i] == seq![n] {
            lemma_product_single(n);
        }
    }
    assert forall|i: int, j: int|
        0 <= i < parts.len() && 0 <= j < parts.len() && i != j implies (#[trigger] parts[i]).to_multiset()
        != (#[trigger] parts[j]).to_multiset() by {
        if parts[i].to_multiset() == parts[j].to_multiset() {
            vstd::seq_lib::lemma_sorted_unique(parts[i], parts[j], leq);
        }
    }
}

/// Two results of `get_multiplicative_partitions` for the same `n` hold the
/// same set of partitions.
pub proof fn lemma_partitions_deterministic(n: u64, a: Seq<Seq<u64>>, b: Seq<Seq<u64>>)
    requires
        lists_partitions(a, n),
        lists_partitions(b, n),
    ensures
        a.to_set() == b.to_set(),
{
    assert(a.to_set() =~= b.to_set());
}

} // verus!
