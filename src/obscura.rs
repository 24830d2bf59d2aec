//! Product-sum numbers: numbers that are both the sum and the product of one
//! collection of positive integers.
use crate::factors::{
    ascending, get_multiplicative_partitions, is_factorization, is_multiplicative_partition,
    lists_partitions, product,
};
use crate::ordered::{insert_sorted, lex_sorted, views};
use vstd::arithmetic::div_mod::{lemma_fundamental_div_mod, lemma_mod_pos_bound};
use vstd::prelude::*;

verus! {

/// The sum of the elements.
pub open spec fn sum(s: Seq<u64>) -> int
    decreases s.len(),
{
    if s.len() == 0 {
        0
    } else {
        sum(s.drop_last()) + s.last()
    }
}

/// `c` copies of `1`.
pub open spec fn ones(c: nat) -> Seq<u64> {
    Seq::new(c, |i: int| 1u64)
}

/// An ascending sequence of at least two positive integers whose product and
/// whose sum are both `n`.
pub open spec fn is_product_sum_representation(a: Seq<u64>, n: u64) -> bool {
    &&& a.len() >= 2
    &&& ascending(a)
    &&& forall|i: int| 0 <= i < a.len() ==> a[i] >= 1
    &&& product(a) == n
    &&& sum(a) == n
}

/// What `get_product_sums(n)` returns: every product-sum representation of
/// `n`, once each, in lexicographic order.
pub open spec fn lists_product_sums(answers: Seq<Seq<u64>>, n: u64) -> bool {
    &&& lex_sorted(answers)
    &&& forall|a: Seq<u64>| #[trigger]
        answers.contains(a) <==> is_product_sum_representation(a, n)
}

pub proof fn lemma_product_concat(a: Seq<u64>, b: Seq<u64>)
    ensures
        product(a + b) == product(a) * product(b),
    decreases b.len(),
{
    if b.len() == 0 {
        assert(a + b =~= a);
    } else {
        lemma_product_concat(a, b.drop_last());
        assert((a + b).drop_last() =~= a + b.drop_last());
        let x = product(a);
        let y = product(b.drop_last());
        let l = b.last() as int;
        assert(x * y * l == x * (y * l)) by (nonlinear_arith);
    }
}

pub proof fn lemma_sum_concat(a: Seq<u64>, b: Seq<u64>)
    ensures
        sum(a + b) == sum(a) + sum(b),
    decreases b.len(),
{
    if b.len() == 0 {
        assert(a + b =~= a);
    } else {
        lemma_sum_concat(a, b.drop_last());
        assert((a + b).drop_last() =~= a + b.drop_last());
    }
}

proof fn lemma_ones(c: nat)
    ensures
        product(ones(c)) == 1,
        sum(ones(c)) == c,
    decreases c,
{
    if c > 0 {
        lemma_ones((c - 1) as nat);
        assert(ones(c).drop_last() =~= ones((c - 1) as nat));
    }
}

/// The sum of integers that are each at least `2` does not exceed their product.
pub proof fn lemma_sum_at_most_product(p: Seq<u64>)
    requires
        p.len() > 0,
        forall|i: int| 0 <= i < p.len() ==> p[i] >= 2,
    ensures
        sum(p) <= product(p),
        product(p) >= 2,
    decreases p.len(),
{
    let d = p.drop_last();
    if p.len() == 1 {
        assert(d =~= Seq::<u64>::empty());
        assert(product(d) == 1 && sum(d) == 0);
    } else {
        lemma_sum_at_most_product(d);
        let s = sum(d);
        let q = product(d);
        let x = p.last() as int;
        assert(s + x <= q * x && q * x >= 2) by (nonlinear_arith)
            requires
                s <= q,
                q >= 2,
                x >= 2,
        ;
    }
}

/// A prefix never sums to more than the whole sequence.
proof fn lemma_sum_prefix(p: Seq<u64>, k: int)
    requires
        0 <= k <= p.len(),
    ensures
        sum(p.take(k)) <= sum(p),
{
    assert(p =~= p.take(k) + p.skip(k));
    lemma_sum_concat(p.take(k), p.skip(k));
    lemma_sum_nonnegative(p.skip(k));
}

proof fn lemma_sum_nonnegative(p: Seq<u64>)
    ensures
        sum(p) >= 0,
    decreases p.len(),
{
    if p.len() > 0 {
        lemma_sum_nonnegative(p.drop_last());
    }
}

/// An ascending sequence of positive integers is a run of `1`s followed by
/// integers that are each at least `2`; returns the length of the run.
proof fn lemma_leading_ones(a: Seq<u64>) -> (c: nat)
    requires
        ascending(a),
        forall|i: int| 0 <= i < a.len() ==> a[i] >= 1,
    ensures
        c <= a.len(),
        a == ones(c) + a.skip(c as int),
        forall|i: int| c <= i < a.len() ==> a[i] >= 2,
{
    if exists|i: int| 0 <= i < a.len() && a[i] >= 2 {
        let j = choose|i: int| 0 <= i < a.len() && a[i] >= 2;
        let c = lemma_first_big(a, j);
        assert(a =~= ones(c) + a.skip(c as int));
        c
    } else {
        assert(a =~= ones(a.len()) + a.skip(a.len() as int));
        a.len()
    }
}

proof fn lemma_first_big(a: Seq<u64>, j: int) -> (c: nat)
    requires
        ascending(a),
        forall|i: int| 0 <= i < a.len() ==> a[i] >= 1,
        0 <= j < a.len(),
        a[j] >= 2,
    ensures
        c <= j,
        forall|i: int| 0 <= i < c ==> a[i] == 1,
        forall|i: int| c <= i < a.len() ==> a[i] >= 2,
    decreases j,
{
    if j > 0 && a[j - 1] >= 2 {
        lemma_first_big(a, j - 1)
    } else {
        j as nat
    }
}

/// The representation built from the partition `p` of `n`: `p` after as many
/// `1`s as make the sum up to `n`.
pub open spec fn padded(p: Seq<u64>, n: u64) -> Seq<u64> {
    ones((n - sum(p)) as nat) + p
}

/// Returns every way of writing `n` as both the sum and the product of one
/// ascending sequence of at least two positive integers, in lexicographic
/// order.
///
/// Each answer is a non-trivial multiplicative partition of `n` padded with
/// leading `1`s. The padding is never negative: the sum of integers that are
/// each at least `2` never exceeds their product.
pub fn get_product_sums(n: u64) -> (product_sums: Vec<Vec<u64>>)
    ensures
        lists_product_sums(views(product_sums@), n),
{
    let mut product_sums: Vec<Vec<u64>> = Vec::new();
    let mps = get_multiplicative_partitions(n);
    let mut i: usize = 0;
    while i < mps.len()
        invariant
            i <= mps@.len(),
            lists_partitions(views(mps@), n),
            lex_sorted(views(product_sums@)),
            forall|a: Seq<u64>| #[trigger]
                views(product_sums@).contains(a) ==> is_product_sum_representation(a, n),
            forall|k: int|
                0 <= k < i && mps@[k]@ != seq![n] ==> views(product_sums@).contains(
                    #[trigger] padded(mps@[k]@, n),
                ),
        decreases mps@.len() - i,
    {
        let mut mp = mps[i].clone();
        assert(mp@ =~= mps@[i as int]@);
        let ghost p = mp@;
        assert(views(mps@)[i as int] == p);
        if mp.len() == 1 && mp[0] == n {
            assert(p =~= seq![n]);
        } else {
            proof {
                assert(views(mps@).contains(p));
                assert(is_multiplicative_partition(p, n));
                assert(is_factorization(p, n) && p != seq![n]);
                lemma_sum_at_most_product(p);
            }
            let mut total: u64 = 0;
            let mut k: usize = 0;
            while k < mp.len()
                invariant
                    k <= mp@.len(),
                    mp@ == p,
                    sum(p) <= n,
                    total == sum(p.take(k as int)),
                decreases mp@.len() - k,
            {
                proof {
                    lemma_sum_prefix(p, k + 1);
                    assert(p.take(k + 1).drop_last() =~= p.take(k as int));
                }
                total = total + mp[k];
                k = k + 1;
            }
            assert(p.take(k as int) =~= p);
            let ones_count = n - total;
            let mut answer: Vec<u64> = Vec::new();
            let mut c: u64 = 0;
            while c < ones_count
                invariant
                    c <= ones_count,
                    answer@ == ones(c as nat),
                decreases ones_count - c,
            {
                answer.push(1);
                c = c + 1;
                assert(answer@ =~= ones(c as nat));
            }
            answer.append(&mut mp);
            proof {
                let a = answer@;
                assert(a == padded(p, n));
                assert(p.len() >= 2) by {
                    if p.len() == 1 {
                        assert(p =~= seq![p[0]]);
                        assert(p.drop_last() =~= Seq::<u64>::empty());
                        assert(product(Seq::<u64>::empty()) == 1);
                    }
                }
                lemma_ones(c as nat);
                lemma_product_concat(ones(c as nat), p);
                lemma_sum_concat(ones(c as nat), p);
                assert(is_product_sum_representation(a, n));
            }
            let ghost before = views(product_sums@);
            insert_sorted(&mut product_sums, answer);
            proof {
                assert forall|kk: int|
                    0 <= kk < i && mps@[kk]@ != seq![n] implies views(product_sums@).contains(
                    #[trigger] padded(mps@[kk]@, n),
                ) by {
                    assert(before.contains(padded(mps@[kk]@, n)));
                }
            }
        }
        i = i + 1;
    }
    proof {
        let res = views(product_sums@);
        assert forall|a: Seq<u64>| #[trigger]
            res.contains(a) <==> is_product_sum_representation(a, n) by {
            if is_product_sum_representation(a, n) {
                let c = lemma_leading_ones(a);
                let p = a.skip(c as int);
                lemma_ones(c);
                lemma_product_concat(ones(c), p);
                lemma_sum_concat(ones(c), p);
                assert(p.len() > 0) by {
                    if p.len() == 0 {
                        assert(p =~= Seq::<u64>::empty());
                    }
                }
                assert(p != seq![n]) by {
                    if p == seq![n] {
                        assert(p.drop_last() =~= Seq::<u64>::empty());
                        assert(sum(Seq::<u64>::empty()) == 0);
                        assert(sum(p) == n);
                        assert(a.len() == c + 1);
                    }
                }
                assert(ascending(p)) by {
                    assert forall|x: int, y: int| 0 <= x < y < p.len() implies p[x] <= p[y] by {
                        assert(p[x] == a[x + c]);
                        assert(p[y] == a[y + c]);
                    }
                }
                assert(is_factorization(p, n));
                assert(views(mps@).contains(p));
                let k = choose|k: int| 0 <= k < views(mps@).len() && views(mps@)[k] == p;
                assert(mps@[k]@ == p);
                assert(padded(p, n) == a);
            }
        }
    }
    product_sums
}

proof fn lemma_product_nonnegative(p: Seq<u64>)
    ensures
        product(p) >= 0,
    decreases p.len(),
{
    if p.len() > 0 {
        lemma_product_nonnegative(p.drop_last());
        let a = product(p.drop_last());
        let x = p.last() as int;
        assert(a * x >= 0) by (nonlinear_arith)
            requires
                a >= 0,
                x >= 0,
        ;
    }
}

pub open spec fn min_int(a: int, b: int) -> int {
    if a <= b {
        a
    } else {
        b
    }
}

/// Returns the common value of the sum and the product of `numbers` when the
/// two are equal (and the value fits in a `u64`), and `None` otherwise.
pub fn product_sum(numbers: &Vec<u64>) -> (r: Option<u64>)
    ensures
        r == (if sum(numbers@) == product(numbers@) && sum(numbers@) <= u64::MAX {
            Some(sum(numbers@) as u64)
        } else {
            None
        }),
{
    let ghost s = numbers@;
    let mut total: u64 = 0;
    let mut k: usize = 0;
    while k < numbers.len()
        invariant
            k <= s.len(),
            s == numbers@,
            total == sum(s.take(k as int)),
        decreases s.len() - k,
    {
        proof {
            assert(s.take(k + 1).drop_last() =~= s.take(k as int));
        }
        if total > u64::MAX - numbers[k] {
            proof {
                lemma_sum_prefix(s, k + 1);
            }
            return None;
        }
        total = total + numbers[k];
        k = k + 1;
    }
    assert(s.take(k as int) =~= s);
    // The product, capped at `total + 1`: the exact value matters only up to there.
    let cap: u128 = total as u128 + 1;
    let mut capped: u128 = 1;
    k = 0;
    assert(s.take(0) =~= Seq::<u64>::empty());
    while k < numbers.len()
        invariant
            k <= s.len(),
            s == numbers@,
            total == sum(s),
            cap == total + 1,
            capped == min_int(product(s.take(k as int)), cap as int),
        decreases s.len() - k,
    {
        let x = numbers[k] as u128;
        let ghost prev = product(s.take(k as int));
        proof {
            assert(s.take(k + 1).drop_last() =~= s.take(k as int));
            lemma_product_nonnegative(s.take(k as int));
        }
        if x == 0 {
            capped = 0;
        } else if capped > cap / x {
            proof {
                lemma_fundamental_div_mod(cap as int, x as int);
                lemma_mod_pos_bound(cap as int, x as int);
                let c = capped as int;
                let q = cap as int / x as int;
                let m = cap as int % x as int;
                assert(prev * x >= cap) by (nonlinear_arith)
                    requires
                        c > q,
                        c <= prev,
                        cap == x * q + m,
                        m < x,
                        x > 0,
                ;
            }
            capped = cap;
        } else {
            proof {
                lemma_fundamental_div_mod(cap as int, x as int);
                lemma_mod_pos_bound(cap as int, x as int);
                let c = capped as int;
                let q = cap as int / x as int;
                let m = cap as int % x as int;
                assert(c * x <= cap) by (nonlinear_arith)
                    requires
                        c <= q,
                        cap == x * q + m,
                        m >= 0,
                        x > 0,
                ;
                assert(c * x == min_int(prev * x, cap as int)) by (nonlinear_arith)
                    requires
                        c == min_int(prev, cap as int),
                        c * x <= cap,
                        cap >= 1,
                        x >= 1,
                        prev >= 0,
                ;
            }
            capped = capped * x;
        }
        k = k + 1;
    }
    assert(s.take(k as int) =~= s);
    if capped == total as u128 {
        Some(total)
    } else {
        None
    }
}

} // verus!
