use vstd::prelude::*;

verus! {

/// Whether `n` is a prime number.
pub open spec fn is_prime(n: int) -> bool {
    n > 1 && forall|d: int| 2 <= d < n ==> #[trigger] (n % d) != 0
}

/// The sum of the numbers of `v`.
pub open spec fn total(v: Seq<i32>) -> int
    decreases v.len(),
{
    if v.len() == 0 {
        0
    } else {
        total(v.drop_last()) + v.last()
    }
}

/// The numbers behind the references of `v`.
pub open spec fn values(v: Seq<&i32>) -> Seq<i32> {
    v.map_values(|x: &i32| *x)
}

/// `a / b` rounded to the nearest integer, halves away from zero (`b > 0`).
pub open spec fn round_div(a: int, b: int) -> int {
    if a >= 0 {
        (2 * a + b) / (2 * b)
    } else {
        -((2 * -a + b) / (2 * b))
    }
}

/// The mean of the numbers of `v`, rounded to the nearest integer with halves
/// away from zero; zero for no numbers.
pub open spec fn mean_of(v: Seq<i32>) -> int {
    if v.len() == 0 {
        0
    } else {
        round_div(total(v), v.len() as int)
    }
}

proof fn lemma_round_div_bounds(a: int, b: int)
    requires
        b > 0,
        b * (i32::MIN as int) <= a <= b * (i32::MAX as int),
    ensures
        i32::MIN <= round_div(a, b) <= i32::MAX,
{
    if a >= 0 {
        assert((2 * a + b) / (2 * b) <= i32::MAX) by (nonlinear_arith)
            requires
                b > 0,
                0 <= a <= b * (i32::MAX as int),
        {
            assert(2 * a + b < (2 * b) * (i32::MAX as int + 1));
        }
        assert((2 * a + b) / (2 * b) >= 0) by (nonlinear_arith)
            requires
                b > 0,
                a >= 0,
        ;
    } else {
        assert((2 * -a + b) / (2 * b) <= -(i32::MIN as int)) by (nonlinear_arith)
            requires
                b > 0,
                0 < -a <= b * -(i32::MIN as int),
        {
            assert(2 * -a + b < (2 * b) * (-(i32::MIN as int) + 1));
        }
        assert((2 * -a + b) / (2 * b) >= 0) by (nonlinear_arith)
            requires
                b > 0,
                -a > 0,
        ;
    }
}

/// The mean of the numbers of `v`, rounded to the nearest integer (halves away
/// from zero); zero where `v` is empty.
pub fn mean(v: Vec<&i32>) -> (r: i32)
    ensures
        r == mean_of(values(v@)),
{
    if v.len() == 0 {
        return 0;
    }
    let mut sum: i128 = 0;
    let mut i: usize = 0;
    while i < v.len()
        invariant
            i <= v@.len(),
            sum == total(values(v@.take(i as int))),
            i * (i32::MIN as int) <= sum <= i * (i32::MAX as int),
        decreases v@.len() - i,
    {
        proof {
            assert(values(v@.take(i + 1)).drop_last() =~= values(v@.take(i as int)));
            assert((i + 1) * (i32::MAX as int) == i * (i32::MAX as int) + i32::MAX) by (nonlinear_arith);
            assert((i + 1) * (i32::MIN as int) == i * (i32::MIN as int) + i32::MIN) by (nonlinear_arith);
            assert(i * (i32::MAX as int) <= usize::MAX * (i32::MAX as int)) by (nonlinear_arith)
                requires
                    i <= usize::MAX,
            ;
            assert(i * (i32::MIN as int) >= usize::MAX * (i32::MIN as int)) by (nonlinear_arith)
                requires
                    i <= usize::MAX,
            ;
        }
        sum = sum + *v[i] as i128;
        i = i + 1;
    }
    assert(values(v@.take(v@.len() as int)) =~= values(v@));
    let n: i128 = v.len() as i128;
    proof {
        lemma_round_div_bounds(sum as int, n as int);
        assert(n * (i32::MAX as int) <= usize::MAX * (i32::MAX as int)) by (nonlinear_arith)
            requires
                0 < n <= usize::MAX,
        ;
        assert(n * (i32::MIN as int) >= usize::MAX * (i32::MIN as int)) by (nonlinear_arith)
            requires
                0 < n <= usize::MAX,
        ;
    }
    let q: i128 = if sum >= 0 {
        (2 * sum + n) / (2 * n)
    } else {
        -((2 * -sum + n) / (2 * n))
    };
    q as i32
}

proof fn lemma_small_divisor(n: int, d: int)
    requires
        2 <= d < n,
        n % d == 0,
    ensures
        exists|e: int| 2 <= e && e * e <= n && #[trigger] (n % e) == 0,
{
    if d * d <= n {
        assert(2 <= d && d * d <= n && n % d == 0);
    } else {
        let e = n / d;
        assert(n == d * e) by (nonlinear_arith)
            requires
                n % d == 0,
                d > 0,
                e == n / d,
        ;
        assert(e >= 2 && e < d) by (nonlinear_arith)
            requires
                n == d * e,
                d < n,
                d * d > n,
                d >= 2,
        ;
        assert(e * e <= n) by (nonlinear_arith)
            requires
                n == d * e,
                e < d,
                e >= 2,
        ;
        assert(n % e == 0) by (nonlinear_arith)
            requires
                n == d * e,
                e >= 2,
        ;
    }
}

/// Whether `num` is a prime number.
pub fn num_is_prime(num: i64) -> (r: bool)
    ensures
        r == is_prime(num as int),
{
    let ghost m: int = num as int;
    if num == 2 {
        assert forall|d: int| 2 <= d < m implies #[trigger] (m % d) != 0 by {}
        return true;
    }
    if num <= 1 || num % 2 == 0 {
        if num > 1 {
            assert(m % 2 == 0);
        }
        return false;
    }
    let mut i: i64 = 3;
    while i <= num / i
        invariant
            3 <= i <= num,
            num > 2,
            forall|d: int| 2 <= d < i ==> #[trigger] (m % d) != 0,
            m == num,
        decreases num - i,
    {
        if num % i == 0 {
            assert(i < num) by (nonlinear_arith)
                requires
                    i <= num / i,
                    i >= 3,
                    num > 2,
            ;
            assert(m % (i as int) == 0);
            assert(!is_prime(m));
            return false;
        }
        assert(i + 1 <= num) by (nonlinear_arith)
            requires
                i <= num / i,
                i >= 3,
                num > 2,
        ;
        i = i + 1;
    }
    assert forall|d: int| 2 <= d < m implies #[trigger] (m % d) != 0 by {
        if m % d == 0 {
            lemma_small_divisor(m, d);
            let e = choose|e: int| 2 <= e && e * e <= m && #[trigger] (m % e) == 0;
            assert(e < i) by (nonlinear_arith)
                requires
                    e * e <= num,
                    i > num / i,
                    i >= 3,
                    e >= 2,
                    num > 2,
            ;
        }
    }
    true
}

} // verus!
