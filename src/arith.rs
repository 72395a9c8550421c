use vstd::prelude::*;
use vstd::arithmetic::div_mod::{lemma_fundamental_div_mod, lemma_fundamental_div_mod_converse};

verus! {

/// Integer nearest to `n / m` (`m > 0`), halves rounded away from zero.
pub open spec fn round_div(n: int, m: int) -> int {
    if n >= 0 {
        (2 * n + m) / (2 * m)
    } else {
        -((-2 * n + m) / (2 * m))
    }
}

/// Largest integer not above `n / m` (`m > 0`).
pub open spec fn floor_div(n: int, m: int) -> int {
    n / m
}

/// Smallest integer not below `n / m` (`m > 0`).
pub open spec fn ceil_div(n: int, m: int) -> int {
    -((-n) / m)
}

pub proof fn lemma_mul_bounded(a: int, b: int, ma: int, mb: int)
    requires
        -ma <= a <= ma,
        -mb <= b <= mb,
    ensures
        -(ma * mb) <= a * b <= ma * mb,
{
    assert(-(ma * mb) <= a * b <= ma * mb) by (nonlinear_arith)
        requires
            -ma <= a <= ma,
            -mb <= b <= mb,
    ;
}

/// A quotient of bounded non-negative values is bounded.
pub proof fn lemma_quot_bounded(n: int, m: int, bn: int, bm: int)
    requires
        0 <= n <= bn,
        0 < bm <= m,
    ensures
        0 <= n / m,
        (n / m) * bm <= bn,
{
    lemma_fundamental_div_mod(n, m);
    let q = n / m;
    assert(0 <= q && q * bm <= bn) by (nonlinear_arith)
        requires
            q * m + n % m == n,
            0 <= n % m < m,
            0 <= n <= bn,
            0 < bm <= m,
    ;
}

proof fn lemma_quot_small(x: int, q: int, m: int, k: int)
    requires
        q * (2 * m) + x % (2 * m) == x,
        0 <= x % (2 * m),
        0 < m,
        0 <= q,
        0 <= k - 1,
        x == 2 * (k - 1) + m,
    ensures
        q <= k,
{
    assert(x <= 2 * k * m) by (nonlinear_arith)
        requires
            0 <= k - 1,
            x == 2 * (k - 1) + m,
            0 < m,
    ;
    assert(q * (2 * m) <= k * (2 * m)) by (nonlinear_arith)
        requires
            q * (2 * m) + x % (2 * m) == x,
            0 <= x % (2 * m),
            x <= 2 * k * m,
    ;
    assert(q <= k) by (nonlinear_arith)
        requires
            q * (2 * m) <= k * (2 * m),
            0 < m,
    ;
}

proof fn lemma_div_of_nonneg(n: int, m: int)
    requires
        0 <= n,
        0 < m,
    ensures
        0 <= n / m <= n,
{
    lemma_quot_bounded(n, m, n, 1);
}

/// Euclidean quotient of a non-negative `n` by a positive `m`.
fn div_nonneg(n: i128, m: i128) -> (q: i128)
    requires
        0 <= n,
        0 < m,
    ensures
        q == n as int / m as int,
        0 <= q <= n,
{
    proof {
        lemma_div_of_nonneg(n as int, m as int);
    }
    let q = ((n as u128) / (m as u128)) as i128;
    q
}

/// `round_div(n, m)`, computed.
pub fn round_div_exec(n: i128, m: i128) -> (r: i128)
    requires
        0 < m <= 0x1000_0000_0000_0000_0000_0000,
        -0x1000_0000_0000_0000_0000_0000 <= n <= 0x1000_0000_0000_0000_0000_0000,
    ensures
        r == round_div(n as int, m as int),
        n >= 0 ==> 0 <= r <= n + 1,
        n < 0 ==> n - 1 <= r <= 0,
{
    if n >= 0 {
        let q = div_nonneg(2 * n + m, 2 * m);
        proof {
            lemma_fundamental_div_mod((2 * n + m) as int, (2 * m) as int);
            lemma_quot_small(2 * n + m, q as int, m as int, n + 1);
        }
        q
    } else {
        let q = div_nonneg(-2 * n + m, 2 * m);
        proof {
            lemma_fundamental_div_mod((-2 * n + m) as int, (2 * m) as int);
            lemma_quot_small(-2 * n + m, q as int, m as int, -n + 1);
        }
        -q
    }
}

/// `floor_div(n, m)`, computed.
pub fn floor_div_exec(n: i128, m: i128) -> (r: i128)
    requires
        0 < m,
        -0x1000_0000_0000_0000_0000_0000 <= n <= 0x1000_0000_0000_0000_0000_0000,
    ensures
        r == floor_div(n as int, m as int),
        n >= 0 ==> 0 <= r <= n,
        n < 0 ==> n <= r < 0,
{
    if n >= 0 {
        div_nonneg(n, m)
    } else {
        let t = div_nonneg(-n - 1, m);
        proof {
            let (ni, mi, ti) = (n as int, m as int, t as int);
            lemma_fundamental_div_mod(-ni - 1, mi);
            let rem = (-ni - 1) % mi;
            assert((-ti - 1) * mi <= ni && ni < (-ti - 1) * mi + mi) by (nonlinear_arith)
                requires
                    ti * mi + rem == -ni - 1,
                    0 <= rem < mi,
            ;
            lemma_fundamental_div_mod_converse(ni, mi, -ti - 1, ni - (-ti - 1) * mi);
        }
        -t - 1
    }
}

/// `ceil_div(n, m)`, computed.
pub fn ceil_div_exec(n: i128, m: i128) -> (r: i128)
    requires
        0 < m,
        -0x1000_0000_0000_0000_0000_0000 <= n <= 0x1000_0000_0000_0000_0000_0000,
    ensures
        r == ceil_div(n as int, m as int),
        n > 0 ==> 0 < r <= n,
        n <= 0 ==> n <= r <= 0,
{
    let f = floor_div_exec(-n, m);
    -f
}

} // verus!
