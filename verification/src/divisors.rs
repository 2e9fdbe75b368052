//! The positive divisors of an integer.

use vstd::prelude::*;

verus! {

/// Whether `d` is a positive divisor of `x`.
pub open spec fn is_divisor(d: int, x: int) -> bool {
    d >= 1 && x % d == 0
}

/// Whether `d` is one of the divisors of `x` known once every candidate
/// below `i` has been tried: `1`, `x`, the divisors below `i`, and their
/// cofactors.
pub open spec fn divisor_found(d: int, x: int, i: int) -> bool {
    d == 1 || d == x || (2 <= d < x && x % d == 0 && (d < i || x / d < i))
}

/// `num::integer::Roots::sqrt` on a `u64`: the square root, rounded down.
#[verifier::external_body]
fn floor_sqrt(x: u64) -> (r: u64)
    ensures
        r * r <= x < (r + 1) * (r + 1),
{
    num::integer::Roots::sqrt(&x)
}

/// A divisor and its cofactor.
pub proof fn lemma_divisor_pair(x: int, i: int)
    requires
        x >= 1,
        i >= 1,
        x % i == 0,
    ensures
        (x / i) * i == x,
        x / i >= 1,
        x % (x / i) == 0,
        x / (x / i) == i,
{
    let q = x / i;
    vstd::arithmetic::div_mod::lemma_fundamental_div_mod(x, i);
    assert(q * i == i * q) by (nonlinear_arith);
    assert(q >= 1) by (nonlinear_arith)
        requires
            q * i == x,
            x >= 1,
            i >= 1,
    ;
    vstd::arithmetic::div_mod::lemma_fundamental_div_mod_converse(x, q, i, 0);
}

/// The factors of a product are divisors, each the cofactor of the other.
pub proof fn lemma_product_divisor(x: int, d: int, e: int)
    requires
        d >= 1,
        e * d == x,
    ensures
        x % d == 0,
        x / d == e,
{
    vstd::arithmetic::div_mod::lemma_fundamental_div_mod_converse(x, d, e, 0);
}

/// Of a divisor and its cofactor, one is at most the square root, and the
/// other at least.
pub proof fn lemma_divisor_sqrt(x: int, n: int, d: int)
    requires
        n >= 0,
        n * n <= x < (n + 1) * (n + 1),
        x >= 1,
        d >= 1,
        x % d == 0,
    ensures
        d <= n || x / d <= n,
        d <= n ==> x / d >= n,
{
    let e = x / d;
    lemma_divisor_pair(x, d);
    if d > n && e > n {
        assert(e * d >= (n + 1) * (n + 1)) by (nonlinear_arith)
            requires
                d >= n + 1,
                e >= n + 1,
                n >= 0,
        ;
    }
    if d <= n && e < n {
        assert(e * d < n * n) by (nonlinear_arith)
            requires
                1 <= d <= n,
                1 <= e < n,
        ;
    }
}

/// What a sequence holds once one more element is pushed.
pub proof fn lemma_push_contains(s: Seq<u64>, v: u64)
    ensures
        forall|d: u64| #[trigger] s.push(v).contains(d) <==> (s.contains(d) || d == v),
        s.no_duplicates() && !s.contains(v) ==> s.push(v).no_duplicates(),
{
    let t = s.push(v);
    assert forall|d: u64| #[trigger] t.contains(d) <==> (s.contains(d) || d == v) by {
        if t.contains(d) {
            let k = choose|k: int| 0 <= k < t.len() && t[k] == d;
            if k < s.len() {
                assert(s[k] == d);
            }
        }
        if s.contains(d) {
            let k = choose|k: int| 0 <= k < s.len() && s[k] == d;
            assert(t[k] == d);
        }
        if d == v {
            assert(t[s.len() as int] == d);
        }
    }
    if s.no_duplicates() && !s.contains(v) {
        assert forall|i: int, j: int| 0 <= i < t.len() && 0 <= j < t.len() && i != j implies t[i]
            != t[j] by {
            if i < s.len() && j < s.len() {
                assert(s[i] != s[j]);
            } else if i < s.len() {
                assert(s.contains(s[i]));
            } else {
                assert(s.contains(s[j]));
            }
        }
    }
}

/// What is known after the candidate `i` has been tried.
pub proof fn lemma_divisor_round(x: int, n: int, i: int, d: int)
    requires
        n * n <= x < (n + 1) * (n + 1),
        2 <= i <= n,
    ensures
        divisor_found(d, x, i + 1) <==> (divisor_found(d, x, i) || (x % i == 0 && (d == i || d
            == x / i))),
        x % i == 0 ==> 2 <= i < x && 2 <= x / i < x && !divisor_found(i, x, i) && (x / i != i
            ==> !divisor_found(x / i, x, i)),
{
    assert(n < x) by (nonlinear_arith)
        requires
            n * n <= x,
            n >= 2,
    ;
    if x % i == 0 {
        lemma_divisor_pair(x, i);
        lemma_divisor_sqrt(x, n, i);
        let e = x / i;
        assert(e < x) by (nonlinear_arith)
            requires
                e * i == x,
                i >= 2,
                e >= 1,
        ;
    }
    if divisor_found(d, x, i + 1) && !divisor_found(d, x, i) {
        lemma_divisor_pair(x, d);
        if d != i {
            lemma_product_divisor(x, i, d);
        }
    }
}

/// All positive divisors of `x`, each once, in no particular order. For
/// `x == 0`, which every number divides, the result is `[1, 0]`.
#[verifier::rlimit(50)]
pub fn integer_divisors(x: u64) -> (res: Vec<u64>)
    ensures
        x >= 1 ==> forall|d: u64| #[trigger] res@.contains(d) <==> is_divisor(d as int, x as int),
        res@.no_duplicates(),
        x == 0 ==> res@ == seq![1u64, 0u64],
{
    let n = floor_sqrt(x);
    let mut res: Vec<u64> = Vec::new();
    res.push(1);
    if x != 1 {
        res.push(x);
    }
    proof {
        assert(x != 1 ==> res@ =~= seq![1u64, x]);
        assert(x == 1 ==> res@ =~= seq![1u64]);
        assert(n <= 0xffff_ffff) by (nonlinear_arith)
            requires
                n * n <= x,
                x <= u64::MAX,
                n >= 0,
        ;
        assert forall|d: u64| #[trigger] res@.contains(d) <==> divisor_found(
            d as int,
            x as int,
            2,
        ) by {
            if d == 1 {
                assert(res@[0] == d);
            }
            if d == x && x != 1 {
                assert(res@[1] == d);
            }
            if res@.contains(d) {
                let k = choose|k: int| 0 <= k < res@.len() && res@[k] == d;
                assert(k == 0 || k == 1);
            }
            if 2 <= d < x && x % d == 0 && x / d < 2 {
                lemma_divisor_pair(x as int, d as int);
                let q = (x / d) as int;
                assert(q * d == d) by (nonlinear_arith)
                    requires
                        q == 1,
                ;
            }
        }
    }
    let mut i: u64 = 2;
    while i <= n
        invariant
            n * n <= x < (n + 1) * (n + 1),
            n <= 0xffff_ffff,
            2 <= i,
            i <= n + 1 || i == 2,
            forall|d: u64| #[trigger]
                res@.contains(d) <==> divisor_found(d as int, x as int, i as int),
            res@.no_duplicates(),
            x == 0 ==> res@ == seq![1u64, x],
        decreases n + 1 - i,
    {
        proof {
            assert forall|d: u64|
                divisor_found(d as int, x as int, i + 1) <==> (divisor_found(
                    d as int,
                    x as int,
                    i as int,
                ) || (x % i == 0 && (d == i || d == x / i))) by {
                lemma_divisor_round(x as int, n as int, i as int, d as int);
            }
            lemma_divisor_round(x as int, n as int, i as int, 0);
        }
        if x % i == 0 {
            let other = x / i;
            if other != i {
                proof {
                    lemma_push_contains(res@, other);
                }
                res.push(other);
            }
            proof {
                lemma_push_contains(res@, i);
            }
            res.push(i);
        }
        i = i + 1;
    }
    proof {
        if x >= 1 {
            assert forall|d: u64| #[trigger]
                res@.contains(d) <==> is_divisor(d as int, x as int) by {
                if is_divisor(d as int, x as int) {
                    lemma_divisor_pair(x as int, d as int);
                    lemma_divisor_sqrt(x as int, n as int, d as int);
                    assert(d <= x) by (nonlinear_arith)
                        requires
                            (x / d) * d == x,
                            x / d >= 1,
                            d >= 1,
                    ;
                }
                if d == x {
                    assert(x % x == 0) by (nonlinear_arith)
                        requires
                            x >= 1,
                    ;
                }
            }
        }
    }
    res
}

} // verus!
