//! Polynomials and factorizations as text.

use vstd::prelude::*;
use crate::factorization::{Multiplicity, SquareFreeFactorization};
use crate::integer::{Integer, signed_le};
use crate::polynomial::{Polynomial, trim};
use crate::rational::{Rational, lemma_lowest_pair, lowest_pair, lowest_terms};
use crate::traits::{CommutativeRing, RingSpec};

verus! {

/// The decimal digit for a number below ten.
pub open spec fn digit(d: nat) -> char {
    if d == 0 {
        '0'
    } else if d == 1 {
        '1'
    } else if d == 2 {
        '2'
    } else if d == 3 {
        '3'
    } else if d == 4 {
        '4'
    } else if d == 5 {
        '5'
    } else if d == 6 {
        '6'
    } else if d == 7 {
        '7'
    } else if d == 8 {
        '8'
    } else {
        '9'
    }
}

/// The decimal digits of a natural number, without leading zeros.
pub open spec fn decimal(n: nat) -> Seq<char>
    decreases n,
{
    if n < 10 {
        seq![digit(n)]
    } else {
        decimal(n / 10).push(digit(n % 10))
    }
}

/// An integer in decimal, with `-` before a negative one.
pub open spec fn integer_text(v: int) -> Seq<char> {
    if v < 0 {
        seq!['-'] + decimal((-v) as nat)
    } else {
        decimal(v as nat)
    }
}

/// A fraction as text: the numerator alone over the denominator one, else
/// numerator and denominator with `/` between them.
pub open spec fn fraction_text(n: int, d: int) -> Seq<char> {
    if d == 1 {
        integer_text(n)
    } else {
        integer_text(n) + "/"@ + integer_text(d)
    }
}

/// A rational number as text: its fraction in lowest terms.
pub open spec fn rational_text(v: real) -> Seq<char> {
    fraction_text(lowest_pair(v).0, lowest_pair(v).1)
}

/// The `Display` of `usize`: the number in decimal.
#[verifier::external_body]
fn usize_text(n: usize) -> (s: String)
    ensures
        s@ == decimal(n as nat),
{
    format!("{}", n)
}

/// The `Display` of `num::BigInt`: the number in decimal, with `-` before a
/// negative one.
#[verifier::external_body]
fn bytes_text(a: &Vec<u8>) -> (s: String)
    ensures
        s@ == integer_text(signed_le(a@)),
{
    format!("{}", num::BigInt::from_signed_bytes_le(a))
}

/// The `Display` of `num::BigRational`, made by `BigRational::new` from a
/// fraction in lowest terms: the numerator alone over the denominator one,
/// else numerator and denominator in decimal with `/` between them.
#[verifier::external_body]
fn ratio_text(n: &Integer, d: &Integer) -> (s: String)
    requires
        lowest_terms(n@, d@),
    ensures
        s@ == fraction_text(n@, d@),
{
    let f = num::BigInt::from_signed_bytes_le;
    format!("{}", num::BigRational::new(f(&n.bytes), f(&d.bytes)))
}

/// A coefficient that can be shown: with a text, a sign and an absolute
/// value.
pub trait PrintableCoeff: CommutativeRing {
    /// The text of a value.
    spec fn text_v(v: Self::V) -> Seq<char>;

    /// Whether a value is below zero.
    spec fn negative_v(v: Self::V) -> bool;

    /// The absolute value.
    spec fn abs_v(v: Self::V) -> Self::V;

    /// The coefficient as text.
    fn to_text(&self) -> (s: String)
        ensures
            s@ == Self::text_v(self@),
    ;

    /// Whether the coefficient is below zero.
    fn is_negative(&self) -> (b: bool)
        ensures
            b == Self::negative_v(self@),
    ;

    /// The absolute value of the coefficient.
    fn abs(&self) -> (r: Self)
        ensures
            r@ == Self::abs_v(self@),
    ;
}

impl PrintableCoeff for Integer {
    open spec fn text_v(v: int) -> Seq<char> {
        integer_text(v)
    }

    open spec fn negative_v(v: int) -> bool {
        v < 0
    }

    open spec fn abs_v(v: int) -> int {
        if v < 0 {
            -v
        } else {
            v
        }
    }

    fn to_text(&self) -> (s: String) {
        bytes_text(&self.bytes)
    }

    fn is_negative(&self) -> (b: bool) {
        self.is_negative()
    }

    fn abs(&self) -> (r: Self) {
        self.abs()
    }
}

impl PrintableCoeff for Rational {
    open spec fn text_v(v: real) -> Seq<char> {
        rational_text(v)
    }

    open spec fn negative_v(v: real) -> bool {
        v < 0real
    }

    open spec fn abs_v(v: real) -> real {
        if v < 0real {
            -v
        } else {
            v
        }
    }

    fn to_text(&self) -> (s: String) {
        let (n, d) = self.parts();
        proof {
            lemma_lowest_pair(n@, d@);
        }
        ratio_text(&n, &d)
    }

    fn is_negative(&self) -> (b: bool) {
        self.is_negative()
    }

    fn abs(&self) -> (r: Self) {
        self.abs()
    }
}

/// The text of a coefficient before a power of the variable: nothing for
/// one.
pub open spec fn text_if_not_one<T: PrintableCoeff>(v: T::V) -> Seq<char> {
    if v == T::one_v() {
        Seq::empty()
    } else {
        T::text_v(v)
    }
}

/// The text of a coefficient before a product: its sign, then its absolute
/// value unless that is one.
pub open spec fn text_as_factor<T: PrintableCoeff>(v: T::V) -> Seq<char> {
    (if T::negative_v(v) {
        "-"@
    } else {
        Seq::empty()
    }) + text_if_not_one::<T>(T::abs_v(v))
}

/// The text of the power `var^d` for `d >= 1`.
pub open spec fn power_text(var: Seq<char>, d: nat) -> Seq<char> {
    if d == 1 {
        var
    } else {
        var + "^"@ + decimal(d)
    }
}

/// The text of the term `c * var^d`, where `c` is not zero: the first term
/// as it is, every other one as ` + ` or ` - ` and its absolute value.
pub open spec fn term_text<T: PrintableCoeff>(
    c: T::V,
    var: Seq<char>,
    d: nat,
    first: bool,
) -> Seq<char> {
    let sep = if first {
        Seq::empty()
    } else if T::negative_v(c) {
        " - "@
    } else {
        " + "@
    };
    let shown = if first {
        c
    } else {
        T::abs_v(c)
    };
    if d == 0 {
        sep + T::text_v(shown)
    } else {
        sep + text_if_not_one::<T>(shown) + power_text(var, d)
    }
}

/// The text of the terms of a degree below `k`, from the highest down,
/// without those whose coefficient is zero.
pub open spec fn terms_text<T: PrintableCoeff>(
    p: Seq<T::V>,
    var: Seq<char>,
    k: nat,
    first: bool,
) -> Seq<char>
    decreases k,
{
    if k == 0 {
        Seq::empty()
    } else {
        let d = (k - 1) as nat;
        if p[d as int] == T::zero_v() {
            terms_text::<T>(p, var, d, first)
        } else {
            term_text::<T>(p[d as int], var, d, first) + terms_text::<T>(p, var, d, false)
        }
    }
}

/// The text of a polynomial in the variable `var`; nothing for the zero
/// polynomial.
pub open spec fn poly_text<T: PrintableCoeff>(p: Seq<T::V>, var: Seq<char>) -> Seq<char> {
    terms_text::<T>(p, var, p.len(), true)
}

/// The text of an exponent: nothing for one.
pub open spec fn exponent_text(m: nat) -> Seq<char> {
    if m > 1 {
        "^"@ + decimal(m)
    } else {
        Seq::empty()
    }
}

/// The text of the first `n` factors, each in brackets with its exponent.
pub open spec fn factors_text<T: PrintableCoeff>(
    fs: Seq<(Polynomial<T>, Multiplicity)>,
    var: Seq<char>,
    n: nat,
) -> Seq<char>
    decreases n,
{
    if n == 0 {
        Seq::empty()
    } else {
        factors_text::<T>(fs, var, (n - 1) as nat) + "("@ + poly_text::<T>(fs[n - 1].0@, var)
            + ")"@ + exponent_text(fs[n - 1].1@)
    }
}

/// The text of a factorization: the leading coefficient as a factor, then
/// the factors.
pub open spec fn factorization_text<T: PrintableCoeff>(
    lc: T::V,
    fs: Seq<(Polynomial<T>, Multiplicity)>,
    var: Seq<char>,
) -> Seq<char> {
    text_as_factor::<T>(lc) + factors_text::<T>(fs, var, fs.len())
}

/// The terms depend on the coefficients below `k` alone.
pub proof fn lemma_terms_congr<T: PrintableCoeff>(
    p: Seq<T::V>,
    q: Seq<T::V>,
    var: Seq<char>,
    k: nat,
    first: bool,
)
    requires
        k <= p.len(),
        k <= q.len(),
        forall|i: int| 0 <= i < k ==> p[i] == q[i],
    ensures
        terms_text::<T>(p, var, k, first) == terms_text::<T>(q, var, k, first),
    decreases k,
{
    if k > 0 {
        lemma_terms_congr::<T>(p, q, var, (k - 1) as nat, first);
        lemma_terms_congr::<T>(p, q, var, (k - 1) as nat, false);
    }
}

/// Zero coefficients at the end leave no trace in the text.
pub proof fn lemma_terms_trim<T: PrintableCoeff>(p: Seq<T::V>, var: Seq<char>)
    ensures
        terms_text::<T>(p, var, p.len(), true) == poly_text::<T>(trim::<T>(p), var),
    decreases p.len(),
{
    if p.len() > 0 && p.last() == T::zero_v() {
        let d = p.drop_last();
        lemma_terms_trim::<T>(d, var);
        lemma_terms_congr::<T>(p, d, var, d.len(), true);
    }
}

/// Writes a coefficient unless it is one.
pub fn print_if_not_one<T: PrintableCoeff>(x: &T, out: &mut String)
    ensures
        final(out)@ == old(out)@ + text_if_not_one::<T>(x@),
{
    if !x.is_one() {
        let t = x.to_text();
        out.append(t.as_str());
    } else {
        assert(out@ + Seq::<char>::empty() =~= out@);
    }
}

/// Writes a coefficient as a factor: its sign, then its absolute value
/// unless that is one.
pub fn print_as_factor<T: PrintableCoeff>(x: &T, out: &mut String)
    ensures
        final(out)@ == old(out)@ + text_as_factor::<T>(x@),
{
    let ghost pre = out@;
    if x.is_negative() {
        out.append("-");
    }
    let a = x.abs();
    print_if_not_one(&a, out);
    proof {
        let sign = if T::negative_v(x@) {
            "-"@
        } else {
            Seq::<char>::empty()
        };
        assert(out@ =~= pre + (sign + text_if_not_one::<T>(T::abs_v(x@))));
    }
}

/// Writes the power `var^d` for `d >= 1`.
fn write_power(var: &str, d: usize, out: &mut String)
    requires
        d >= 1,
    ensures
        final(out)@ == old(out)@ + power_text(var@, d as nat),
{
    let ghost pre = out@;
    out.append(var);
    if d != 1 {
        out.append("^");
        let e = usize_text(d);
        out.append(e.as_str());
        proof {
            assert(out@ =~= pre + (var@ + "^"@ + decimal(d as nat)));
        }
    }
}

/// Writes the term `c * var^d`, where `c` is not zero.
fn write_term<T: PrintableCoeff>(c: &T, var: &str, d: usize, first: bool, out: &mut String)
    ensures
        final(out)@ == old(out)@ + term_text::<T>(c@, var@, d as nat, first),
{
    let ghost pre = out@;
    let ghost sep = if first {
        Seq::<char>::empty()
    } else if T::negative_v(c@) {
        " - "@
    } else {
        " + "@
    };
    if !first {
        if c.is_negative() {
            out.append(" - ");
        } else {
            out.append(" + ");
        }
    }
    assert(out@ =~= pre + sep);
    let shown = if first {
        c.duplicate()
    } else {
        c.abs()
    };
    if d == 0 {
        let t = shown.to_text();
        out.append(t.as_str());
        assert(out@ =~= pre + (sep + T::text_v(shown@)));
    } else {
        print_if_not_one(&shown, out);
        write_power(var, d, out);
        assert(out@ =~= pre + (sep + text_if_not_one::<T>(shown@) + power_text(var@, d as nat)));
    }
}

/// A polynomial or a factorization together with the name of its variable,
/// ready to be shown.
pub struct PrintWithVar<'a, F> {
    pub var: &'a str,
    pub thing: &'a F,
}

impl<T: PrintableCoeff> Polynomial<T> {
    /// The polynomial, to be shown in the variable `var`.
    pub fn print_with_var<'a>(&'a self, var: &'a str) -> (r: PrintWithVar<'a, Polynomial<T>>)
        ensures
            r.var == var,
            r.thing == self,
    {
        PrintWithVar { var, thing: self }
    }
}

impl<T: PrintableCoeff> SquareFreeFactorization<T> {
    /// The factorization, to be shown in the variable `var`.
    pub fn print_with_var<'a>(&'a self, var: &'a str) -> (r: PrintWithVar<
        'a,
        SquareFreeFactorization<T>,
    >)
        ensures
            r.var == var,
            r.thing == self,
    {
        PrintWithVar { var, thing: self }
    }
}

impl<'a, T: PrintableCoeff> PrintWithVar<'a, Polynomial<T>> {
    /// Writes the polynomial at the end of `out`.
    #[verifier::rlimit(50)]
    pub fn write_to(&self, out: &mut String)
        ensures
            final(out)@ == old(out)@ + poly_text::<T>(self.thing@, self.var@),
    {
        let p = self.thing;
        let n = p.coeffs.len();
        let ghost start = out@;
        let ghost raw = p.raw();
        let ghost var = self.var@;
        let mut first = true;
        let mut k = n;
        proof {
            assert(start + Seq::<char>::empty() =~= start);
        }
        let ghost mut done = Seq::<char>::empty();
        while k > 0
            invariant
                k <= n,
                n == p.coeffs.len(),
                raw == p.raw(),
                var == self.var@,
                out@ == start + done,
                done + terms_text::<T>(raw, var, k as nat, first) == terms_text::<T>(
                    raw,
                    var,
                    n as nat,
                    true,
                ),
            decreases k,
        {
            let d = k - 1;
            let c = &p.coeffs[d];
            let ghost rest = terms_text::<T>(raw, var, d as nat, false);
            if !c.is_zero() {
                let ghost before = out@;
                write_term(c, self.var, d, first, out);
                proof {
                    let t = term_text::<T>(raw[d as int], var, d as nat, first);
                    assert(out@ =~= before + t);
                    assert((done + t) + rest =~= done + (t + rest));
                    assert(out@ =~= start + (done + t));
                    done = done + t;
                }
                first = false;
            }
            k = d;
        }
        proof {
            assert(done + Seq::<char>::empty() =~= done);
            lemma_terms_trim::<T>(raw, var);
        }
    }

    /// The polynomial as text: the terms from the highest degree down,
    /// joined by ` + ` and ` - `.
    pub fn to_text(&self) -> (s: String)
        ensures
            s@ == poly_text::<T>(self.thing@, self.var@),
    {
        let mut out = String::new();
        self.write_to(&mut out);
        proof {
            assert(Seq::<char>::empty() + poly_text::<T>(self.thing@, self.var@) =~= poly_text::<
                T,
            >(self.thing@, self.var@));
        }
        out
    }
}

impl<'a, T: PrintableCoeff> PrintWithVar<'a, SquareFreeFactorization<T>> {
    /// The factorization as text: the leading coefficient, then each factor
    /// in brackets, with its multiplicity as exponent where that is above
    /// one.
    pub fn to_text(&self) -> (s: String)
        ensures
            s@ == factorization_text::<T>(
                self.thing.leading_coeff@,
                self.thing.factors@,
                self.var@,
            ),
    {
        let fs = &self.thing.factors;
        let n = fs.len();
        let ghost var = self.var@;
        let mut out = String::new();
        print_as_factor(&self.thing.leading_coeff, &mut out);
        let ghost head = out@;
        proof {
            assert(head =~= text_as_factor::<T>(self.thing.leading_coeff@));
            assert(head + Seq::<char>::empty() =~= head);
        }
        let mut i: usize = 0;
        while i < n
            invariant
                i <= n,
                n == fs@.len(),
                var == self.var@,
                fs == &self.thing.factors,
                out@ == head + factors_text::<T>(fs@, var, i as nat),
            decreases n - i,
        {
            let ghost before = factors_text::<T>(fs@, var, i as nat);
            let item = &fs[i];
            out.append("(");
            let shown = item.0.print_with_var(self.var);
            shown.write_to(&mut out);
            out.append(")");
            let m = item.1.get();
            if m > 1 {
                out.append("^");
                let e = usize_text(m);
                out.append(e.as_str());
            }
            proof {
                let t = "("@ + poly_text::<T>(fs@[i as int].0@, var) + ")"@ + exponent_text(
                    fs@[i as int].1@,
                );
                assert(out@ =~= head + (before + t));
                assert(factors_text::<T>(fs@, var, (i + 1) as nat) =~= before + t);
            }
            i = i + 1;
        }
        out
    }
}

} // verus!
