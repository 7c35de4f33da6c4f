use vstd::prelude::*;
use vstd::string::StringExecFns;

use crate::arithmetic::Arithmetic;
use crate::errors::GridError;

verus! {

/// A dense polynomial over a coefficient ring: `coefficients[i]` is the
/// coefficient of `x^i`. The canonical form never ends in an additive
/// identity; the zero polynomial is the empty sequence. Values built
/// directly from a caller-supplied sequence are taken as given, and the
/// arithmetic operations produce canonical results.
pub struct Polynomial<T: Arithmetic> {
    coefficients: Vec<T>,
}

/// The degree of a polynomial; the zero polynomial has no finite degree.
#[derive(Clone, Copy, Debug, PartialEq, Eq, Structural)]
pub enum PolynomialDegree {
    NegativeInfinity,
    FiniteValue(usize),
}

/// The models of a sequence of coefficients.
pub open spec fn coeff_views<T: Arithmetic>(s: Seq<T>) -> Seq<T::V> {
    Seq::new(s.len(), |i: int| s[i]@)
}

impl<T: Arithmetic> View for Polynomial<T> {
    type V = Seq<T::V>;

    closed spec fn view(&self) -> Seq<T::V> {
        coeff_views(self.coefficients@)
    }
}

/// Canonical form over well-formed coefficients: the sequence is empty or
/// its last element is not the additive identity, and every coefficient is
/// itself well formed.
pub open spec fn poly_wf<T: Arithmetic>(s: Seq<T::V>) -> bool {
    &&& s.len() == 0 || s.last() != T::zero_model()
    &&& forall|i: int| 0 <= i < s.len() ==> T::wf_model(#[trigger] s[i])
}

/// The sequence with its trailing additive identities removed.
pub open spec fn poly_trim<T: Arithmetic>(s: Seq<T::V>) -> Seq<T::V>
    decreases s.len(),
{
    if s.len() == 0 {
        s
    } else if s.last() == T::zero_model() {
        poly_trim::<T>(s.drop_last())
    } else {
        s
    }
}

/// Trimming keeps a prefix: the result is an initial segment whose last
/// element (if any) is not zero, and everything it drops was zero.
pub proof fn lemma_trim_prefix<T: Arithmetic>(s: Seq<T::V>)
    ensures
        poly_trim::<T>(s).len() <= s.len(),
        poly_trim::<T>(s) == s.take(poly_trim::<T>(s).len() as int),
        forall|i: int| poly_trim::<T>(s).len() <= i < s.len() ==> s[i] == T::zero_model(),
        poly_trim::<T>(s).len() > 0 ==> poly_trim::<T>(s).last() != T::zero_model(),
        s.len() > 0 && s.last() != T::zero_model() ==> poly_trim::<T>(s) == s,
    decreases s.len(),
{
    if s.len() == 0 {
        assert(poly_trim::<T>(s) =~= s.take(0));
    } else if s.last() == T::zero_model() {
        lemma_trim_prefix::<T>(s.drop_last());
        assert(s.drop_last().take(poly_trim::<T>(s).len() as int) =~= s.take(
            poly_trim::<T>(s).len() as int,
        ));
        assert forall|i: int| poly_trim::<T>(s).len() <= i < s.len() implies s[i]
            == T::zero_model() by {
            if i < s.len() - 1 {
                assert(s.drop_last()[i] == s[i]);
            }
        }
    } else {
        assert(poly_trim::<T>(s) =~= s.take(s.len() as int));
    }
}

/// A sequence that extends a canonical `t` by zeros trims to exactly `t`.
pub proof fn lemma_trim_to<T: Arithmetic>(s: Seq<T::V>, t: Seq<T::V>)
    requires
        t.len() <= s.len(),
        forall|i: int| 0 <= i < t.len() ==> s[i] == t[i],
        forall|i: int| t.len() <= i < s.len() ==> s[i] == T::zero_model(),
        t.len() > 0 ==> t.last() != T::zero_model(),
    ensures
        poly_trim::<T>(s) == t,
    decreases s.len(),
{
    if s.len() == t.len() {
        assert(s =~= t);
        lemma_trim_prefix::<T>(t);
    } else {
        assert(s.last() == T::zero_model());
        lemma_trim_to::<T>(s.drop_last(), t);
    }
}

/// Position-wise sums of `base` and (a possibly shorter) `small`, at the
/// length of `base`.
pub open spec fn padd_into<T: Arithmetic>(base: Seq<T::V>, small: Seq<T::V>) -> Seq<T::V> {
    Seq::new(
        base.len(),
        |i: int|
            if i < small.len() {
                T::add_model(base[i], small[i])
            } else {
                base[i]
            },
    )
}

/// In-place addition `p += q`: the longer operand is kept as the
/// accumulator, and the result is re-trimmed only when the accumulator was
/// the right-hand side (a known-canonical longer left operand keeps its
/// leading coefficient).
pub open spec fn poly_add_assign_spec<T: Arithmetic>(p: Seq<T::V>, q: Seq<T::V>) -> Seq<T::V> {
    if q.len() == 0 {
        p
    } else if p.len() == 0 {
        q
    } else if p.len() > q.len() {
        padd_into::<T>(p, q)
    } else {
        poly_trim::<T>(padd_into::<T>(q, p))
    }
}

/// Addition `p + q`: the operand of larger degree serves as the accumulator.
pub open spec fn poly_add<T: Arithmetic>(p: Seq<T::V>, q: Seq<T::V>) -> Seq<T::V> {
    if q.len() == 0 {
        p
    } else if p.len() == 0 {
        q
    } else if p.len() > q.len() {
        poly_add_assign_spec::<T>(p, q)
    } else {
        poly_add_assign_spec::<T>(q, p)
    }
}

/// Negation: every coefficient is replaced by its additive inverse.
pub open spec fn poly_neg<T: Arithmetic>(p: Seq<T::V>) -> Seq<T::V> {
    Seq::new(p.len(), |i: int| T::neg_model(p[i]))
}

/// In-place subtraction `p -= q`, defined as addition of the negation.
pub open spec fn poly_sub_assign_spec<T: Arithmetic>(p: Seq<T::V>, q: Seq<T::V>) -> Seq<T::V> {
    poly_add_assign_spec::<T>(p, poly_neg::<T>(q))
}

/// In-place addition keeps canonical form.
pub proof fn lemma_poly_add_assign_wf<T: Arithmetic>(p: Seq<T::V>, q: Seq<T::V>)
    requires
        poly_wf::<T>(p),
        poly_wf::<T>(q),
    ensures
        poly_wf::<T>(poly_add_assign_spec::<T>(p, q)),
{
    if q.len() == 0 || p.len() == 0 {
    } else if p.len() > q.len() {
        assert forall|i: int| 0 <= i < p.len() implies T::wf_model(
            #[trigger] padd_into::<T>(p, q)[i],
        ) by {
            if i < q.len() {
                T::lemma_laws(p[i], q[i]);
            }
        }
        assert(padd_into::<T>(p, q).last() == p.last());
    } else {
        let u = padd_into::<T>(q, p);
        assert forall|i: int| 0 <= i < u.len() implies T::wf_model(#[trigger] u[i]) by {
            if i < p.len() {
                T::lemma_laws(q[i], p[i]);
            }
        }
        lemma_trim_prefix::<T>(u);
        assert forall|i: int| 0 <= i < poly_trim::<T>(u).len() implies T::wf_model(
            #[trigger] poly_trim::<T>(u)[i],
        ) by {
            assert(poly_trim::<T>(u)[i] == u[i]);
        }
    }
}

/// Negation keeps canonical form.
pub proof fn lemma_poly_neg_wf<T: Arithmetic>(p: Seq<T::V>)
    requires
        poly_wf::<T>(p),
    ensures
        poly_wf::<T>(poly_neg::<T>(p)),
{
    assert forall|i: int| 0 <= i < p.len() implies T::wf_model(#[trigger] poly_neg::<T>(p)[i]) by {
        T::lemma_laws(p[i], p[i]);
    }
    if p.len() > 0 {
        let l = p.last();
        T::lemma_laws(l, l);
        if T::neg_model(l) == T::zero_model() {
            // a zero inverse would force the leading coefficient itself to zero
            assert(T::add_model(T::neg_model(l), l) == T::zero_model());
            assert(T::add_model(T::zero_model(), l) == l);
            assert(false);
        }
    }
}

/// Addition (either form) and subtraction keep canonical form.
pub proof fn lemma_poly_add_wf<T: Arithmetic>(p: Seq<T::V>, q: Seq<T::V>)
    requires
        poly_wf::<T>(p),
        poly_wf::<T>(q),
    ensures
        poly_wf::<T>(poly_add::<T>(p, q)),
        poly_wf::<T>(poly_sub_assign_spec::<T>(p, q)),
{
    lemma_poly_add_assign_wf::<T>(p, q);
    lemma_poly_add_assign_wf::<T>(q, p);
    lemma_poly_neg_wf::<T>(q);
    lemma_poly_add_assign_wf::<T>(p, poly_neg::<T>(q));
}

/// Addition is commutative: `P+Q` and `Q+P` give identical canonical
/// coefficient sequences.
pub proof fn lemma_poly_add_comm<T: Arithmetic>(p: Seq<T::V>, q: Seq<T::V>)
    requires
        poly_wf::<T>(p),
        poly_wf::<T>(q),
    ensures
        poly_add::<T>(p, q) == poly_add::<T>(q, p),
{
    if p.len() == 0 || q.len() == 0 || p.len() != q.len() {
    } else {
        assert forall|i: int| 0 <= i < p.len() implies padd_into::<T>(q, p)[i] == padd_into::<T>(
            p,
            q,
        )[i] by {
            T::lemma_laws(p[i], q[i]);
        }
        assert(padd_into::<T>(q, p) =~= padd_into::<T>(p, q));
    }
}

/// In-place addition is commutative on well-formed operands.
proof fn lemma_assign_comm<T: Arithmetic>(p: Seq<T::V>, q: Seq<T::V>)
    requires
        poly_wf::<T>(p),
        poly_wf::<T>(q),
    ensures
        poly_add_assign_spec::<T>(p, q) == poly_add_assign_spec::<T>(q, p),
{
    if p.len() == 0 || q.len() == 0 {
    } else if p.len() > q.len() {
        assert(padd_into::<T>(p, q).last() == p.last());
        lemma_trim_prefix::<T>(padd_into::<T>(p, q));
    } else if q.len() > p.len() {
        assert(padd_into::<T>(q, p).last() == q.last());
        lemma_trim_prefix::<T>(padd_into::<T>(q, p));
    } else {
        assert forall|i: int| 0 <= i < p.len() implies padd_into::<T>(q, p)[i] == padd_into::<T>(
            p,
            q,
        )[i] by {
            T::lemma_laws(p[i], q[i]);
        }
        assert(padd_into::<T>(q, p) =~= padd_into::<T>(p, q));
    }
}

/// Adding the negation of a well-formed value to it gives the zero
/// polynomial.
proof fn lemma_assign_neg_add<T: Arithmetic>(a: Seq<T::V>)
    requires
        poly_wf::<T>(a),
    ensures
        poly_add_assign_spec::<T>(poly_neg::<T>(a), a) == Seq::<T::V>::empty(),
{
    let nb = poly_neg::<T>(a);
    if a.len() == 0 {
        assert(nb =~= Seq::<T::V>::empty());
    } else {
        let u = padd_into::<T>(a, nb);
        assert forall|i: int| 0 <= i < u.len() implies u[i] == T::zero_model() by {
            T::lemma_laws(a[i], T::neg_model(a[i]));
            T::lemma_laws(a[i], a[i]);
        }
        lemma_trim_to::<T>(u, Seq::<T::V>::empty());
    }
}

/// A well-formed value whose sum with another well-formed value vanishes
/// is the negation of the other.
proof fn lemma_assign_neg_unique<T: Arithmetic>(a: Seq<T::V>, b: Seq<T::V>)
    requires
        poly_wf::<T>(a),
        poly_wf::<T>(b),
        poly_add_assign_spec::<T>(a, b) == Seq::<T::V>::empty(),
    ensures
        poly_neg::<T>(b) == a,
{
    if b.len() == 0 {
        assert(a == Seq::<T::V>::empty());
        assert(poly_neg::<T>(b) =~= a);
    } else if a.len() == 0 {
        assert(poly_add_assign_spec::<T>(a, b).len() == b.len());
        assert(false);
    } else if a.len() > b.len() {
        assert(poly_add_assign_spec::<T>(a, b).len() == a.len());
        assert(false);
    } else {
        let u = padd_into::<T>(b, a);
        lemma_trim_prefix::<T>(u);
        assert(poly_trim::<T>(u).len() == 0);
        if b.len() > a.len() {
            assert(u.last() == b.last());
            assert(false);
        }
        assert forall|i: int| 0 <= i < b.len() implies poly_neg::<T>(b)[i] == a[i] by {
            assert(u[i] == T::zero_model());
            T::lemma_laws(b[i], a[i]);
            T::lemma_laws(a[i], b[i]);
        }
        assert(poly_neg::<T>(b) =~= a);
    }
}

/// Adding and then subtracting the same well-formed value gives back the
/// original: `(a + b) - b == a`.
proof fn lemma_assign_cancel<T: Arithmetic>(a: Seq<T::V>, b: Seq<T::V>)
    requires
        poly_wf::<T>(a),
        poly_wf::<T>(b),
    ensures
        poly_add_assign_spec::<T>(poly_add_assign_spec::<T>(a, b), poly_neg::<T>(b)) == a,
{
    let s = poly_add_assign_spec::<T>(a, b);
    let nb = poly_neg::<T>(b);
    if b.len() == 0 {
        assert(nb =~= Seq::<T::V>::empty());
        assert(poly_add_assign_spec::<T>(s, nb) == a);
    } else if a.len() == 0 {
        assert(s == b);
        let w = padd_into::<T>(nb, b);
        assert forall|i: int| 0 <= i < w.len() implies w[i] == T::zero_model() by {
            T::lemma_laws(b[i], b[i]);
        }
        lemma_trim_to::<T>(w, Seq::<T::V>::empty());
        assert(a =~= Seq::<T::V>::empty());
    } else if a.len() > b.len() {
        assert(s == padd_into::<T>(a, b));
        assert(s.len() == a.len());
        let w = padd_into::<T>(s, nb);
        assert forall|i: int| 0 <= i < w.len() implies w[i] == a[i] by {
            if i < b.len() {
                T::lemma_laws(a[i], b[i]);
                let z = T::add_model(a[i], b[i]);
                T::lemma_laws(b[i], b[i]);
                T::lemma_laws(T::neg_model(b[i]), z);
                T::lemma_laws(z, b[i]);
            }
        }
        assert(w =~= a);
    } else {
        let u = padd_into::<T>(b, a);
        assert(s == poly_trim::<T>(u));
        lemma_trim_prefix::<T>(u);
        let len = s.len() as int;
        if len == 0 {
            // everything cancelled: the operands negate each other
            if b.len() > a.len() {
                assert(u.last() == b.last());
                assert(false);
            }
            assert(poly_add_assign_spec::<T>(s, nb) == nb);
            assert forall|i: int| 0 <= i < b.len() implies nb[i] == a[i] by {
                assert(u[i] == T::zero_model());
                T::lemma_laws(b[i], a[i]);
                T::lemma_laws(a[i], b[i]);
            }
            assert(nb =~= a);
        } else {
            assert(poly_add_assign_spec::<T>(s, nb) == poly_trim::<T>(padd_into::<T>(nb, s)));
            let w = padd_into::<T>(nb, s);
            assert forall|i: int| 0 <= i < w.len() implies w[i] == (if i < a.len() {
                a[i]
            } else {
                T::zero_model()
            }) by {
                if i < len {
                    assert(s[i] == u[i]);
                    if i < a.len() {
                        // (b+a) plus -b gives back a
                        T::lemma_laws(a[i], b[i]);
                        T::lemma_laws(b[i], a[i]);
                        let z = T::add_model(a[i], b[i]);
                        T::lemma_laws(b[i], b[i]);
                        T::lemma_laws(T::neg_model(b[i]), z);
                        T::lemma_laws(z, b[i]);
                    } else {
                        T::lemma_laws(b[i], b[i]);
                    }
                } else {
                    assert(u[i] == T::zero_model());
                    if i < a.len() {
                        T::lemma_laws(b[i], a[i]);
                        T::lemma_laws(a[i], b[i]);
                    } else {
                        // b[i] itself vanished, so its negation does too
                        assert(b[i] == T::zero_model());
                        T::lemma_laws(T::zero_model(), T::zero_model());
                        T::lemma_laws(b[i], b[i]);
                    }
                }
            }
            lemma_trim_to::<T>(w, a);
        }
    }
}

/// The partial convolution sum at output position `k`: the contributions
/// of the first `rows` coefficients of `p`, accumulated in index order
/// starting from the additive identity.
pub open spec fn conv_cell_partial<T: Arithmetic>(p: Seq<T::V>, q: Seq<T::V>, k: int, rows: int) -> T::V
    decreases rows,
{
    if rows <= 0 {
        T::zero_model()
    } else {
        let prev = conv_cell_partial::<T>(p, q, k, rows - 1);
        let i = rows - 1;
        if 0 <= k - i < q.len() {
            T::add_model(prev, T::mul_model(p[i], q[k - i]))
        } else {
            prev
        }
    }
}

/// The discrete convolution of `p` and `q` at position `k`: the sum of
/// `p[i] * q[k - i]` over every valid `i`.
pub open spec fn conv_cell<T: Arithmetic>(p: Seq<T::V>, q: Seq<T::V>, k: int) -> T::V {
    conv_cell_partial::<T>(p, q, k, p.len() as int)
}

/// Multiplication: either operand zero short-circuits to the zero
/// polynomial; otherwise the trimmed discrete convolution.
pub open spec fn poly_mul<T: Arithmetic>(p: Seq<T::V>, q: Seq<T::V>) -> Seq<T::V> {
    if q.len() == 0 {
        q
    } else if p.len() == 0 {
        p
    } else {
        poly_trim::<T>(Seq::new((p.len() + q.len()) as nat, |k: int| conv_cell::<T>(p, q, k)))
    }
}

/// A convolution cell left of every contribution window is the additive
/// identity: every index `i < rows` has `k - i` at or past the end of `q`.
proof fn lemma_conv_cell_none<T: Arithmetic>(p: Seq<T::V>, q: Seq<T::V>, k: int, rows: int)
    requires
        k - (rows - 1) >= q.len(),
    ensures
        conv_cell_partial::<T>(p, q, k, rows) == T::zero_model(),
    decreases rows,
{
    if rows > 0 {
        lemma_conv_cell_none::<T>(p, q, k, rows - 1);
    }
}

/// A convolution cell whose only contribution comes from the last row is
/// the identity plus that single product.
proof fn lemma_conv_cell_single<T: Arithmetic>(p: Seq<T::V>, q: Seq<T::V>, k: int, rows: int)
    requires
        rows >= 1,
        q.len() > 0,
        k - (rows - 1) == q.len() - 1,
    ensures
        conv_cell_partial::<T>(p, q, k, rows) == T::add_model(
            T::zero_model(),
            T::mul_model(p[rows - 1], q[k - (rows - 1)]),
        ),
{
    lemma_conv_cell_none::<T>(p, q, k, rows - 1);
}

/// Every partial convolution sum over well-formed operands is well formed.
proof fn lemma_conv_cell_wf<T: Arithmetic>(p: Seq<T::V>, q: Seq<T::V>, k: int, rows: int)
    requires
        poly_wf::<T>(p),
        poly_wf::<T>(q),
        rows <= p.len(),
    ensures
        T::wf_model(conv_cell_partial::<T>(p, q, k, rows)),
    decreases rows,
{
    T::lemma_laws(T::zero_model(), T::zero_model());
    if rows > 0 {
        lemma_conv_cell_wf::<T>(p, q, k, rows - 1);
        let prev = conv_cell_partial::<T>(p, q, k, rows - 1);
        let i = rows - 1;
        if 0 <= k - i < q.len() {
            T::lemma_laws(p[i], q[k - i]);
            T::lemma_laws(prev, T::mul_model(p[i], q[k - i]));
        }
    }
}

/// Multiplication keeps canonical form.
pub proof fn lemma_poly_mul_wf<T: Arithmetic>(p: Seq<T::V>, q: Seq<T::V>)
    requires
        poly_wf::<T>(p),
        poly_wf::<T>(q),
    ensures
        poly_wf::<T>(poly_mul::<T>(p, q)),
{
    if q.len() == 0 || p.len() == 0 {
    } else {
        let buf = Seq::new((p.len() + q.len()) as nat, |k: int| conv_cell::<T>(p, q, k));
        assert forall|i: int| 0 <= i < buf.len() implies T::wf_model(#[trigger] buf[i]) by {
            lemma_conv_cell_wf::<T>(p, q, i, p.len() as int);
        }
        lemma_trim_prefix::<T>(buf);
        assert forall|i: int| 0 <= i < poly_trim::<T>(buf).len() implies T::wf_model(
            #[trigger] poly_trim::<T>(buf)[i],
        ) by {
            assert(poly_trim::<T>(buf)[i] == buf[i]);
        }
    }
}

/// Either operand zero makes the product the zero polynomial.
pub proof fn lemma_poly_mul_zero<T: Arithmetic>(p: Seq<T::V>)
    ensures
        poly_mul::<T>(p, Seq::<T::V>::empty()) == Seq::<T::V>::empty(),
        poly_mul::<T>(Seq::<T::V>::empty(), p) == Seq::<T::V>::empty(),
{
    if p.len() > 0 {
        assert(poly_mul::<T>(Seq::<T::V>::empty(), p) =~= Seq::<T::V>::empty());
    }
}

/// The degree law: when neither operand is zero and the product of the
/// leading coefficients does not vanish, the degree of the product is the
/// sum of the degrees. (Either operand zero gives the zero polynomial, by
/// the definition of `poly_mul`.)
pub proof fn lemma_poly_mul_degree<T: Arithmetic>(p: Seq<T::V>, q: Seq<T::V>)
    requires
        poly_wf::<T>(p),
        poly_wf::<T>(q),
        p.len() > 0,
        q.len() > 0,
        p.len() + q.len() <= usize::MAX,
        T::mul_model(p.last(), q.last()) != T::zero_model(),
    ensures
        poly_mul::<T>(p, q).len() == p.len() + q.len() - 1,
        degree_of(poly_mul::<T>(p, q)) == PolynomialDegree::FiniteValue(
            ((p.len() - 1) + (q.len() - 1)) as usize,
        ),
{
    let np = p.len() as int;
    let nq = q.len() as int;
    let buf = Seq::new((np + nq) as nat, |k: int| conv_cell::<T>(p, q, k));
    lemma_conv_cell_none::<T>(p, q, np + nq - 1, np);
    assert(buf.last() == T::zero_model());
    let lead = T::mul_model(p[np - 1], q[nq - 1]);
    lemma_conv_cell_single::<T>(p, q, np + nq - 2, np);
    assert(T::wf_model(p[np - 1]));
    assert(T::wf_model(q[nq - 1]));
    T::lemma_laws(p[np - 1], q[nq - 1]);
    T::lemma_laws(lead, lead);
    assert(buf[np + nq - 2] == lead);
    lemma_trim_to::<T>(buf, buf.drop_last());
    assert(poly_mul::<T>(p, q).len() == np + nq - 1);
}

/// The next quotient coefficient of the long division: the leading
/// coefficient of the remainder divided by the leading coefficient of the
/// divisor.
pub open spec fn div_lead<T: Arithmetic>(rem: Seq<T::V>, d: Seq<T::V>) -> T::V {
    T::div_model(rem.last(), d.last())
}

/// One long-division step: subtract `div_lead * d`, aligned at degree
/// `rem.len() - d.len()`, from everything below the top coefficient, and
/// drop the top (whose cancellation is implicit).
pub open spec fn div_step<T: Arithmetic>(rem: Seq<T::V>, d: Seq<T::V>) -> Seq<T::V> {
    let mq = div_lead::<T>(rem, d);
    let deg = rem.len() - d.len();
    Seq::new(
        (rem.len() - 1) as nat,
        |i: int|
            if deg <= i {
                T::sub_model(rem[i], T::mul_model(mq, d[i - deg]))
            } else {
                rem[i]
            },
    )
}

/// The quotient of exact long division of `rem` by `d`: steps repeat while
/// the remainder is at least as long as the divisor, and whatever remainder
/// is left at the end is discarded (division is assumed exact by the
/// caller).
pub open spec fn poly_div_quotient<T: Arithmetic>(rem: Seq<T::V>, d: Seq<T::V>) -> Seq<T::V>
    decreases rem.len(),
{
    if d.len() == 0 || rem.len() < d.len() {
        Seq::empty()
    } else {
        poly_div_quotient::<T>(div_step::<T>(rem, d), d).push(div_lead::<T>(rem, d))
    }
}

/// The quotient's length: one coefficient per long-division step.
pub proof fn lemma_div_quotient_len<T: Arithmetic>(rem: Seq<T::V>, d: Seq<T::V>)
    requires
        d.len() > 0,
    ensures
        poly_div_quotient::<T>(rem, d).len() == if rem.len() < d.len() {
            0int
        } else {
            rem.len() - d.len() + 1
        },
    decreases rem.len(),
{
    if rem.len() >= d.len() {
        lemma_div_quotient_len::<T>(div_step::<T>(rem, d), d);
    }
}

/// The variable part of one printed term: nothing for degree 0, a bare
/// `x` for degree 1, `x^d` above that.
pub open spec fn pow_str(d: int) -> Seq<char> {
    if d == 0 {
        Seq::empty()
    } else if d == 1 {
        "x"@
    } else {
        "x^"@ + crate::decimal::dec_of(d)
    }
}

/// One printed term of degree `d`: nothing when the coefficient is the
/// additive identity; otherwise the parenthesized coefficient and the
/// variable part, preceded by a separator whenever the term sits below the
/// top degree of the sequence.
pub open spec fn term_str<T: Arithmetic>(c: Seq<T::V>, d: int) -> Seq<char> {
    if c[d] == T::zero_model() {
        Seq::empty()
    } else {
        (if d < c.len() - 1 {
            " + "@
        } else {
            Seq::<char>::empty()
        }) + "("@ + T::display_model(c[d]) + ")"@ + pow_str(d)
    }
}

/// The printed terms of every degree from the top of the sequence down to
/// `k`, highest degree first.
pub open spec fn terms_from<T: Arithmetic>(c: Seq<T::V>, k: int) -> Seq<char>
    decreases c.len() - k,
{
    if k < 0 || k >= c.len() {
        Seq::empty()
    } else {
        terms_from::<T>(c, k + 1) + term_str::<T>(c, k)
    }
}

/// The full rendering: `P[(0)]` for the zero polynomial, otherwise the
/// nonzero terms between `P[` and `]`, highest degree first.
pub open spec fn poly_str<T: Arithmetic>(c: Seq<T::V>) -> Seq<char> {
    if c.len() == 0 {
        "P[(0)]"@
    } else {
        "P["@ + terms_from::<T>(c, 0) + "]"@
    }
}

/// The degree sentinel of a coefficient sequence.
pub open spec fn degree_of<A>(s: Seq<A>) -> PolynomialDegree {
    if s.len() == 0 {
        PolynomialDegree::NegativeInfinity
    } else {
        PolynomialDegree::FiniteValue((s.len() - 1) as usize)
    }
}

/// Removes every trailing additive identity, in place.
pub fn drop_trailing_zeros<T: Arithmetic>(coefficients: &mut Vec<T>)
    ensures
        coeff_views(final(coefficients)@) == poly_trim::<T>(coeff_views(old(coefficients)@)),
{
    loop
        invariant
            poly_trim::<T>(coeff_views(coefficients@)) == poly_trim::<T>(
                coeff_views(old(coefficients)@),
            ),
        decreases coefficients@.len(),
    {
        let n = coefficients.len();
        if n == 0 {
            return ;
        }
        if !coefficients[n - 1].is_zero() {
            assert(coeff_views(coefficients@).last() != T::zero_model());
            assert(poly_trim::<T>(coeff_views(coefficients@)) == coeff_views(coefficients@));
            return ;
        }
        assert(coeff_views(coefficients@).last() == T::zero_model());
        let ghost before = coefficients@;
        coefficients.pop();
        assert(coeff_views(coefficients@) =~= coeff_views(before).drop_last());
    }
}

impl<T: Arithmetic> Polynomial<T> {
    /// Wraps a caller-supplied coefficient sequence, as given: no
    /// canonicalization happens at construction.
    pub fn new(coefficients: Vec<T>) -> (r: Polynomial<T>)
        ensures
            r@ == coeff_views(coefficients@),
    {
        Polynomial { coefficients }
    }

    /// An independent copy: two holders can mutate their own copies freely.
    pub fn clone_poly(&self) -> (r: Polynomial<T>)
        ensures
            r@ == self@,
    {
        let r = Polynomial { coefficients: crate::arithmetic::clone_values(&self.coefficients) };
        proof {
            assert(r@ =~= self@);
        }
        r
    }

    /// The degree sentinel; `NegativeInfinity` exactly for the zero
    /// polynomial (the empty coefficient sequence).
    pub fn degree(&self) -> (r: PolynomialDegree)
        ensures
            r == degree_of(self@),
            r == PolynomialDegree::NegativeInfinity <==> self@ == Seq::<T::V>::empty(),
    {
        let len = self.coefficients.len();
        proof {
            if len == 0 {
                assert(self@ =~= Seq::<T::V>::empty());
            }
        }
        match len {
            0 => PolynomialDegree::NegativeInfinity,
            _ => PolynomialDegree::FiniteValue(len - 1),
        }
    }

    /// In-place addition; the result is canonical when both operands were.
    pub fn add_assign(&mut self, rhs: &Polynomial<T>)
        ensures
            final(self)@ == poly_add_assign_spec::<T>(old(self)@, rhs@),
            poly_wf::<T>(old(self)@) && poly_wf::<T>(rhs@) ==> poly_wf::<T>(final(self)@),
    {
        proof {
            if poly_wf::<T>(old(self)@) && poly_wf::<T>(rhs@) {
                lemma_poly_add_assign_wf::<T>(old(self)@, rhs@);
            }
        }
        if rhs.coefficients.len() == 0 {
            return ;
        }
        if self.coefficients.len() == 0 {
            self.coefficients = crate::arithmetic::clone_values(&rhs.coefficients);
            assert(self@ =~= rhs@);
            return ;
        }
        if self.coefficients.len() > rhs.coefficients.len() {
            let n = rhs.coefficients.len();
            let mut i: usize = 0;
            while i < n
                invariant
                    n == rhs.coefficients@.len(),
                    i <= n,
                    n <= self.coefficients@.len(),
                    self.coefficients@.len() == old(self)@.len(),
                    forall|j: int|
                        0 <= j < i ==> self.coefficients@[j]@ == T::add_model(
                            old(self)@[j],
                            rhs@[j],
                        ),
                    forall|j: int|
                        i <= j < old(self)@.len() ==> self.coefficients@[j]@ == old(self)@[j],
                decreases n - i,
            {
                let e = &mut self.coefficients[i];
                e.add_in_place(&rhs.coefficients[i]);
                i = i + 1;
            }
            assert(self@ =~= padd_into::<T>(old(self)@, rhs@));
        } else {
            let n = self.coefficients.len();
            let mut tmp = crate::arithmetic::clone_values(&rhs.coefficients);
            let mut i: usize = 0;
            while i < n
                invariant
                    n == self.coefficients@.len(),
                    self@ == old(self)@,
                    i <= n,
                    n <= rhs.coefficients@.len(),
                    tmp@.len() == rhs.coefficients@.len(),
                    forall|j: int| 0 <= j < i ==> tmp@[j]@ == T::add_model(rhs@[j], old(self)@[j]),
                    forall|j: int| i <= j < rhs@.len() ==> tmp@[j]@ == rhs@[j],
                decreases n - i,
            {
                let e = &mut tmp[i];
                e.add_in_place(&self.coefficients[i]);
                i = i + 1;
            }
            assert(coeff_views(tmp@) =~= padd_into::<T>(rhs@, old(self)@));
            drop_trailing_zeros(&mut tmp);
            self.coefficients = tmp;
        }
    }

    /// Addition; commutative, and canonical when both operands are.
    pub fn add(&self, rhs: &Polynomial<T>) -> (r: Polynomial<T>)
        ensures
            r@ == poly_add::<T>(self@, rhs@),
            poly_wf::<T>(self@) && poly_wf::<T>(rhs@) ==> poly_wf::<T>(r@),
    {
        proof {
            if poly_wf::<T>(self@) && poly_wf::<T>(rhs@) {
                lemma_poly_add_wf::<T>(self@, rhs@);
                lemma_poly_add_assign_wf::<T>(rhs@, self@);
            }
        }
        if rhs.coefficients.len() == 0 {
            self.clone_poly()
        } else if self.coefficients.len() == 0 {
            rhs.clone_poly()
        } else if self.coefficients.len() > rhs.coefficients.len() {
            let mut r = self.clone_poly();
            r.add_assign(rhs);
            r
        } else {
            let mut r = rhs.clone_poly();
            r.add_assign(self);
            r
        }
    }

    /// Negation; maps every coefficient to its additive inverse and keeps
    /// canonical form.
    pub fn neg(&self) -> (r: Polynomial<T>)
        ensures
            r@ == poly_neg::<T>(self@),
            poly_wf::<T>(self@) ==> poly_wf::<T>(r@),
    {
        proof {
            if poly_wf::<T>(self@) {
                lemma_poly_neg_wf::<T>(self@);
            }
        }
        let n = self.coefficients.len();
        let mut out: Vec<T> = Vec::new();
        let mut i: usize = 0;
        while i < n
            invariant
                n == self.coefficients@.len(),
                i <= n,
                out@.len() == i,
                forall|j: int| 0 <= j < i ==> out@[j]@ == T::neg_model(self.coefficients@[j]@),
            decreases n - i,
        {
            out.push(self.coefficients[i].neg_val());
            i = i + 1;
        }
        let r = Polynomial { coefficients: out };
        proof {
            assert(r@ =~= poly_neg::<T>(self@));
        }
        r
    }

    /// In-place subtraction: addition of the negation.
    pub fn sub_assign(&mut self, rhs: &Polynomial<T>)
        ensures
            final(self)@ == poly_sub_assign_spec::<T>(old(self)@, rhs@),
            poly_wf::<T>(old(self)@) && poly_wf::<T>(rhs@) ==> poly_wf::<T>(final(self)@),
    {
        proof {
            if poly_wf::<T>(old(self)@) && poly_wf::<T>(rhs@) {
                lemma_poly_neg_wf::<T>(rhs@);
                lemma_poly_add_assign_wf::<T>(old(self)@, poly_neg::<T>(rhs@));
            }
        }
        let n = rhs.neg();
        self.add_assign(&n);
    }

    /// Subtraction, on copies of the operands.
    pub fn sub(&self, rhs: &Polynomial<T>) -> (r: Polynomial<T>)
        ensures
            r@ == poly_sub_assign_spec::<T>(self@, rhs@),
            poly_wf::<T>(self@) && poly_wf::<T>(rhs@) ==> poly_wf::<T>(r@),
    {
        let mut r = self.clone_poly();
        r.sub_assign(rhs);
        r
    }

    /// Multiplication by discrete convolution, trimmed to canonical form;
    /// either operand zero short-circuits to the zero polynomial.
    pub fn mul(&self, rhs: &Polynomial<T>) -> (r: Polynomial<T>)
        ensures
            r@ == poly_mul::<T>(self@, rhs@),
            poly_wf::<T>(self@) && poly_wf::<T>(rhs@) ==> poly_wf::<T>(r@),
    {
        proof {
            if poly_wf::<T>(self@) && poly_wf::<T>(rhs@) {
                lemma_poly_mul_wf::<T>(self@, rhs@);
            }
        }
        if rhs.coefficients.len() == 0 {
            return rhs.clone_poly();
        }
        if self.coefficients.len() == 0 {
            return self.clone_poly();
        }
        let np = self.coefficients.len();
        let nq = rhs.coefficients.len();
        let mut buf = crate::arithmetic::zero_values_pair::<T>(np, nq);
        let buf_len = buf.len();
        assert(np + nq <= usize::MAX) by {
            assert(buf_len == buf@.len());
        }
        let ghost p = self@;
        let ghost q = rhs@;
        let mut i: usize = 0;
        while i < np
            invariant
                np == self.coefficients@.len(),
                nq == rhs.coefficients@.len(),
                p == self@,
                q == rhs@,
                np + nq <= usize::MAX,
                np > 0,
                nq > 0,
                i <= np,
                buf@.len() == np + nq,
                forall|k: int|
                    0 <= k < np + nq ==> buf@[k]@ == conv_cell_partial::<T>(p, q, k, i as int),
            decreases np - i,
        {
            let mut j: usize = 0;
            while j < nq
                invariant
                    np == self.coefficients@.len(),
                    nq == rhs.coefficients@.len(),
                    p == self@,
                    q == rhs@,
                    np + nq <= usize::MAX,
                    i < np,
                    j <= nq,
                    buf@.len() == np + nq,
                    forall|k: int|
                        0 <= k < np + nq ==> buf@[k]@ == (if i <= k < i + j {
                            T::add_model(
                                conv_cell_partial::<T>(p, q, k, i as int),
                                T::mul_model(p[i as int], q[k - i]),
                            )
                        } else {
                            conv_cell_partial::<T>(p, q, k, i as int)
                        }),
                decreases nq - j,
            {
                let prod = self.coefficients[i].mul_val(&rhs.coefficients[j]);
                let e = &mut buf[i + j];
                e.add_in_place(&prod);
                j = j + 1;
            }
            proof {
                assert forall|k: int| 0 <= k < np + nq implies buf@[k]@ == conv_cell_partial::<T>(
                    p,
                    q,
                    k,
                    i as int + 1,
                ) by {
                    if i <= k < i + nq {
                        assert(0 <= k - i < nq);
                    } else {
                        assert(!(0 <= k - i < nq));
                    }
                }
            }
            i = i + 1;
        }
        proof {
            assert(coeff_views(buf@) =~= Seq::new(
                (np + nq) as nat,
                |k: int| conv_cell::<T>(p, q, k),
            ));
        }
        drop_trailing_zeros(&mut buf);
        let r = Polynomial { coefficients: buf };
        proof {
            assert(r@ == poly_mul::<T>(p, q));
        }
        r
    }

    /// Exact long division in place: `self` becomes the quotient, and any
    /// nonzero final remainder is silently discarded (the caller guarantees
    /// exactness). Division by the zero polynomial is reported, and is the
    /// only failure.
    pub fn div_assign(&mut self, rhs: &Polynomial<T>) -> (r: Result<(), GridError>)
        requires
            rhs@.len() > 0 ==> T::divisor_ok(rhs@.last()),
        ensures
            r is Ok <==> rhs@.len() > 0,
            r is Ok ==> final(self)@ == poly_div_quotient::<T>(old(self)@, rhs@),
            r is Err ==> r == Err::<(), GridError>(GridError::DivisionByZero) && final(self)@
                == old(self)@,
    {
        let dlen = rhs.coefficients.len();
        if dlen == 0 {
            return Err(GridError::DivisionByZero);
        }
        let ghost orig = self@;
        let ghost d = rhs@;
        proof {
            lemma_div_quotient_len::<T>(orig, d);
        }
        if self.coefficients.len() < dlen {
            // fewer coefficients than the divisor: the quotient is zero
            self.coefficients = Vec::new();
            assert(self@ =~= poly_div_quotient::<T>(orig, d));
            return Ok(());
        }
        let qlen = self.coefficients.len() - dlen + 1;
        let ghost qspec = poly_div_quotient::<T>(orig, d);
        let mut rem = crate::arithmetic::clone_values(&self.coefficients);
        let mut quotient = crate::arithmetic::zero_values::<T>(qlen);
        proof {
            assert(coeff_views(rem@) =~= orig);
            assert(qspec.take(qlen as int) =~= qspec);
        }
        while rem.len() >= dlen
            invariant
                d == rhs@,
                dlen == rhs.coefficients@.len(),
                dlen == d.len(),
                dlen > 0,
                T::divisor_ok(d.last()),
                qlen == qspec.len(),
                qspec == poly_div_quotient::<T>(orig, d),
                quotient@.len() == qlen,
                rem@.len() <= orig.len(),
                orig.len() - dlen + 1 == qlen,
                forall|jj: int|
                    rem@.len() - dlen + 1 <= jj < qlen ==> quotient@[jj]@ == qspec[jj],
                poly_div_quotient::<T>(coeff_views(rem@), d) == qspec.take(
                    if rem@.len() >= dlen {
                        rem@.len() - dlen + 1
                    } else {
                        0int
                    },
                ),
            decreases rem@.len(),
        {
            let rlen = rem.len();
            let deg = rlen - dlen;
            let ghost k = rlen - dlen + 1;
            let ghost r0 = coeff_views(rem@);
            let mut mq = rem[rlen - 1].clone_val();
            mq.div_in_place(&rhs.coefficients[dlen - 1]);
            assert(mq@ == div_lead::<T>(r0, d));
            proof {
                lemma_div_quotient_len::<T>(div_step::<T>(r0, d), d);
                assert(poly_div_quotient::<T>(r0, d) == poly_div_quotient::<T>(
                    div_step::<T>(r0, d),
                    d,
                ).push(div_lead::<T>(r0, d)));
                assert(qspec.take(k).last() == qspec[k - 1]);
                assert(qspec.take(k).drop_last() =~= qspec.take(k - 1));
                assert(poly_div_quotient::<T>(div_step::<T>(r0, d), d) == qspec.take(k - 1));
                assert(div_lead::<T>(r0, d) == qspec[k - 1]);
            }
            let e = &mut quotient[deg];
            *e = mq.clone_val();
            let mut ii: usize = deg;
            while ii < rlen - 1
                invariant
                    d == rhs@,
                    dlen == rhs.coefficients@.len(),
                    dlen == d.len(),
                    dlen > 0,
                    rlen == r0.len(),
                    rem@.len() == rlen,
                    rlen >= dlen,
                    deg == rlen - dlen,
                    deg <= ii <= rlen - 1,
                    mq@ == div_lead::<T>(r0, d),
                    forall|t: int|
                        0 <= t < rlen ==> rem@[t]@ == (if deg <= t < ii {
                            T::sub_model(r0[t], T::mul_model(mq@, d[t - deg]))
                        } else {
                            r0[t]
                        }),
                decreases rlen - 1 - ii,
            {
                let prod = mq.mul_val(&rhs.coefficients[ii - deg]);
                let e2 = &mut rem[ii];
                e2.sub_in_place(&prod);
                ii = ii + 1;
            }
            rem.pop();
            proof {
                assert(coeff_views(rem@) =~= div_step::<T>(r0, d));
            }
        }
        proof {
            assert(coeff_views(quotient@) =~= qspec);
        }
        self.coefficients = quotient;
        Ok(())
    }

    /// The canonical text form, `P[(c_n)x^n + ... + (c_1)x + (c_0)]`:
    /// terms with an identity coefficient are omitted, degree 1 prints a
    /// bare `x`, degree 0 prints no variable, and the zero polynomial
    /// prints as `P[(0)]`.
    #[verifier::rlimit(50)]
    pub fn to_string(&self) -> (r: String)
        ensures
            r@ == poly_str::<T>(self@),
    {
        let mut s = String::new();
        let n = self.coefficients.len();
        let ghost c = self@;
        if n == 0 {
            s.append("P[(0)]");
            proof {
                assert(s@ =~= poly_str::<T>(c));
            }
            return s;
        }
        s.append("P[");
        proof {
            assert(s@ =~= "P["@ + terms_from::<T>(c, n as int));
        }
        let mut i: usize = n;
        while i > 0
            invariant
                n == self.coefficients@.len(),
                c == self@,
                n > 0,
                i <= n,
                s@ == "P["@ + terms_from::<T>(c, i as int),
            decreases i,
        {
            i = i - 1;
            let ghost s0 = s@;
            let mut t = String::new();
            if !self.coefficients[i].is_zero() {
                if i + 1 < n {
                    t.append(" + ");
                }
                t.append("(");
                let cs = self.coefficients[i].to_display();
                t.append(cs.as_str());
                t.append(")");
                if i == 0 {
                } else if i == 1 {
                    t.append("x");
                } else {
                    let es = crate::decimal::usize_to_string(i);
                    t.append("x^");
                    t.append(es.as_str());
                }
            }
            proof {
                assert(t@ =~= term_str::<T>(c, i as int));
            }
            s.append(t.as_str());
            proof {
                assert(terms_from::<T>(c, i as int) == terms_from::<T>(c, i as int + 1)
                    + term_str::<T>(c, i as int));
                assert(s@ == s0 + t@);
                assert(s@ =~= "P["@ + terms_from::<T>(c, i as int));
            }
        }
        s.append("]");
        proof {
            assert(s@ =~= poly_str::<T>(c));
        }
        s
    }
}

/// Polynomials themselves satisfy the arithmetic capability, so a
/// polynomial can serve as a coefficient or matrix entry in turn.
impl<T: Arithmetic> Arithmetic for Polynomial<T> {
    open spec fn wf_model(m: Seq<T::V>) -> bool {
        poly_wf::<T>(m)
    }

    open spec fn zero_model() -> Seq<T::V> {
        Seq::empty()
    }

    open spec fn add_model(a: Seq<T::V>, b: Seq<T::V>) -> Seq<T::V> {
        poly_add_assign_spec::<T>(a, b)
    }

    open spec fn sub_model(a: Seq<T::V>, b: Seq<T::V>) -> Seq<T::V> {
        poly_sub_assign_spec::<T>(a, b)
    }

    open spec fn neg_model(a: Seq<T::V>) -> Seq<T::V> {
        poly_neg::<T>(a)
    }

    open spec fn mul_model(a: Seq<T::V>, b: Seq<T::V>) -> Seq<T::V> {
        poly_mul::<T>(a, b)
    }

    open spec fn div_model(a: Seq<T::V>, b: Seq<T::V>) -> Seq<T::V> {
        poly_div_quotient::<T>(a, b)
    }

    open spec fn divisor_ok(m: Seq<T::V>) -> bool {
        m.len() > 0 && T::divisor_ok(m.last())
    }

    open spec fn display_model(m: Seq<T::V>) -> Seq<char> {
        poly_str::<T>(m)
    }

    fn zero() -> (r: Polynomial<T>) {
        let r = Polynomial::<T> { coefficients: Vec::new() };
        proof {
            assert(r@ =~= Seq::<T::V>::empty());
        }
        r
    }

    fn clone_val(&self) -> (r: Polynomial<T>) {
        self.clone_poly()
    }

    fn add_in_place(&mut self, other: &Polynomial<T>) {
        self.add_assign(other);
    }

    fn sub_in_place(&mut self, other: &Polynomial<T>) {
        self.sub_assign(other);
    }

    fn neg_val(&self) -> (r: Polynomial<T>) {
        self.neg()
    }

    fn mul_val(&self, other: &Polynomial<T>) -> (r: Polynomial<T>) {
        self.mul(other)
    }

    fn div_in_place(&mut self, other: &Polynomial<T>) {
        let r = self.div_assign(other);
        match r {
            Ok(_) => {
            },
            Err(_) => {
                proof {
                    assert(false);
                }
            },
        }
    }

    fn is_zero(&self) -> (r: bool) {
        proof {
            if self.coefficients@.len() == 0 {
                assert(self@ =~= Seq::<T::V>::empty());
            } else {
                assert(self@.len() > 0);
                assert(self@ != Seq::<T::V>::empty());
            }
        }
        self.coefficients.len() == 0
    }

    fn is_divisor_ok(&self) -> (r: bool) {
        let n = self.coefficients.len();
        n > 0 && self.coefficients[n - 1].is_divisor_ok()
    }

    fn to_display(&self) -> (r: String) {
        self.to_string()
    }

    proof fn lemma_laws(a: Seq<T::V>, b: Seq<T::V>) {
        if poly_wf::<T>(a) && poly_wf::<T>(b) {
            lemma_assign_comm::<T>(a, b);
            lemma_poly_add_assign_wf::<T>(a, b);
            lemma_poly_neg_wf::<T>(b);
            lemma_poly_add_assign_wf::<T>(a, poly_neg::<T>(b));
            lemma_poly_mul_wf::<T>(a, b);
            lemma_assign_cancel::<T>(a, b);
            if poly_add_assign_spec::<T>(a, b) == Seq::<T::V>::empty() {
                lemma_assign_neg_unique::<T>(a, b);
            }
        }
        if poly_wf::<T>(a) {
            lemma_assign_neg_add::<T>(a);
            lemma_poly_neg_wf::<T>(a);
            if a != Seq::<T::V>::empty() {
                if a.len() == 0 {
                    assert(a =~= Seq::<T::V>::empty());
                    assert(false);
                }
                assert(T::wf_model(a.last()));
                T::lemma_laws(a.last(), a.last());
            }
        }
    }
}

impl<T: Arithmetic> Default for Polynomial<T> {
    /// The zero polynomial.
    fn default() -> (r: Polynomial<T>)
        ensures
            r@ == Seq::<T::V>::empty(),
    {
        let r = Polynomial::<T> { coefficients: Vec::new() };
        proof {
            assert(r@ =~= Seq::<T::V>::empty());
        }
        r
    }
}




} // verus!
