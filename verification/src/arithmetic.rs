use vstd::prelude::*;

verus! {

/// The minimal ring-like capability required of every coefficient or matrix
/// entry type: an additive identity, copying, in-place addition and
/// subtraction, negation, multiplication, in-place exact division, a zero
/// test and a rendering to text.
///
/// Contracts are stated over the type's mathematical model, its view
/// `Self::V`: each executable operation is pinned to a specification-level
/// counterpart (`add_model` and so on), and `lemma_laws` obliges every
/// implementation to prove the algebraic facts that the polynomial, matrix
/// and network proofs rest on. Machine integers implement the capability,
/// and so does `Polynomial` itself, recursively.
pub trait Arithmetic: View + Sized {
    /// The well-formed models: the ones the laws of `lemma_laws` are
    /// stated over. For machine integers every value is well formed; for
    /// polynomials, the canonical ones.
    spec fn wf_model(m: Self::V) -> bool;

    /// The additive identity.
    spec fn zero_model() -> Self::V;

    spec fn add_model(a: Self::V, b: Self::V) -> Self::V;

    spec fn sub_model(a: Self::V, b: Self::V) -> Self::V;

    spec fn neg_model(a: Self::V) -> Self::V;

    spec fn mul_model(a: Self::V, b: Self::V) -> Self::V;

    /// Division; meaningful to callers only when it is exact.
    spec fn div_model(a: Self::V, b: Self::V) -> Self::V;

    /// The divisors that in-place division accepts: for machine integers
    /// everything but zero, for polynomials those whose leading
    /// coefficient is in turn an accepted divisor.
    spec fn divisor_ok(m: Self::V) -> bool;

    /// The text rendering of a value.
    spec fn display_model(m: Self::V) -> Seq<char>;

    fn zero() -> (r: Self)
        ensures
            r@ == Self::zero_model(),
    ;

    fn clone_val(&self) -> (r: Self)
        ensures
            r@ == self@,
    ;

    fn add_in_place(&mut self, other: &Self)
        ensures
            final(self)@ == Self::add_model(old(self)@, other@),
    ;

    fn sub_in_place(&mut self, other: &Self)
        ensures
            final(self)@ == Self::sub_model(old(self)@, other@),
    ;

    fn neg_val(&self) -> (r: Self)
        ensures
            r@ == Self::neg_model(self@),
    ;

    fn mul_val(&self, other: &Self) -> (r: Self)
        ensures
            r@ == Self::mul_model(self@, other@),
    ;

    fn div_in_place(&mut self, other: &Self)
        requires
            Self::divisor_ok(other@),
        ensures
            final(self)@ == Self::div_model(old(self)@, other@),
    ;

    fn is_zero(&self) -> (r: bool)
        ensures
            r == (self@ == Self::zero_model()),
    ;

    fn is_divisor_ok(&self) -> (r: bool)
        ensures
            r == Self::divisor_ok(self@),
    ;

    fn to_display(&self) -> (r: String)
        ensures
            r@ == Self::display_model(self@),
    ;

    /// The algebraic laws of the capability, over well-formed models:
    /// zero is well formed, addition commutes, zero is an additive
    /// identity, negation is an additive inverse and is determined by it,
    /// subtraction is addition of the negation and cancels addition, the
    /// operations keep models well formed, and every well-formed nonzero
    /// model is an accepted divisor.
    proof fn lemma_laws(a: Self::V, b: Self::V)
        ensures
            Self::wf_model(Self::zero_model()),
            Self::wf_model(a) && Self::wf_model(b) ==> Self::add_model(a, b) == Self::add_model(
                b,
                a,
            ),
            Self::wf_model(a) ==> Self::add_model(Self::zero_model(), a) == a,
            Self::wf_model(a) ==> Self::add_model(Self::neg_model(a), a) == Self::zero_model(),
            Self::wf_model(a) && Self::wf_model(b) && Self::add_model(a, b) == Self::zero_model()
                ==> Self::neg_model(b) == a,
            Self::wf_model(a) && Self::wf_model(b) ==> Self::sub_model(a, b) == Self::add_model(
                a,
                Self::neg_model(b),
            ),
            Self::wf_model(a) && Self::wf_model(b) ==> Self::sub_model(Self::add_model(a, b), b)
                == a,
            Self::wf_model(a) && Self::wf_model(b) ==> Self::wf_model(Self::add_model(a, b)),
            Self::wf_model(a) && Self::wf_model(b) ==> Self::wf_model(Self::sub_model(a, b)),
            Self::wf_model(a) ==> Self::wf_model(Self::neg_model(a)),
            Self::wf_model(a) && Self::wf_model(b) ==> Self::wf_model(Self::mul_model(a, b)),
            Self::wf_model(a) && a != Self::zero_model() ==> Self::divisor_ok(a),
    ;
}

/// Machine integers form a ring under wrapping arithmetic; division is
/// truncating (and total away from a zero divisor).
impl Arithmetic for i64 {
    open spec fn wf_model(m: i64) -> bool {
        true
    }

    open spec fn zero_model() -> i64 {
        0i64
    }

    open spec fn add_model(a: i64, b: i64) -> i64 {
        a.wrapping_add(b)
    }

    open spec fn sub_model(a: i64, b: i64) -> i64 {
        a.wrapping_sub(b)
    }

    open spec fn neg_model(a: i64) -> i64 {
        (0i64).wrapping_sub(a)
    }

    open spec fn mul_model(a: i64, b: i64) -> i64 {
        a.wrapping_mul(b)
    }

    open spec fn div_model(a: i64, b: i64) -> i64 {
        match a.checked_div(b) {
            Some(q) => q,
            None => i64::MIN,
        }
    }

    open spec fn divisor_ok(m: i64) -> bool {
        m != 0i64
    }

    open spec fn display_model(m: i64) -> Seq<char> {
        crate::decimal::dec_of(m as int)
    }

    fn zero() -> (r: i64) {
        0i64
    }

    fn clone_val(&self) -> (r: i64) {
        *self
    }

    fn add_in_place(&mut self, other: &i64) {
        *self = (*self).wrapping_add(*other);
    }

    fn sub_in_place(&mut self, other: &i64) {
        *self = (*self).wrapping_sub(*other);
    }

    fn neg_val(&self) -> (r: i64) {
        (0i64).wrapping_sub(*self)
    }

    fn mul_val(&self, other: &i64) -> (r: i64) {
        (*self).wrapping_mul(*other)
    }

    fn div_in_place(&mut self, other: &i64) {
        match (*self).checked_div(*other) {
            Some(q) => {
                *self = q;
            },
            None => {
                // only i64::MIN / -1 reaches this arm
                *self = i64::MIN;
            },
        }
    }

    fn is_zero(&self) -> (r: bool) {
        *self == 0i64
    }

    fn is_divisor_ok(&self) -> (r: bool) {
        *self != 0i64
    }

    fn to_display(&self) -> (r: String) {
        crate::decimal::i64_to_string(*self)
    }

    proof fn lemma_laws(a: i64, b: i64) {
    }
}

/// An element-by-element copy of a vector of arithmetic values.
pub(crate) fn clone_values<T: Arithmetic>(v: &Vec<T>) -> (r: Vec<T>)
    ensures
        r@.len() == v@.len(),
        forall|i: int| 0 <= i < v@.len() ==> r@[i]@ == v@[i]@,
{
    let mut r: Vec<T> = Vec::new();
    let mut i: usize = 0;
    while i < v.len()
        invariant
            i <= v.len(),
            r@.len() == i,
            forall|j: int| 0 <= j < i ==> r@[j]@ == v@[j]@,
        decreases v.len() - i,
    {
        r.push(v[i].clone_val());
        i = i + 1;
    }
    r
}

/// A vector of `n` additive identities.
pub(crate) fn zero_values<T: Arithmetic>(n: usize) -> (r: Vec<T>)
    ensures
        r@.len() == n,
        forall|i: int| 0 <= i < n ==> r@[i]@ == T::zero_model(),
{
    let mut r: Vec<T> = Vec::new();
    let mut i: usize = 0;
    while i < n
        invariant
            i <= n,
            r@.len() == i,
            forall|j: int| 0 <= j < i ==> r@[j]@ == T::zero_model(),
        decreases n - i,
    {
        r.push(T::zero());
        i = i + 1;
    }
    r
}

/// A vector of `a + b` additive identities; its very existence shows that
/// `a + b` stays within the length bound of a vector.
pub(crate) fn zero_values_pair<T: Arithmetic>(a: usize, b: usize) -> (r: Vec<T>)
    ensures
        r@.len() == a + b,
        forall|i: int| 0 <= i < r@.len() ==> r@[i]@ == T::zero_model(),
{
    let mut r: Vec<T> = zero_values::<T>(a);
    let mut i: usize = 0;
    while i < b
        invariant
            i <= b,
            r@.len() == a + i,
            forall|j: int| 0 <= j < r@.len() ==> r@[j]@ == T::zero_model(),
        decreases b - i,
    {
        r.push(T::zero());
        i = i + 1;
    }
    r
}

} // verus!
