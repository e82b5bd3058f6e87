//! The scalar arithmetic that the operators are written against.
//!
//! The library never computes with a number format of its own. It calls the operations of
//! [`Arithmetic`] and promises which of them are applied to which values, in which order.
//! What an operation returns is described by relations such as [`plus`]: `plus::<T, A>(a, b, r)`
//! holds where `r` is a possible result of `A::plus(a, b)`.

use vstd::prelude::*;

verus! {

/// Operations on scalars of type `T`.
pub trait Arithmetic<T> {
    /// The number 0.
    fn zero() -> T;

    /// The number 1.
    fn one() -> T;

    /// `a + b`
    fn plus(a: T, b: T) -> T;

    /// `a - b`
    fn minus(a: T, b: T) -> T;

    /// `a * b`
    fn times(a: T, b: T) -> T;

    /// `a / b`
    fn over(a: T, b: T) -> T;

    /// `-a`
    fn negate(a: T) -> T;

    /// The exponential function.
    fn exp(a: T) -> T;

    /// The square root.
    fn sqrt(a: T) -> T;

    /// `a` to the power `b`.
    fn powf(a: T, b: T) -> T;

    /// The sine and the cosine of `a`.
    fn sin_cos(a: T) -> (T, T);

    /// The larger of the two.
    fn larger(a: T, b: T) -> T;

    /// The smaller of the two.
    fn smaller(a: T, b: T) -> T;

    /// The scalar nearest to `n`.
    fn from_usize(n: usize) -> T;

    /// The single-precision encoding of `a`.
    fn to_bits(a: T) -> u32;

    /// The scalar with the single-precision encoding `bits`.
    fn from_bits(bits: u32) -> T;

    /// A number drawn from the interval from 0 (included) to 1 (excluded).
    fn random() -> T;
}

/// Conversion of stored table entries of type `U` to scalars of type `T`.
pub trait Widen<U, T> {
    fn widen(u: U) -> T;
}

/// `r` can be the number 0.
pub open spec fn is_zero<T, A: Arithmetic<T>>(r: T) -> bool {
    call_ensures(A::zero, (), r)
}

/// `r` can be the number 1.
pub open spec fn is_one<T, A: Arithmetic<T>>(r: T) -> bool {
    call_ensures(A::one, (), r)
}

/// `r` can be `a + b`.
pub open spec fn plus<T, A: Arithmetic<T>>(a: T, b: T, r: T) -> bool {
    call_ensures(A::plus, (a, b), r)
}

/// `r` can be `a - b`.
pub open spec fn minus<T, A: Arithmetic<T>>(a: T, b: T, r: T) -> bool {
    call_ensures(A::minus, (a, b), r)
}

/// `r` can be `a * b`.
pub open spec fn times<T, A: Arithmetic<T>>(a: T, b: T, r: T) -> bool {
    call_ensures(A::times, (a, b), r)
}

/// `r` can be `a / b`.
pub open spec fn over<T, A: Arithmetic<T>>(a: T, b: T, r: T) -> bool {
    call_ensures(A::over, (a, b), r)
}

/// `r` can be `-a`.
pub open spec fn negated<T, A: Arithmetic<T>>(a: T, r: T) -> bool {
    call_ensures(A::negate, (a,), r)
}

/// `r` can be the exponential of `a`.
pub open spec fn is_exp<T, A: Arithmetic<T>>(a: T, r: T) -> bool {
    call_ensures(A::exp, (a,), r)
}

/// `r` can be the square root of `a`.
pub open spec fn is_sqrt<T, A: Arithmetic<T>>(a: T, r: T) -> bool {
    call_ensures(A::sqrt, (a,), r)
}

/// `r` can be `a` to the power `b`.
pub open spec fn is_power<T, A: Arithmetic<T>>(a: T, b: T, r: T) -> bool {
    call_ensures(A::powf, (a, b), r)
}

/// `s` and `c` can be the sine and the cosine of `a`.
pub open spec fn is_sin_cos<T, A: Arithmetic<T>>(a: T, s: T, c: T) -> bool {
    call_ensures(A::sin_cos, (a,), (s, c))
}

/// `r` can be the larger of `a` and `b`.
pub open spec fn is_larger<T, A: Arithmetic<T>>(a: T, b: T, r: T) -> bool {
    call_ensures(A::larger, (a, b), r)
}

/// `r` can be the smaller of `a` and `b`.
pub open spec fn is_smaller<T, A: Arithmetic<T>>(a: T, b: T, r: T) -> bool {
    call_ensures(A::smaller, (a, b), r)
}

/// `r` can be the scalar nearest to `n`.
pub open spec fn is_number<T, A: Arithmetic<T>>(n: usize, r: T) -> bool {
    call_ensures(A::from_usize, (n,), r)
}

/// `bits` can be the encoding of `a`.
pub open spec fn encodes<T, A: Arithmetic<T>>(a: T, bits: u32) -> bool {
    call_ensures(A::to_bits, (a,), bits)
}

/// `r` can be the scalar that `bits` encodes.
pub open spec fn decodes<T, A: Arithmetic<T>>(bits: u32, r: T) -> bool {
    call_ensures(A::from_bits, (bits,), r)
}

/// `r` can be drawn at random.
pub open spec fn drawn<T, A: Arithmetic<T>>(r: T) -> bool {
    call_ensures(A::random, (), r)
}

/// `r` can be what `u` converts to.
pub open spec fn widens<U, T, A: Widen<U, T>>(u: U, r: T) -> bool {
    call_ensures(<A as Widen<U, T>>::widen, (u,), r)
}

/// `w` can be `u` converted entry by entry.
pub open spec fn widened<U, T, A: Widen<U, T>>(u: Seq<U>, w: Seq<T>) -> bool {
    &&& w.len() == u.len()
    &&& forall|p: int| 0 <= p < u.len() ==> widens::<U, T, A>(u[p], #[trigger] w[p])
}

/// `s` can be the sum of `x`, added up from the left, starting at 0.
pub open spec fn is_sum<T, A: Arithmetic<T>>(x: Seq<T>, s: T) -> bool
    decreases x.len(),
{
    if x.len() == 0 {
        is_zero::<T, A>(s)
    } else {
        exists|t: T|
            is_sum::<T, A>(x.drop_last(), t) && #[trigger] plus::<T, A>(t, x.last(), s)
    }
}

/// `s` can be the sum of the products `x[p] * y[p]`, added up from the left, starting at 0.
pub open spec fn is_dot<T, A: Arithmetic<T>>(x: Seq<T>, y: Seq<T>, s: T) -> bool
    decreases x.len(),
{
    if x.len() == 0 {
        is_zero::<T, A>(s)
    } else {
        exists|t: T, m: T|
            is_dot::<T, A>(x.drop_last(), y.drop_last(), t) && #[trigger] times::<T, A>(
                x.last(),
                y.last(),
                m,
            ) && #[trigger] plus::<T, A>(t, m, s)
    }
}

/// `m` can be the largest of `first` and the entries of `x`, taken in from the left.
pub open spec fn is_largest<T, A: Arithmetic<T>>(first: T, x: Seq<T>, m: T) -> bool
    decreases x.len(),
{
    if x.len() == 0 {
        m == first
    } else {
        exists|t: T|
            is_largest::<T, A>(first, x.drop_last(), t) && #[trigger] is_larger::<T, A>(
                t,
                x.last(),
                m,
            )
    }
}

pub proof fn lemma_sum_step<T, A: Arithmetic<T>>(x: Seq<T>, n: int, t: T, s: T)
    requires
        0 <= n < x.len(),
        is_sum::<T, A>(x.take(n), t),
        plus::<T, A>(t, x[n], s),
    ensures
        is_sum::<T, A>(x.take(n + 1), s),
{
    assert(x.take(n + 1).drop_last() =~= x.take(n));
    assert(x.take(n + 1).last() == x[n]);
}

pub proof fn lemma_dot_step<T, A: Arithmetic<T>>(x: Seq<T>, y: Seq<T>, n: int, t: T, m: T, s: T)
    requires
        0 <= n < x.len(),
        n < y.len(),
        is_dot::<T, A>(x.take(n), y.take(n), t),
        times::<T, A>(x[n], y[n], m),
        plus::<T, A>(t, m, s),
    ensures
        is_dot::<T, A>(x.take(n + 1), y.take(n + 1), s),
{
    assert(x.take(n + 1).drop_last() =~= x.take(n));
    assert(y.take(n + 1).drop_last() =~= y.take(n));
    assert(x.take(n + 1).last() == x[n]);
    assert(y.take(n + 1).last() == y[n]);
}

pub proof fn lemma_largest_step<T, A: Arithmetic<T>>(first: T, x: Seq<T>, n: int, t: T, m: T)
    requires
        0 <= n < x.len(),
        is_largest::<T, A>(first, x.take(n), t),
        is_larger::<T, A>(t, x[n], m),
    ensures
        is_largest::<T, A>(first, x.take(n + 1), m),
{
    assert(x.take(n + 1).drop_last() =~= x.take(n));
    assert(x.take(n + 1).last() == x[n]);
}

} // verus!
