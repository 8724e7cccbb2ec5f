//! Arithmetic on singles that rounds.
//!
//! The five operations are supplied by the caller, as one function from an
//! [`Operation`] to its result. Every contract that depends on them says what
//! holds for each meaning `sem` that the supplied function has: see [`means`]. That of IEEE 754
//! is [`crate::ieee::ieee`].
use crate::single::Single;
use vstd::prelude::*;

verus! {

/// An operation on singles whose result is rounded to the nearest single.
#[derive(Clone, Copy, Debug)]
pub enum Operation {
    /// The first number plus the second.
    Add(Single, Single),
    /// The first number minus the second.
    Subtract(Single, Single),
    /// The product of the two numbers.
    Multiply(Single, Single),
    /// The first number divided by the second.
    Divide(Single, Single),
    /// The single nearest to a whole number.
    Convert(u64),
}

/// What each operation gives.
pub type Meaning = spec_fn(Operation) -> Single;

/// Whether `arith` accepts every operation.
pub open spec fn accepts_all<F: Fn(Operation) -> Single>(arith: F) -> bool {
    forall|op: Operation| #[trigger] call_requires(arith, (op,))
}

/// Whether whatever `arith` returns is what `sem` gives.
pub open spec fn means<F: Fn(Operation) -> Single>(arith: F, sem: Meaning) -> bool {
    forall|op: Operation, r: Single| #[trigger] call_ensures(arith, (op,), r) ==> r == sem(op)
}

/// `a + b`.
pub open spec fn plus(sem: Meaning, a: Single, b: Single) -> Single {
    sem(Operation::Add(a, b))
}

/// `a - b`.
pub open spec fn minus(sem: Meaning, a: Single, b: Single) -> Single {
    sem(Operation::Subtract(a, b))
}

/// `a * b`.
pub open spec fn times(sem: Meaning, a: Single, b: Single) -> Single {
    sem(Operation::Multiply(a, b))
}

/// `a / b`.
pub open spec fn over(sem: Meaning, a: Single, b: Single) -> Single {
    sem(Operation::Divide(a, b))
}

/// The whole number `n`.
pub open spec fn whole(sem: Meaning, n: u64) -> Single {
    sem(Operation::Convert(n))
}

/// Whether the two are the same, or neither is a number.
pub open spec fn alike(a: Single, b: Single) -> bool {
    a == b || a.is_nan() && b.is_nan()
}

/// Whether it does not matter in which order two numbers are added.
pub open spec fn sums_commute(sem: Meaning) -> bool {
    forall|a: Single, b: Single| alike(#[trigger] plus(sem, a, b), plus(sem, b, a))
}

/// Whether it does not matter in which order two numbers are multiplied.
pub open spec fn products_commute(sem: Meaning) -> bool {
    forall|a: Single, b: Single| alike(#[trigger] times(sem, a, b), times(sem, b, a))
}

/// Whether the difference of two numbers, taken the other way round, has the other sign, where
/// it is a number and not zero.
pub open spec fn differences_oppose(sem: Meaning) -> bool {
    forall|a: Single, b: Single|
        {
            let d = #[trigger] minus(sem, a, b);
            let e = minus(sem, b, a);
            ||| d.is_nan() && e.is_nan()
            ||| !d.is_nan() && !e.is_nan() && d.value() == 0 && e.value() == 0
            ||| e == d.neg_spec()
        }
}

/// Whether what is computed from what is not a number is not a number either.
pub open spec fn nan_spreads(sem: Meaning) -> bool {
    &&& forall|a: Single, b: Single|
        a.is_nan() || b.is_nan() ==> (#[trigger] plus(sem, a, b)).is_nan()
    &&& forall|a: Single, b: Single|
        a.is_nan() || b.is_nan() ==> (#[trigger] minus(sem, a, b)).is_nan()
    &&& forall|a: Single, b: Single|
        a.is_nan() || b.is_nan() ==> (#[trigger] times(sem, a, b)).is_nan()
    &&& forall|a: Single, b: Single|
        a.is_nan() || b.is_nan() ==> (#[trigger] over(sem, a, b)).is_nan()
}

/// `a + b`.
pub fn add_singles<F: Fn(Operation) -> Single>(arith: &F, a: Single, b: Single) -> (r: Single)
    requires
        accepts_all(*arith),
    ensures
        forall|sem: Meaning| #[trigger] means(*arith, sem) ==> r == plus(sem, a, b),
{
    arith(Operation::Add(a, b))
}

/// `a - b`.
pub fn subtract_singles<F: Fn(Operation) -> Single>(arith: &F, a: Single, b: Single) -> (r: Single)
    requires
        accepts_all(*arith),
    ensures
        forall|sem: Meaning| #[trigger] means(*arith, sem) ==> r == minus(sem, a, b),
{
    arith(Operation::Subtract(a, b))
}

/// `a * b`.
pub fn multiply_singles<F: Fn(Operation) -> Single>(arith: &F, a: Single, b: Single) -> (r: Single)
    requires
        accepts_all(*arith),
    ensures
        forall|sem: Meaning| #[trigger] means(*arith, sem) ==> r == times(sem, a, b),
{
    arith(Operation::Multiply(a, b))
}

/// `a / b`.
pub fn divide_singles<F: Fn(Operation) -> Single>(arith: &F, a: Single, b: Single) -> (r: Single)
    requires
        accepts_all(*arith),
    ensures
        forall|sem: Meaning| #[trigger] means(*arith, sem) ==> r == over(sem, a, b),
{
    arith(Operation::Divide(a, b))
}

/// The single nearest to `n`.
pub fn convert_whole<F: Fn(Operation) -> Single>(arith: &F, n: u64) -> (r: Single)
    requires
        accepts_all(*arith),
    ensures
        forall|sem: Meaning| #[trigger] means(*arith, sem) ==> r == whole(sem, n),
{
    arith(Operation::Convert(n))
}

}
