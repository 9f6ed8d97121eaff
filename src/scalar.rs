use vstd::prelude::*;

verus! {

/// The real-number arithmetic the solver needs.
///
/// The solver is written once over this trait; a binary picks the
/// concrete number type (single-precision floats in the usual build).
/// Each operation is a function of its operands: the spec functions name
/// its result, and the contracts of the solver are stated over them. The
/// trait says nothing of how an implementation rounds.
pub trait Real: Copy + Sized {
    spec fn spec_plus(self, o: Self) -> Self;

    spec fn spec_minus(self, o: Self) -> Self;

    spec fn spec_times(self, o: Self) -> Self;

    spec fn spec_divided_by(self, o: Self) -> Self;

    spec fn spec_negated(self) -> Self;

    spec fn spec_square_root(self) -> Self;

    spec fn spec_exponential(self) -> Self;

    spec fn spec_power(self, n: u32) -> Self;

    spec fn spec_from_count(n: usize) -> Self;

    fn plus(self, o: Self) -> (r: Self)
        ensures
            r == self.spec_plus(o),
    ;

    fn minus(self, o: Self) -> (r: Self)
        ensures
            r == self.spec_minus(o),
    ;

    fn times(self, o: Self) -> (r: Self)
        ensures
            r == self.spec_times(o),
    ;

    fn divided_by(self, o: Self) -> (r: Self)
        ensures
            r == self.spec_divided_by(o),
    ;

    fn negated(self) -> (r: Self)
        ensures
            r == self.spec_negated(),
    ;

    fn square_root(self) -> (r: Self)
        ensures
            r == self.spec_square_root(),
    ;

    /// `e` raised to this value.
    fn exponential(self) -> (r: Self)
        ensures
            r == self.spec_exponential(),
    ;

    /// This value raised to the power `n`.
    fn power(self, n: u32) -> (r: Self)
        ensures
            r == self.spec_power(n),
    ;

    /// The number `n`.
    fn from_count(n: usize) -> (r: Self)
        ensures
            r == Self::spec_from_count(n),
    ;
}

} // verus!
