//! Steps that turn one value into another, and their composition.
use vstd::prelude::*;

use crate::error::EntroGdError;

verus! {

/// A step of a pipeline.
pub trait Filter: Sized {
    type Input;

    type Output;

    /// Whether the step can be run on a value.
    spec fn admits(&self, input: Self::Input) -> bool;

    /// Whether the step may hand out a result for a value.
    spec fn yields(&self, input: Self::Input, result: Result<Self::Output, EntroGdError>) -> bool;

    /// Runs the step.
    fn process(&self, input: Self::Input) -> (result: Result<Self::Output, EntroGdError>)
        requires
            self.admits(input),
        ensures
            self.yields(input, result),
    ;
}

/// Two steps one after the other.
pub struct Chain<A, B> {
    pub previous: A,
    pub next: B,
}

impl<A, B> Filter for Chain<A, B> where A: Filter, B: Filter<Input = A::Output> {
    type Input = A::Input;

    type Output = B::Output;

    /// The second step must admit whatever the first one may hand out.
    open spec fn admits(&self, input: A::Input) -> bool {
        &&& self.previous.admits(input)
        &&& forall|between: A::Output| #[trigger]
            self.previous.yields(input, Ok(between)) ==> self.next.admits(between)
    }

    /// The first step fails, or the second one is run on what it hands out.
    open spec fn yields(&self, input: A::Input, result: Result<B::Output, EntroGdError>) -> bool {
        exists|between: Result<A::Output, EntroGdError>| #[trigger]
            self.previous.yields(input, between) && match between {
                Ok(value) => self.next.yields(value, result),
                Err(error) => result == Err::<B::Output, EntroGdError>(error),
            }
    }

    fn process(&self, input: A::Input) -> (result: Result<B::Output, EntroGdError>) {
        match self.previous.process(input) {
            Ok(value) => self.next.process(value),
            Err(error) => Err(error),
        }
    }
}

/// Composition of steps.
pub trait FilterExt: Filter {
    /// This step, and another one after it.
    fn chain<Next>(self, next: Next) -> (both: Chain<Self, Next>) where
        Next: Filter<Input = Self::Output>,

        ensures
            both.previous == self,
            both.next == next,
    ;
}

impl<F: Filter> FilterExt for F {
    fn chain<Next>(self, next: Next) -> (both: Chain<F, Next>) where
        Next: Filter<Input = F::Output>,
     {
        Chain { previous: self, next }
    }
}

} // verus!
