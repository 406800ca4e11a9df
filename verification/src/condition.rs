//! The environment a tree of conditional permissions is resolved against.

use vstd::prelude::*;

verus! {

/// The capability a permission tree is resolved against: something that can
/// test whether a condition expression holds.
///
/// What a condition means is the environment's own business. A test may look
/// at anything, may fail, and need not give the same answer twice.
pub trait Environment {
    /// The failure of a test.
    type Err;

    /// The condition expressions this environment understands.
    type CExp;

    /// Whether `answer` is one of the answers this environment may give when
    /// asked about `exp`.
    ///
    /// Unless an implementation says otherwise, every answer is possible. An
    /// implementation that knows more states it here, and `test_condition` is
    /// then held to it.
    open spec fn may_answer(&self, exp: &Self::CExp, answer: Result<bool, Self::Err>) -> bool {
        true
    }

    /// Tests whether `exp` holds in this environment.
    fn test_condition(&self, exp: &Self::CExp) -> (answer: Result<bool, Self::Err>)
        ensures
            self.may_answer(exp, answer),
    ;
}

/// Whether `env` may answer that the test of `cexp` went through, whether
/// the condition held or not.
pub open spec fn may_pass<Env: Environment>(env: &Env, cexp: Env::CExp) -> bool {
    exists|held: bool| env.may_answer(&cexp, Ok::<bool, Env::Err>(held))
}

/// An integer environment for integer conditions: a condition holds exactly
/// when it equals the environment, and testing never fails.
impl Environment for u32 {
    type Err = ();

    type CExp = u32;

    open spec fn may_answer(&self, exp: &u32, answer: Result<bool, ()>) -> bool {
        answer == Ok::<bool, ()>(*self == *exp)
    }

    fn test_condition(&self, exp: &u32) -> (answer: Result<bool, ()>) {
        Ok(*self == *exp)
    }
}

} // verus!
