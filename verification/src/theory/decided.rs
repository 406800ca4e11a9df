//! Environments whose answers are decided: resolution is then a function.

use vstd::prelude::*;
use crate::condition::Environment;
use crate::outcome::guarded;
use crate::permission::{ConditionalPermission, Permission};

verus! {

impl<CExp> ConditionalPermission<CExp> {
    /// Where the environment answers each condition of the tree in one way
    /// only, as `answers` says, the tree resolves in one way only: to
    /// `resolution(answers)`.
    pub proof fn lemma_resolution_unique<Env: Environment<CExp = CExp>>(
        &self,
        env: &Env,
        answers: spec_fn(CExp) -> Result<bool, Env::Err>,
        outcome: Result<Option<Permission>, Env::Err>,
    )
        requires
            self.decided_by(env, answers),
            self.resolves_to(env, outcome),
        ensures
            outcome == self.resolution(answers),
        decreases self,
    {
        match self {
            ConditionalPermission::Atomic(perm, cexp) => {
                let answer = choose|answer: Result<bool, Env::Err>|
                    env.may_answer(cexp, answer) && outcome == guarded(*perm, answer);
                assert(env.may_answer(&self.conditions()[0], answer));
            },
            ConditionalPermission::Aggregate(perms) => {
                let collected = Self::lemma_aggregate_outcomes(*perms, env, outcome);
                let resolutions = Self::resolutions(perms@, answers);
                assert forall|i: int| 0 <= i < perms.len() implies collected[i]
                    == resolutions[i] by {
                    Self::lemma_conditions_of_rule(perms@, perms@.len(), i);
                    let offset = Self::conditions_of(perms@, i as nat).len();
                    assert(perms[i].decided_by(env, answers)) by {
                        assert forall|at: int, answer: Result<bool, Env::Err>|
                            0 <= at < perms[i].conditions().len() && #[trigger] env.may_answer(
                                &perms[i].conditions()[at],
                                answer,
                            ) implies answer == answers(perms[i].conditions()[at]) by {
                            assert(env.may_answer(&self.conditions()[offset + at], answer));
                        }
                    }
                    assert(perms[i].resolves_to(env, collected[i]));
                    perms[i].lemma_resolution_unique(env, answers, collected[i]);
                }
                assert(collected =~= resolutions);
            },
            _ => {},
        }
    }

    /// Where the environment may answer each condition of the tree as
    /// `answers` says, the tree may resolve to `resolution(answers)`.
    pub proof fn lemma_resolution_possible<Env: Environment<CExp = CExp>>(
        &self,
        env: &Env,
        answers: spec_fn(CExp) -> Result<bool, Env::Err>,
    )
        requires
            forall|at: int|
                0 <= at < self.conditions().len() ==> env.may_answer(
                    &#[trigger] self.conditions()[at],
                    answers(self.conditions()[at]),
                ),
        ensures
            self.resolves_to(env, self.resolution(answers)),
        decreases self,
    {
        match self {
            ConditionalPermission::Atomic(_, cexp) => {
                assert(self.conditions()[0] == *cexp);
                assert(env.may_answer(cexp, answers(*cexp)));
            },
            ConditionalPermission::Aggregate(perms) => {
                let resolutions = Self::resolutions(perms@, answers);
                assert forall|i: int| 0 <= i < perms.len() implies
                    (#[trigger] perms@[i]).resolves_to(env, resolutions[i]) by {
                    Self::lemma_conditions_of_rule(perms@, perms@.len(), i);
                    let offset = Self::conditions_of(perms@, i as nat).len();
                    assert forall|at: int| 0 <= at < perms[i].conditions().len() implies
                        env.may_answer(
                        &#[trigger] perms[i].conditions()[at],
                        answers(perms[i].conditions()[at]),
                    ) by {
                        assert(self.conditions()[offset + at] == perms[i].conditions()[at]);
                    }
                    perms[i].lemma_resolution_possible(env, answers);
                }
                assert(Self::each_resolves_to(perms@, env, resolutions));
            },
            _ => {},
        }
    }
}

impl ConditionalPermission<u32> {
    /// Against an integer environment a tree resolves in one way only: each
    /// condition holds exactly when it equals the environment.
    pub proof fn lemma_integer_environment(&self, env: u32, outcome: Result<Option<Permission>, ()>)
        requires
            self.resolves_to(&env, outcome),
        ensures
            outcome == self.resolution(|cexp: u32| Ok::<bool, ()>(env == cexp)),
    {
        self.lemma_resolution_unique(&env, |cexp: u32| Ok::<bool, ()>(env == cexp), outcome);
    }
}

} // verus!
