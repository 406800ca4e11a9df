//! Success and failure: which answers of the environment stand behind an outcome.

use vstd::prelude::*;
use crate::condition::{may_pass, Environment};
use crate::outcome::{fails_first_at, gathered, guarded, lemma_gathered};
use crate::permission::{ConditionalPermission, Permission};

verus! {

impl<CExp> ConditionalPermission<CExp> {
    /// A resolution that succeeds had every condition of the tree pass.
    pub proof fn lemma_success_origin<Env: Environment<CExp = CExp>>(
        &self,
        env: &Env,
        opinion: Option<Permission>,
    )
        requires
            self.resolves_to(env, Ok::<Option<Permission>, Env::Err>(opinion)),
        ensures
            forall|at: int|
                0 <= at < self.conditions().len() ==> may_pass(
                    env,
                    #[trigger] self.conditions()[at],
                ),
        decreases self,
    {
        match self {
            ConditionalPermission::Atomic(perm, cexp) => {
                let answer = choose|answer: Result<bool, Env::Err>|
                    env.may_answer(cexp, answer) && Ok::<Option<Permission>, Env::Err>(opinion)
                        == guarded(*perm, answer);
                assert(env.may_answer(cexp, Ok::<bool, Env::Err>(answer->Ok_0)));
            },
            ConditionalPermission::Aggregate(perms) => {
                let collected = Self::lemma_aggregate_outcomes(*perms, env, Ok(opinion));
                lemma_gathered(collected);
                assert forall|at: int| 0 <= at < self.conditions().len() implies may_pass(
                    env,
                    #[trigger] self.conditions()[at],
                ) by {
                    let (i, _) = Self::lemma_conditions_of_place(perms@, perms@.len(), at);
                    assert(perms[i].resolves_to(env, collected[i]));
                    perms[i].lemma_success_origin(env, collected[i]->Ok_0);
                }
            },
            _ => {},
        }
    }

    /// A resolution that fails had one condition of the tree fail in this way,
    /// and every condition before it pass: the result is the position of that
    /// condition.
    pub proof fn lemma_failure_origin<Env: Environment<CExp = CExp>>(
        &self,
        env: &Env,
        failure: Env::Err,
    ) -> (at: int)
        requires
            self.resolves_to(env, Err::<Option<Permission>, Env::Err>(failure)),
        ensures
            self.may_fail_at(env, at, failure),
        decreases self,
    {
        match self {
            ConditionalPermission::Atomic(perm, cexp) => {
                let answer = choose|answer: Result<bool, Env::Err>|
                    env.may_answer(cexp, answer) && Err::<Option<Permission>, Env::Err>(failure)
                        == guarded(*perm, answer);
                assert(answer == Err::<bool, Env::Err>(failure));
                0
            },
            ConditionalPermission::Aggregate(perms) => {
                let collected = Self::lemma_aggregate_outcomes(*perms, env, Err(failure));
                lemma_gathered(collected);
                let first = choose|first: int|
                    fails_first_at(collected, first) && gathered(collected) == collected[first];
                assert(perms[first].resolves_to(env, collected[first]));
                let within = perms[first].lemma_failure_origin(env, failure);
                let at = Self::conditions_of(perms@, first as nat).len() + within;
                Self::lemma_conditions_of_rule(perms@, perms@.len(), first);
                assert forall|j: int| 0 <= j < at implies may_pass(
                    env,
                    #[trigger] self.conditions()[j],
                ) by {
                    let (i, m) = Self::lemma_conditions_of_place(perms@, perms@.len(), j);
                    if i < first {
                        assert(perms[i].resolves_to(env, collected[i]));
                        perms[i].lemma_success_origin(env, collected[i]->Ok_0);
                    } else if i == first {
                        assert(may_pass(env, perms[first].conditions()[m]));
                    } else {
                        Self::lemma_conditions_of_rule(perms@, i as nat, first);
                    }
                }
                at
            },
            _ => 0,
        }
    }

    /// A tree one of whose conditions cannot pass does not resolve to an
    /// opinion.
    pub proof fn lemma_failure_is_fatal<Env: Environment<CExp = CExp>>(
        &self,
        env: &Env,
        at: int,
        outcome: Result<Option<Permission>, Env::Err>,
    )
        requires
            0 <= at < self.conditions().len(),
            !may_pass(env, self.conditions()[at]),
            self.resolves_to(env, outcome),
        ensures
            outcome is Err,
    {
        if outcome is Ok {
            self.lemma_success_origin(env, outcome->Ok_0);
        }
    }

    /// Failures propagate unchanged: where the test of one condition of the
    /// tree fails with `failure`, and no condition before it can fail in
    /// another way, the tree resolves to exactly that failure.
    pub proof fn lemma_failure_propagates<Env: Environment<CExp = CExp>>(
        &self,
        env: &Env,
        at: int,
        failure: Env::Err,
        outcome: Result<Option<Permission>, Env::Err>,
    )
        requires
            0 <= at < self.conditions().len(),
            forall|answer: Result<bool, Env::Err>| #[trigger]
                env.may_answer(&self.conditions()[at], answer) ==> answer == Err::<bool, Env::Err>(
                    failure,
                ),
            forall|j: int, other: Env::Err|
                0 <= j < at && #[trigger] env.may_answer(
                    &self.conditions()[j],
                    Err::<bool, Env::Err>(other),
                ) ==> other == failure,
            self.resolves_to(env, outcome),
        ensures
            outcome == Err::<Option<Permission>, Env::Err>(failure),
    {
        if outcome is Ok {
            self.lemma_success_origin(env, outcome->Ok_0);
            assert(may_pass(env, self.conditions()[at]));
        } else {
            let first = self.lemma_failure_origin(env, outcome->Err_0);
            if first > at {
                assert(may_pass(env, self.conditions()[at]));
            }
        }
    }

    /// A tree without conditions resolves to an opinion, whatever the
    /// environment and whatever answers are imagined: to `resolution(answers)`.
    pub proof fn lemma_unconditional<Env: Environment<CExp = CExp>>(
        &self,
        env: &Env,
        answers: spec_fn(CExp) -> Result<bool, Env::Err>,
        outcome: Result<Option<Permission>, Env::Err>,
    )
        requires
            self.conditions().len() == 0,
            self.resolves_to(env, outcome),
        ensures
            outcome is Ok,
            outcome == self.resolution(answers),
    {
        if outcome is Err {
            let _ = self.lemma_failure_origin(env, outcome->Err_0);
        }
        self.lemma_resolution_unique(env, answers, outcome);
    }
}

} // verus!
