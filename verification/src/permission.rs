//! Permissions, trees of conditional permissions, and their resolution.

use vstd::prelude::*;
use crate::condition::{may_pass, Environment};
use crate::outcome::{gather, gathered, guard, guarded, lemma_gathered_empty};

verus! {

/// A binary access decision.
#[allow(non_camel_case_types)]
#[derive(PartialEq, Eq, Debug, Clone, Copy, Structural)]
pub enum Permission {
    /// Access is granted.
    ALLOW,
    /// Access is refused.
    DENY,
}

/// A tree of conditional access rules over condition expressions `CExp`.
pub enum ConditionalPermission<CExp> {
    /// No opinion.
    Silent,
    /// The permission, if the condition holds; no opinion otherwise.
    Atomic(Permission, CExp),
    /// The permission, whatever the environment.
    Fixed(Permission),
    /// The deny-override combination of the rules, taken in order.
    Aggregate(Vec<ConditionalPermission<CExp>>),
}

impl<CExp> ConditionalPermission<CExp> {
    /// Whether resolving this tree against `env` may end in `outcome`.
    ///
    /// Every condition in the tree is put to the environment once, and the
    /// outcome follows from the answers: a leaf is decided by `guarded`, and an
    /// aggregate gathers one outcome per rule with `gathered`.
    pub open spec fn resolves_to<Env: Environment<CExp = CExp>>(
        &self,
        env: &Env,
        outcome: Result<Option<Permission>, Env::Err>,
    ) -> bool
        decreases self,
    {
        match self {
            ConditionalPermission::Silent => outcome == Ok::<Option<Permission>, Env::Err>(None),
            ConditionalPermission::Atomic(perm, cexp) => exists|answer: Result<bool, Env::Err>|
                env.may_answer(cexp, answer) && outcome == guarded(*perm, answer),
            ConditionalPermission::Fixed(perm) => outcome == Ok::<Option<Permission>, Env::Err>(
                Some(*perm),
            ),
            ConditionalPermission::Aggregate(perms) => exists|
                collected: Seq<Result<Option<Permission>, Env::Err>>,
            |
                Self::each_resolves_to(perms@, env, collected) && outcome == gathered(collected),
        }
    }

    /// Whether resolving each of `perms` against `env` may end in the outcome
    /// at the same position of `collected`.
    pub open spec fn each_resolves_to<Env: Environment<CExp = CExp>>(
        perms: Seq<Self>,
        env: &Env,
        collected: Seq<Result<Option<Permission>, Env::Err>>,
    ) -> bool
        decreases perms,
    {
        &&& collected.len() == perms.len()
        &&& forall|i: int|
            0 <= i < perms.len() ==> (#[trigger] perms[i]).resolves_to(env, collected[i])
    }

    /// The conditions of this tree, in the order in which resolution puts
    /// them to the environment: from left to right.
    pub open spec fn conditions(&self) -> Seq<CExp>
        decreases self,
    {
        match self {
            ConditionalPermission::Atomic(_, cexp) => seq![*cexp],
            ConditionalPermission::Aggregate(perms) => Self::conditions_of(perms@, perms@.len()),
            _ => Seq::empty(),
        }
    }

    /// The conditions of the first `count` of `perms`, from left to right.
    pub open spec fn conditions_of(perms: Seq<Self>, count: nat) -> Seq<CExp>
        decreases perms, count,
    {
        if 0 < count <= perms.len() {
            Self::conditions_of(perms, (count - 1) as nat) + perms[count - 1].conditions()
        } else {
            Seq::empty()
        }
    }

    /// Whether the condition at position `at` of `conditions` may fail with
    /// `failure` while every condition before it may pass.
    pub open spec fn may_fail_at<Env: Environment<CExp = CExp>>(
        &self,
        env: &Env,
        at: int,
        failure: Env::Err,
    ) -> bool {
        &&& 0 <= at < self.conditions().len()
        &&& env.may_answer(&self.conditions()[at], Err::<bool, Env::Err>(failure))
        &&& forall|j: int| 0 <= j < at ==> may_pass(env, #[trigger] self.conditions()[j])
    }

    /// Whether `env` answers each condition `c` of this tree in one way only:
    /// by `answers(c)`.
    pub open spec fn decided_by<Env: Environment<CExp = CExp>>(
        &self,
        env: &Env,
        answers: spec_fn(CExp) -> Result<bool, Env::Err>,
    ) -> bool {
        forall|at: int, answer: Result<bool, Env::Err>|
            0 <= at < self.conditions().len() && #[trigger] env.may_answer(
                &self.conditions()[at],
                answer,
            ) ==> answer == answers(self.conditions()[at])
    }

    /// The outcome of resolving this tree when every condition `c` is answered
    /// by `answers(c)`.
    pub open spec fn resolution<E>(&self, answers: spec_fn(CExp) -> Result<bool, E>) -> Result<
        Option<Permission>,
        E,
    >
        decreases self,
    {
        match self {
            ConditionalPermission::Silent => Ok(None),
            ConditionalPermission::Atomic(perm, cexp) => guarded(*perm, answers(*cexp)),
            ConditionalPermission::Fixed(perm) => Ok(Some(*perm)),
            ConditionalPermission::Aggregate(perms) => gathered(
                Self::resolutions(perms@, answers),
            ),
        }
    }

    /// The outcomes of resolving each of `perms` when every condition `c` is
    /// answered by `answers(c)`.
    pub open spec fn resolutions<E>(
        perms: Seq<Self>,
        answers: spec_fn(CExp) -> Result<bool, E>,
    ) -> Seq<Result<Option<Permission>, E>>
        decreases perms,
    {
        Seq::new(
            perms.len(),
            |i: int|
                if 0 <= i < perms.len() {
                    perms[i].resolution(answers)
                } else {
                    Ok(None)
                },
        )
    }

    /// Resolves this tree against `environment` into one opinion, or into the
    /// failure of the environment.
    ///
    /// Every condition of the tree is put to the environment once, from left to
    /// right; every rule of an aggregate is resolved, also after one of them
    /// has failed. The first failure, if there is one, is handed back
    /// unchanged.
    pub fn resolve<Env>(&self, environment: &Env) -> (outcome: Result<
        Option<Permission>,
        Env::Err,
    >) where Env: Environment<CExp = CExp>
        ensures
            self.resolves_to(environment, outcome),
            self is Silent ==> outcome == Ok::<Option<Permission>, Env::Err>(None),
            self matches ConditionalPermission::Fixed(perm) ==> outcome == Ok::<
                Option<Permission>,
                Env::Err,
            >(Some(*perm)),
            self matches ConditionalPermission::Atomic(perm, cexp) ==> exists|
                answer: Result<bool, Env::Err>,
            |
                environment.may_answer(cexp, answer) && outcome == guarded(*perm, answer),
            self matches ConditionalPermission::Aggregate(perms) ==> perms.len() == 0 ==> outcome
                == Ok::<Option<Permission>, Env::Err>(None),
            self.conditions().len() == 0 ==> outcome is Ok,
            outcome is Ok ==> forall|at: int|
                0 <= at < self.conditions().len() ==> may_pass(
                    environment,
                    #[trigger] self.conditions()[at],
                ),
            outcome matches Err(failure) ==> exists|at: int|
                self.may_fail_at(environment, at, failure),
            forall|answers: spec_fn(CExp) -> Result<bool, Env::Err>| #[trigger]
                self.decided_by(environment, answers) ==> outcome == self.resolution(answers),
        decreases self,
    {
        let outcome = match self {
            ConditionalPermission::Silent => Ok(None),
            ConditionalPermission::Atomic(perm, cexp) => {
                let answer = environment.test_condition(cexp);
                guard(*perm, answer)
            },
            ConditionalPermission::Fixed(perm) => Ok(Some(*perm)),
            ConditionalPermission::Aggregate(perms) => {
                let mut collected: Vec<Result<Option<Permission>, Env::Err>> = Vec::new();
                let mut i: usize = 0;
                while i < perms.len()
                    invariant
                        i <= perms.len(),
                        self matches ConditionalPermission::Aggregate(ps) && ps == perms,
                        collected.len() == i,
                        forall|j: int|
                            0 <= j < i ==> (#[trigger] perms[j]).resolves_to(
                                environment,
                                collected[j],
                            ),
                    decreases perms.len() - i,
                {
                    let resolved = perms[i].resolve(environment);
                    collected.push(resolved);
                    i += 1;
                }
                proof {
                    assert(Self::each_resolves_to(perms@, environment, collected@));
                    if perms.len() == 0 {
                        assert(collected@ =~= Seq::empty());
                        lemma_gathered_empty::<Env::Err>();
                    }
                }
                gather(collected)
            },
        };
        proof {
            if outcome is Ok {
                self.lemma_success_origin(environment, outcome->Ok_0);
            } else {
                let _ = self.lemma_failure_origin(environment, outcome->Err_0);
            }
            assert forall|answers: spec_fn(CExp) -> Result<bool, Env::Err>| #[trigger]
                self.decided_by(environment, answers) implies outcome == self.resolution(
                answers,
            ) by {
                self.lemma_resolution_unique(environment, answers, outcome);
            }
        }
        outcome
    }
}

} // verus!
