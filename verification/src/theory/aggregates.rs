//! Aggregates: what the outcomes of the rules say of the outcome of the whole.

use vstd::prelude::*;
use crate::condition::Environment;
use crate::outcome::{
    gathered, lemma_gathered_allow, lemma_gathered_deny, lemma_gathered_empty,
    lemma_gathered_silence,
};
use crate::permission::{ConditionalPermission, Permission};

verus! {

impl<CExp> ConditionalPermission<CExp> {
    /// Behind every outcome of an aggregate stands one outcome for each of its
    /// rules, gathered.
    pub proof fn lemma_aggregate_outcomes<Env: Environment<CExp = CExp>>(
        perms: Vec<Self>,
        env: &Env,
        outcome: Result<Option<Permission>, Env::Err>,
    ) -> (collected: Seq<Result<Option<Permission>, Env::Err>>)
        requires
            ConditionalPermission::Aggregate(perms).resolves_to(env, outcome),
        ensures
            Self::each_resolves_to(perms@, env, collected),
            outcome == gathered(collected),
    {
        choose|collected: Seq<Result<Option<Permission>, Env::Err>>|
            Self::each_resolves_to(perms@, env, collected) && outcome == gathered(collected)
    }

    /// An aggregate each of whose rules resolves in one way only resolves in
    /// one way only: to what the outcomes of its rules gather to.
    pub proof fn lemma_aggregate_decided<Env: Environment<CExp = CExp>>(
        perms: Vec<Self>,
        env: &Env,
        collected: Seq<Result<Option<Permission>, Env::Err>>,
        outcome: Result<Option<Permission>, Env::Err>,
    )
        requires
            ConditionalPermission::Aggregate(perms).resolves_to(env, outcome),
            collected.len() == perms.len(),
            forall|i: int, resolved: Result<Option<Permission>, Env::Err>|
                0 <= i < perms.len() && (#[trigger] perms[i].resolves_to(env, resolved))
                    ==> resolved == collected[i],
        ensures
            outcome == gathered(collected),
    {
        let actual = Self::lemma_aggregate_outcomes(perms, env, outcome);
        assert forall|i: int| 0 <= i < perms.len() implies actual[i] == collected[i] by {
            assert(perms[i].resolves_to(env, actual[i]));
        }
        assert(actual =~= collected);
    }

    /// An aggregate without rules resolves to silence.
    pub proof fn lemma_empty_aggregate<Env: Environment<CExp = CExp>>(
        perms: Vec<Self>,
        env: &Env,
        outcome: Result<Option<Permission>, Env::Err>,
    )
        requires
            perms.len() == 0,
            ConditionalPermission::Aggregate(perms).resolves_to(env, outcome),
        ensures
            outcome == Ok::<Option<Permission>, Env::Err>(None),
    {
        let collected = Self::lemma_aggregate_outcomes(perms, env, outcome);
        assert(collected =~= Seq::empty());
        lemma_gathered_empty::<Env::Err>();
    }

    /// Identity of absence: an aggregate whose rules all resolve to silence
    /// resolves to silence.
    pub proof fn lemma_silence_absorbed<Env: Environment<CExp = CExp>>(
        perms: Vec<Self>,
        env: &Env,
        outcome: Result<Option<Permission>, Env::Err>,
    )
        requires
            ConditionalPermission::Aggregate(perms).resolves_to(env, outcome),
            forall|i: int, resolved: Result<Option<Permission>, Env::Err>|
                0 <= i < perms.len() && (#[trigger] perms[i].resolves_to(env, resolved))
                    ==> resolved == Ok::<Option<Permission>, Env::Err>(None),
        ensures
            outcome == Ok::<Option<Permission>, Env::Err>(None),
    {
        let collected = Self::lemma_aggregate_outcomes(perms, env, outcome);
        assert forall|i: int| 0 <= i < collected.len() implies collected[i] == Ok::<
            Option<Permission>,
            Env::Err,
        >(None) by {
            assert(perms[i].resolves_to(env, collected[i]));
        }
        lemma_gathered_silence(collected);
    }

    /// Deny-override: an aggregate none of whose rules fails, and one of whose
    /// rules resolves to a denial, resolves to a denial, wherever that rule
    /// stands.
    pub proof fn lemma_deny_overrides<Env: Environment<CExp = CExp>>(
        perms: Vec<Self>,
        env: &Env,
        at: int,
        outcome: Result<Option<Permission>, Env::Err>,
    )
        requires
            ConditionalPermission::Aggregate(perms).resolves_to(env, outcome),
            forall|i: int, resolved: Result<Option<Permission>, Env::Err>|
                0 <= i < perms.len() && (#[trigger] perms[i].resolves_to(env, resolved))
                    ==> resolved is Ok,
            0 <= at < perms.len(),
            forall|resolved: Result<Option<Permission>, Env::Err>| #[trigger]
                perms[at].resolves_to(env, resolved) ==> resolved == Ok::<
                    Option<Permission>,
                    Env::Err,
                >(Some(Permission::DENY)),
        ensures
            outcome == Ok::<Option<Permission>, Env::Err>(Some(Permission::DENY)),
    {
        let collected = Self::lemma_aggregate_outcomes(perms, env, outcome);
        assert forall|i: int| 0 <= i < collected.len() implies collected[i] is Ok by {
            assert(perms[i].resolves_to(env, collected[i]));
        }
        assert(perms[at].resolves_to(env, collected[at]));
        lemma_gathered_deny(collected, at);
    }

    /// All-allow: an aggregate none of whose rules fails or resolves to a
    /// denial, and one of whose rules resolves to an allowance, resolves to an
    /// allowance.
    pub proof fn lemma_all_allow<Env: Environment<CExp = CExp>>(
        perms: Vec<Self>,
        env: &Env,
        at: int,
        outcome: Result<Option<Permission>, Env::Err>,
    )
        requires
            ConditionalPermission::Aggregate(perms).resolves_to(env, outcome),
            forall|i: int, resolved: Result<Option<Permission>, Env::Err>|
                0 <= i < perms.len() && (#[trigger] perms[i].resolves_to(env, resolved))
                    ==> resolved is Ok && resolved != Ok::<Option<Permission>, Env::Err>(
                    Some(Permission::DENY),
                ),
            0 <= at < perms.len(),
            forall|resolved: Result<Option<Permission>, Env::Err>| #[trigger]
                perms[at].resolves_to(env, resolved) ==> resolved == Ok::<
                    Option<Permission>,
                    Env::Err,
                >(Some(Permission::ALLOW)),
        ensures
            outcome == Ok::<Option<Permission>, Env::Err>(Some(Permission::ALLOW)),
    {
        let collected = Self::lemma_aggregate_outcomes(perms, env, outcome);
        assert forall|i: int| 0 <= i < collected.len() implies collected[i] is Ok && collected[i]
            != Ok::<Option<Permission>, Env::Err>(Some(Permission::DENY)) by {
            assert(perms[i].resolves_to(env, collected[i]));
        }
        assert(perms[at].resolves_to(env, collected[at]));
        lemma_gathered_allow(collected, at);
    }
}

} // verus!
