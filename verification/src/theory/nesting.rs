//! Nesting: an aggregate among the rules of an aggregate can be taken apart.

use vstd::prelude::*;
use crate::condition::Environment;
use crate::outcome::{gathered, lemma_gathered_flatten};
use crate::permission::{ConditionalPermission, Permission};

verus! {

impl<CExp> ConditionalPermission<CExp> {
    /// Nesting: an aggregate that holds another aggregate among its rules
    /// resolves as the aggregate that holds the inner rules in its place.
    pub proof fn lemma_nesting_flattens<Env: Environment<CExp = CExp>>(
        nested: Vec<Self>,
        at: int,
        inner: Vec<Self>,
        flat: Vec<Self>,
        env: &Env,
        outcome: Result<Option<Permission>, Env::Err>,
    )
        requires
            0 <= at < nested.len(),
            nested[at] == ConditionalPermission::Aggregate(inner),
            flat@ == nested@.take(at) + inner@ + nested@.skip(at + 1),
        ensures
            ConditionalPermission::Aggregate(nested).resolves_to(env, outcome)
                <==> ConditionalPermission::Aggregate(flat).resolves_to(env, outcome),
    {
        let width = inner.len() as int;
        if ConditionalPermission::Aggregate(nested).resolves_to(env, outcome) {
            let collected = Self::lemma_aggregate_outcomes(nested, env, outcome);
            assert(nested[at].resolves_to(env, collected[at]));
            let within = Self::lemma_aggregate_outcomes(inner, env, collected[at]);
            let front = collected.take(at);
            let back = collected.skip(at + 1);
            let spread = front + within + back;
            assert(collected =~= front + seq![gathered(within)] + back);
            lemma_gathered_flatten(front, within, back);
            assert forall|i: int| 0 <= i < flat.len() implies
                (#[trigger] flat@[i]).resolves_to(env, spread[i]) by {
                if i < at {
                    assert(flat@[i] == nested@[i] && spread[i] == collected[i]);
                } else if i < at + width {
                    assert(flat@[i] == inner@[i - at] && spread[i] == within[i - at]);
                } else {
                    let j = i - width + 1;
                    assert(flat@[i] == nested@[j] && spread[i] == collected[j]);
                }
            }
            assert(Self::each_resolves_to(flat@, env, spread));
        }
        if ConditionalPermission::Aggregate(flat).resolves_to(env, outcome) {
            let spread = Self::lemma_aggregate_outcomes(flat, env, outcome);
            let front = spread.take(at);
            let within = spread.subrange(at, at + width);
            let back = spread.skip(at + width);
            let collected = front + seq![gathered(within)] + back;
            assert(spread =~= front + within + back);
            lemma_gathered_flatten(front, within, back);
            assert(Self::each_resolves_to(inner@, env, within)) by {
                assert forall|i: int| 0 <= i < inner.len() implies
                    (#[trigger] inner@[i]).resolves_to(env, within[i]) by {
                    assert(flat@[at + i] == inner@[i] && spread[at + i] == within[i]);
                }
            }
            assert(ConditionalPermission::Aggregate(inner).resolves_to(env, gathered(within)));
            assert forall|i: int| 0 <= i < nested.len() implies
                (#[trigger] nested@[i]).resolves_to(env, collected[i]) by {
                if i < at {
                    assert(flat@[i] == nested@[i] && spread[i] == collected[i]);
                } else if i == at {
                    assert(collected[i] == gathered(within));
                } else {
                    let j = i + width - 1;
                    assert(flat@[j] == nested@[i] && spread[j] == collected[i]);
                }
            }
            assert(Self::each_resolves_to(nested@, env, collected));
        }
    }

    /// Nesting, for an environment that is decided: the two aggregates have
    /// the same resolution.
    pub proof fn lemma_nesting_flattens_resolution<E>(
        nested: Vec<Self>,
        at: int,
        inner: Vec<Self>,
        flat: Vec<Self>,
        answers: spec_fn(CExp) -> Result<bool, E>,
    )
        requires
            0 <= at < nested.len(),
            nested[at] == ConditionalPermission::Aggregate(inner),
            flat@ == nested@.take(at) + inner@ + nested@.skip(at + 1),
        ensures
            ConditionalPermission::Aggregate(nested).resolution(answers)
                == ConditionalPermission::Aggregate(flat).resolution(answers),
    {
        let collected = Self::resolutions(nested@, answers);
        let within = Self::resolutions(inner@, answers);
        let front = collected.take(at);
        let back = collected.skip(at + 1);
        assert(collected =~= front + seq![gathered(within)] + back);
        assert(Self::resolutions(flat@, answers) =~= front + within + back);
        lemma_gathered_flatten(front, within, back);
    }

    /// Nesting puts the same conditions to the environment, in the same
    /// order.
    pub proof fn lemma_nesting_keeps_conditions(
        nested: Vec<Self>,
        at: int,
        inner: Vec<Self>,
        flat: Vec<Self>,
    )
        requires
            0 <= at < nested.len(),
            nested[at] == ConditionalPermission::Aggregate(inner),
            flat@ == nested@.take(at) + inner@ + nested@.skip(at + 1),
        ensures
            ConditionalPermission::Aggregate(nested).conditions()
                == ConditionalPermission::Aggregate(flat).conditions(),
    {
        let front = nested@.take(at);
        let back = nested@.skip(at + 1);
        let alone = seq![nested@[at]];
        assert(nested@ =~= front + alone + back);
        Self::lemma_conditions_of_concat(front + alone, back, back.len());
        Self::lemma_conditions_of_concat(front, alone, 1);
        assert(Self::conditions_of(alone, 1) =~= Self::conditions_of(inner@, inner@.len())) by {
            assert(Self::conditions_of(alone, 0) =~= Seq::empty());
            assert(alone[0].conditions() == Self::conditions_of(inner@, inner@.len()));
        }
        Self::lemma_conditions_of_concat(front + inner@, back, back.len());
        Self::lemma_conditions_of_concat(front, inner@, inner@.len());
    }
}

} // verus!
