//! Outcomes of resolution and how the outcomes of several rules are gathered
//! into one.
//!
//! An outcome is a `Result<Option<Permission>, E>`: an opinion, or the failure
//! `E` of the environment that was asked.

use vstd::prelude::*;
use crate::opinion::{lemma_verdict_concat, lemma_verdict_push, merge, merged, verdict};
use crate::permission::Permission;

verus! {

/// The outcome of a rule that grants `perm` on a condition, given the answer
/// to the test of that condition.
pub open spec fn guarded<E>(perm: Permission, answer: Result<bool, E>) -> Result<
    Option<Permission>,
    E,
> {
    match answer {
        Ok(true) => Ok(Some(perm)),
        Ok(false) => Ok(None),
        Err(e) => Err(e),
    }
}

/// Whether none of the outcomes is a failure.
pub open spec fn succeeded<E>(collected: Seq<Result<Option<Permission>, E>>) -> bool {
    forall|i: int| 0 <= i < collected.len() ==> collected[i] is Ok
}

/// Whether `collected[at]` is a failure that no other failure precedes.
pub open spec fn fails_first_at<E>(collected: Seq<Result<Option<Permission>, E>>, at: int) -> bool {
    &&& 0 <= at < collected.len()
    &&& collected[at] is Err
    &&& forall|j: int| 0 <= j < at ==> collected[j] is Ok
}

/// The opinions that the outcomes carry; a failure carries none.
pub open spec fn opinions<E>(collected: Seq<Result<Option<Permission>, E>>) -> Seq<
    Option<Permission>,
> {
    collected.map_values(
        |outcome: Result<Option<Permission>, E>|
            match outcome {
                Ok(v) => v,
                Err(_) => None,
            },
    )
}

/// The one outcome that a sequence of outcomes amounts to: the first failure
/// if there is any, otherwise the deny-override verdict of the opinions.
pub open spec fn gathered<E>(collected: Seq<Result<Option<Permission>, E>>) -> Result<
    Option<Permission>,
    E,
> {
    if succeeded(collected) {
        Ok(verdict(opinions(collected)))
    } else {
        collected[choose|at: int| fails_first_at(collected, at)]
    }
}

/// The outcome of `first` followed by `next`: the earlier failure if either
/// failed, otherwise the combination of the two opinions.
pub open spec fn chained<E>(
    first: Result<Option<Permission>, E>,
    next: Result<Option<Permission>, E>,
) -> Result<Option<Permission>, E> {
    match (first, next) {
        (Err(e), _) => Err(e),
        (Ok(_), Err(e)) => Err(e),
        (Ok(a), Ok(v)) => Ok(merged(a, v)),
    }
}

/// Decides a rule that grants `perm` on a condition from the answer to the
/// test of that condition.
pub fn guard<E>(perm: Permission, answer: Result<bool, E>) -> (outcome: Result<
    Option<Permission>,
    E,
>)
    ensures
        outcome == guarded(perm, answer),
{
    match answer {
        Ok(matched) => {
            if matched {
                Ok(Some(perm))
            } else {
                Ok(None)
            }
        },
        Err(e) => Err(e),
    }
}

/// Gathers the outcomes of several rules, taken in order, into one: the first
/// failure if there is any, otherwise the deny-override verdict.
pub fn gather<E>(collected: Vec<Result<Option<Permission>, E>>) -> (outcome: Result<
    Option<Permission>,
    E,
>)
    ensures
        outcome == gathered(collected@),
        outcome is Ok <==> succeeded(collected@),
        outcome matches Ok(opinion) ==> opinion == verdict(opinions(collected@)),
        outcome is Err ==> exists|at: int|
            fails_first_at(collected@, at) && outcome == collected@[at],
{
    let ghost all = collected@;
    proof {
        lemma_gathered(all);
    }
    let mut acc: Option<Permission> = None;
    for resolved in it: collected.into_iter()
        invariant
            it.seq() == all,
            succeeded(all.take(it.index() as int)),
            acc == verdict(opinions(all.take(it.index() as int))),
    {
        let ghost at = it.index() as int;
        match resolved {
            Ok(v) => {
                proof {
                    lemma_verdict_push(opinions(all.take(at)), v);
                    assert(opinions(all.take(at)).push(v) =~= opinions(all.take(at + 1)));
                }
                acc = merge(acc, v);
            },
            Err(e) => {
                proof {
                    assert forall|j: int| 0 <= j < at implies all[j] is Ok by {
                        assert(all.take(at)[j] == all[j]);
                    }
                    lemma_gathered_failure(all, at);
                }
                return Err(e);
            },
        }
    }
    proof {
        assert(all.take(all.len() as int) =~= all);
    }
    Ok(acc)
}

/// At most one position holds the first failure.
pub proof fn lemma_first_failure_unique<E>(
    collected: Seq<Result<Option<Permission>, E>>,
    at: int,
    other: int,
)
    requires
        fails_first_at(collected, at),
        fails_first_at(collected, other),
    ensures
        at == other,
{
}

/// A sequence with a first failure gathers to that failure.
pub proof fn lemma_gathered_failure<E>(collected: Seq<Result<Option<Permission>, E>>, at: int)
    requires
        fails_first_at(collected, at),
    ensures
        gathered(collected) == collected[at],
{
    let chosen = choose|at: int| fails_first_at(collected, at);
    lemma_first_failure_unique(collected, at, chosen);
}

/// A sequence with a failure has a first one.
pub proof fn lemma_first_failure_exists<E>(collected: Seq<Result<Option<Permission>, E>>, at: int)
    requires
        0 <= at < collected.len(),
        collected[at] is Err,
    ensures
        exists|first: int| first <= at && fails_first_at(collected, first),
    decreases at,
{
    if exists|j: int| 0 <= j < at && collected[j] is Err {
        let j = choose|j: int| 0 <= j < at && collected[j] is Err;
        lemma_first_failure_exists(collected, j);
    } else {
        assert(fails_first_at(collected, at));
    }
}

/// What `gathered` amounts to: success exactly when nothing failed, and then
/// the verdict of the opinions; otherwise the failure that no other precedes.
pub proof fn lemma_gathered<E>(collected: Seq<Result<Option<Permission>, E>>)
    ensures
        gathered(collected) is Ok <==> succeeded(collected),
        succeeded(collected) ==> gathered(collected) == Ok::<Option<Permission>, E>(
            verdict(opinions(collected)),
        ),
        !succeeded(collected) ==> exists|at: int|
            fails_first_at(collected, at) && gathered(collected) == collected[at],
{
    if !succeeded(collected) {
        let at = choose|at: int| 0 <= at < collected.len() && !(collected[at] is Ok);
        lemma_first_failure_exists(collected, at);
        let first = choose|first: int| first <= at && fails_first_at(collected, first);
        lemma_gathered_failure(collected, first);
    }
}

/// Nothing gathers to silence.
pub proof fn lemma_gathered_empty<E>()
    ensures
        gathered(Seq::<Result<Option<Permission>, E>>::empty()) == Ok::<Option<Permission>, E>(
            None,
        ),
{
    let nothing = Seq::<Result<Option<Permission>, E>>::empty();
    assert(succeeded(nothing));
    assert(opinions(nothing) =~= Seq::<Option<Permission>>::empty());
}

/// Silence is absorbed: outcomes that are all silent gather to silence.
pub proof fn lemma_gathered_silence<E>(collected: Seq<Result<Option<Permission>, E>>)
    requires
        forall|i: int|
            0 <= i < collected.len() ==> collected[i] == Ok::<Option<Permission>, E>(None),
    ensures
        gathered(collected) == Ok::<Option<Permission>, E>(None),
{
    assert(succeeded(collected));
    assert forall|x: Option<Permission>| opinions(collected).contains(x) implies x is None by {
        let i = opinions(collected).index_of(x);
        assert(opinions(collected)[i] == x);
    }
}

/// Deny overrides: outcomes without a failure, one of which is a denial,
/// gather to a denial, wherever the denial stands.
pub proof fn lemma_gathered_deny<E>(collected: Seq<Result<Option<Permission>, E>>, at: int)
    requires
        succeeded(collected),
        0 <= at < collected.len(),
        collected[at] == Ok::<Option<Permission>, E>(Some(Permission::DENY)),
    ensures
        gathered(collected) == Ok::<Option<Permission>, E>(Some(Permission::DENY)),
{
    assert(opinions(collected)[at] == Some(Permission::DENY));
}

/// All allow: outcomes without a failure or a denial, one of which is an
/// allowance, gather to an allowance.
pub proof fn lemma_gathered_allow<E>(collected: Seq<Result<Option<Permission>, E>>, at: int)
    requires
        succeeded(collected),
        forall|i: int|
            0 <= i < collected.len() ==> collected[i] != Ok::<Option<Permission>, E>(
                Some(Permission::DENY),
            ),
        0 <= at < collected.len(),
        collected[at] == Ok::<Option<Permission>, E>(Some(Permission::ALLOW)),
    ensures
        gathered(collected) == Ok::<Option<Permission>, E>(Some(Permission::ALLOW)),
{
    assert(opinions(collected)[at] == Some(Permission::ALLOW));
    if opinions(collected).contains(Some(Permission::DENY)) {
        let i = opinions(collected).index_of(Some(Permission::DENY));
        assert(opinions(collected)[i] == Some(Permission::DENY));
        assert(collected[i] is Ok);
    }
}

/// Without a failure the order does not matter: the same outcomes in another
/// order gather to the same opinion.
pub proof fn lemma_gathered_order<E>(
    collected: Seq<Result<Option<Permission>, E>>,
    reordered: Seq<Result<Option<Permission>, E>>,
)
    requires
        succeeded(collected),
        collected.to_multiset() == reordered.to_multiset(),
    ensures
        gathered(reordered) == gathered(collected),
{
    assert forall|outcome: Result<Option<Permission>, E>|
        collected.contains(outcome) <==> reordered.contains(outcome) by {
        vstd::seq_lib::to_multiset_contains(collected, outcome);
        vstd::seq_lib::to_multiset_contains(reordered, outcome);
    }
    assert forall|i: int| 0 <= i < reordered.len() implies reordered[i] is Ok by {
        assert(reordered.contains(reordered[i]));
        let j = collected.index_of(reordered[i]);
        assert(collected[j] is Ok);
    }
    assert forall|x: Option<Permission>|
        opinions(collected).contains(x) <==> opinions(reordered).contains(x) by {
        if opinions(collected).contains(x) {
            let i = opinions(collected).index_of(x);
            assert(collected.contains(collected[i]));
            let j = reordered.index_of(collected[i]);
            assert(opinions(reordered)[j] == x);
        }
        if opinions(reordered).contains(x) {
            let i = opinions(reordered).index_of(x);
            assert(reordered.contains(reordered[i]));
            let j = collected.index_of(reordered[i]);
            assert(opinions(collected)[j] == x);
        }
    }
}

/// Gathering a concatenation chains what the two parts gather to.
pub proof fn lemma_gathered_concat<E>(
    front: Seq<Result<Option<Permission>, E>>,
    back: Seq<Result<Option<Permission>, E>>,
)
    ensures
        gathered(front + back) == chained(gathered(front), gathered(back)),
{
    let whole = front + back;
    lemma_gathered(front);
    lemma_gathered(back);
    if !succeeded(front) {
        let at = choose|at: int| fails_first_at(front, at) && gathered(front) == front[at];
        assert(fails_first_at(whole, at)) by {
            assert(whole[at] == front[at]);
            assert forall|j: int| 0 <= j < at implies whole[j] is Ok by {
                assert(whole[j] == front[j]);
            }
        }
        lemma_gathered_failure(whole, at);
    } else if !succeeded(back) {
        let at = choose|at: int| fails_first_at(back, at) && gathered(back) == back[at];
        let shifted = front.len() + at;
        assert(fails_first_at(whole, shifted)) by {
            assert(whole[shifted] == back[at]);
            assert forall|j: int| 0 <= j < shifted implies whole[j] is Ok by {
                if j < front.len() {
                    assert(whole[j] == front[j]);
                } else {
                    assert(whole[j] == back[j - front.len()]);
                }
            }
        }
        lemma_gathered_failure(whole, shifted);
    } else {
        assert(succeeded(whole)) by {
            assert forall|j: int| 0 <= j < whole.len() implies whole[j] is Ok by {
                if j < front.len() {
                    assert(whole[j] == front[j]);
                } else {
                    assert(whole[j] == back[j - front.len()]);
                }
            }
        }
        assert(opinions(whole) =~= opinions(front) + opinions(back));
        lemma_verdict_concat(opinions(front), opinions(back));
    }
}

/// A single outcome gathers to itself.
pub proof fn lemma_gathered_single<E>(outcome: Result<Option<Permission>, E>)
    ensures
        gathered(seq![outcome]) == outcome,
{
    let alone = seq![outcome];
    if outcome is Ok {
        assert(succeeded(alone));
        assert(opinions(alone)[0] == outcome->Ok_0);
        assert forall|x: Option<Permission>| opinions(alone).contains(x) implies x
            == outcome->Ok_0 by {
            let i = opinions(alone).index_of(x);
            assert(opinions(alone)[i] == x);
        }
        match outcome->Ok_0 {
            Some(Permission::ALLOW) => {},
            Some(Permission::DENY) => {},
            None => {},
        }
    } else {
        assert(fails_first_at(alone, 0));
        lemma_gathered_failure(alone, 0);
    }
}

/// Appending one outcome chains it to what the others gather to.
pub proof fn lemma_gathered_push<E>(
    collected: Seq<Result<Option<Permission>, E>>,
    outcome: Result<Option<Permission>, E>,
)
    ensures
        gathered(collected.push(outcome)) == chained(gathered(collected), outcome),
{
    assert(collected.push(outcome) =~= collected + seq![outcome]);
    lemma_gathered_concat(collected, seq![outcome]);
    lemma_gathered_single(outcome);
}

/// Gathering a part of the outcomes first, in place, changes nothing.
pub proof fn lemma_gathered_flatten<E>(
    front: Seq<Result<Option<Permission>, E>>,
    inner: Seq<Result<Option<Permission>, E>>,
    back: Seq<Result<Option<Permission>, E>>,
)
    ensures
        gathered(front + seq![gathered(inner)] + back) == gathered(front + inner + back),
{
    lemma_gathered_concat(front + seq![gathered(inner)], back);
    lemma_gathered_concat(front, seq![gathered(inner)]);
    lemma_gathered_single(gathered(inner));
    lemma_gathered_concat(front + inner, back);
    lemma_gathered_concat(front, inner);
}

} // verus!
