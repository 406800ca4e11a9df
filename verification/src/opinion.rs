//! The deny-override algebra on opinions.
//!
//! An opinion is an `Option<Permission>`: `None` means that no rule spoke.

use vstd::prelude::*;
use crate::permission::Permission;

verus! {

/// Deny-override combination of two opinions: a denial on either side
/// denies, otherwise an allowance on either side allows, otherwise nothing is
/// said.
pub open spec fn merged(a: Option<Permission>, v: Option<Permission>) -> Option<Permission> {
    if a == Some(Permission::DENY) || v == Some(Permission::DENY) {
        Some(Permission::DENY)
    } else if a == Some(Permission::ALLOW) || v == Some(Permission::ALLOW) {
        Some(Permission::ALLOW)
    } else {
        None
    }
}

/// What a sequence of opinions amounts to: deny as soon as one denies,
/// otherwise allow if one allows, otherwise silence.
pub open spec fn verdict(opinions: Seq<Option<Permission>>) -> Option<Permission> {
    if opinions.contains(Some(Permission::DENY)) {
        Some(Permission::DENY)
    } else if opinions.contains(Some(Permission::ALLOW)) {
        Some(Permission::ALLOW)
    } else {
        None
    }
}

/// Combines two opinions under deny-override: silence yields to the other
/// side, two allowances allow, and everything else denies.
pub fn merge(a: Option<Permission>, v: Option<Permission>) -> (m: Option<Permission>)
    ensures
        m == merged(a, v),
{
    match (a, v) {
        (None, x) => x,
        (x, None) => x,
        (Some(Permission::ALLOW), Some(Permission::ALLOW)) => Some(Permission::ALLOW),
        _ => Some(Permission::DENY),
    }
}

/// Silence is the identity of `merged`.
pub proof fn lemma_merged_identity(v: Option<Permission>)
    ensures
        merged(None, v) == v,
        merged(v, None) == v,
{
}

/// `merged` does not depend on the order of its arguments.
pub proof fn lemma_merged_commutative(a: Option<Permission>, b: Option<Permission>)
    ensures
        merged(a, b) == merged(b, a),
{
}

/// `merged` does not depend on how a chain of combinations is bracketed.
pub proof fn lemma_merged_associative(
    a: Option<Permission>,
    b: Option<Permission>,
    c: Option<Permission>,
)
    ensures
        merged(merged(a, b), c) == merged(a, merged(b, c)),
{
}

/// Appending one opinion to a sequence combines it into the verdict.
pub proof fn lemma_verdict_push(opinions: Seq<Option<Permission>>, v: Option<Permission>)
    ensures
        verdict(opinions.push(v)) == merged(verdict(opinions), v),
{
    let extended = opinions.push(v);
    assert forall|x: Option<Permission>|
        extended.contains(x) <==> opinions.contains(x) || x == v by {
        if opinions.contains(x) {
            let i = opinions.index_of(x);
            assert(extended[i] == x);
        }
        if x == v {
            assert(extended[opinions.len() as int] == x);
        }
    }
}

/// The verdict of a concatenation is the combination of the two verdicts.
pub proof fn lemma_verdict_concat(
    front: Seq<Option<Permission>>,
    back: Seq<Option<Permission>>,
)
    ensures
        verdict(front + back) == merged(verdict(front), verdict(back)),
{
    let whole = front + back;
    assert forall|x: Option<Permission>|
        whole.contains(x) <==> front.contains(x) || back.contains(x) by {
        if front.contains(x) {
            let i = front.index_of(x);
            assert(whole[i] == x);
        }
        if back.contains(x) {
            let i = back.index_of(x);
            assert(whole[front.len() + i] == x);
        }
    }
}

/// The verdict is what folding the opinions from left to right with `merged`
/// gives, starting from silence.
pub proof fn lemma_verdict_is_fold(opinions: Seq<Option<Permission>>)
    ensures
        verdict(opinions) == opinions.fold_left(
            None,
            |a: Option<Permission>, v: Option<Permission>| merged(a, v),
        ),
    decreases opinions.len(),
{
    if opinions.len() == 0 {
    } else {
        lemma_verdict_is_fold(opinions.drop_last());
        lemma_verdict_push(opinions.drop_last(), opinions.last());
        assert(opinions.drop_last().push(opinions.last()) =~= opinions);
    }
}

/// The verdict does not depend on the order of the opinions.
pub proof fn lemma_verdict_order(
    opinions: Seq<Option<Permission>>,
    reordered: Seq<Option<Permission>>,
)
    requires
        opinions.to_multiset() == reordered.to_multiset(),
    ensures
        verdict(opinions) == verdict(reordered),
{
    assert forall|x: Option<Permission>| opinions.contains(x) <==> reordered.contains(x) by {
        vstd::seq_lib::to_multiset_contains(opinions, x);
        vstd::seq_lib::to_multiset_contains(reordered, x);
    }
}

} // verus!
