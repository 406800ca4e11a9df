//! Where the conditions of the rules stand among the conditions of an aggregate.

use vstd::prelude::*;
use crate::permission::ConditionalPermission;

verus! {

impl<CExp> ConditionalPermission<CExp> {
    /// The conditions of one rule stand together among the conditions of the
    /// rules, behind those of the rules before it.
    pub proof fn lemma_conditions_of_rule(perms: Seq<Self>, count: nat, i: int)
        requires
            0 <= i < count <= perms.len(),
        ensures
            Self::conditions_of(perms, i as nat).len() + perms[i].conditions().len()
                <= Self::conditions_of(perms, count).len(),
            forall|m: int|
                0 <= m < perms[i].conditions().len() ==> Self::conditions_of(
                    perms,
                    count,
                )[Self::conditions_of(perms, i as nat).len() + m]
                    == #[trigger] perms[i].conditions()[m],
        decreases count,
    {
        if i < count - 1 {
            Self::lemma_conditions_of_rule(perms, (count - 1) as nat, i);
        }
    }

    /// Every condition among those of the rules belongs to one rule: the result
    /// is the position of the rule and the position of the condition in it.
    pub proof fn lemma_conditions_of_place(perms: Seq<Self>, count: nat, at: int) -> (place: (
        int,
        int,
    ))
        requires
            count <= perms.len(),
            0 <= at < Self::conditions_of(perms, count).len(),
        ensures
            0 <= place.0 < count,
            0 <= place.1 < perms[place.0].conditions().len(),
            at == Self::conditions_of(perms, place.0 as nat).len() + place.1,
            Self::conditions_of(perms, count)[at] == perms[place.0].conditions()[place.1],
        decreases count,
    {
        let before = Self::conditions_of(perms, (count - 1) as nat);
        if at < before.len() {
            Self::lemma_conditions_of_place(perms, (count - 1) as nat, at)
        } else {
            (count - 1, at - before.len())
        }
    }

    /// The conditions of the first rules do not depend on the rules behind
    /// them.
    pub proof fn lemma_conditions_of_front(front: Seq<Self>, back: Seq<Self>, count: nat)
        requires
            count <= front.len(),
        ensures
            Self::conditions_of(front + back, count) == Self::conditions_of(front, count),
        decreases count,
    {
        if count > 0 {
            Self::lemma_conditions_of_front(front, back, (count - 1) as nat);
            assert((front + back)[count - 1] == front[count - 1]);
        }
    }

    /// The conditions of rules that stand behind others stand behind the
    /// conditions of those.
    pub proof fn lemma_conditions_of_concat(front: Seq<Self>, back: Seq<Self>, count: nat)
        requires
            count <= back.len(),
        ensures
            Self::conditions_of(front + back, front.len() + count) == Self::conditions_of(
                front,
                front.len(),
            ) + Self::conditions_of(back, count),
        decreases count,
    {
        if count == 0 {
            Self::lemma_conditions_of_front(front, back, front.len());
            assert(Self::conditions_of(front, front.len()) + Seq::<CExp>::empty()
                =~= Self::conditions_of(front, front.len()));
        } else {
            Self::lemma_conditions_of_concat(front, back, (count - 1) as nat);
            assert((front + back)[front.len() + count - 1] == back[count - 1]);
            let before = Self::conditions_of(front, front.len());
            let middle = Self::conditions_of(back, (count - 1) as nat);
            let last = back[count - 1].conditions();
            assert((before + middle) + last =~= before + (middle + last));
        }
    }
}

} // verus!
