use conditional_permission::opinion::merge;
use conditional_permission::outcome::{gather, guard};
use conditional_permission::permission::Permission;
use conditional_permission::permission::Permission::{ALLOW, DENY};

#[test]
fn merge_silence_is_identity() {
    assert_eq!(merge(None, None), None);
    assert_eq!(merge(None, Some(ALLOW)), Some(ALLOW));
    assert_eq!(merge(None, Some(DENY)), Some(DENY));
    assert_eq!(merge(Some(ALLOW), None), Some(ALLOW));
    assert_eq!(merge(Some(DENY), None), Some(DENY));
}

#[test]
fn merge_two_opinions() {
    assert_eq!(merge(Some(ALLOW), Some(ALLOW)), Some(ALLOW));
    assert_eq!(merge(Some(ALLOW), Some(DENY)), Some(DENY));
    assert_eq!(merge(Some(DENY), Some(ALLOW)), Some(DENY));
    assert_eq!(merge(Some(DENY), Some(DENY)), Some(DENY));
}

#[test]
fn merge_is_commutative_and_associative() {
    let all = [None, Some(ALLOW), Some(DENY)];
    for a in all {
        for b in all {
            assert_eq!(merge(a, b), merge(b, a));
            for c in all {
                assert_eq!(merge(merge(a, b), c), merge(a, merge(b, c)));
            }
        }
    }
}

#[test]
fn guard_follows_the_answer() {
    assert_eq!(guard::<u8>(ALLOW, Ok(true)), Ok(Some(ALLOW)));
    assert_eq!(guard::<u8>(DENY, Ok(true)), Ok(Some(DENY)));
    assert_eq!(guard::<u8>(ALLOW, Ok(false)), Ok(None));
    assert_eq!(guard::<u8>(DENY, Ok(false)), Ok(None));
    assert_eq!(guard(ALLOW, Err(7u8)), Err(7u8));
    assert_eq!(guard(DENY, Err(9u8)), Err(9u8));
}

#[test]
fn gather_nothing_is_silence() {
    let collected: Vec<Result<Option<Permission>, u8>> = vec![];
    assert_eq!(gather(collected), Ok(None));
}

#[test]
fn gather_single_outcome_is_itself() {
    assert_eq!(gather::<u8>(vec![Ok(None)]), Ok(None));
    assert_eq!(gather::<u8>(vec![Ok(Some(ALLOW))]), Ok(Some(ALLOW)));
    assert_eq!(gather::<u8>(vec![Ok(Some(DENY))]), Ok(Some(DENY)));
    assert_eq!(gather(vec![Err(3u8)]), Err(3u8));
}

#[test]
fn gather_silence_only_is_silence() {
    assert_eq!(gather::<u8>(vec![Ok(None), Ok(None), Ok(None)]), Ok(None));
}

#[test]
fn gather_deny_wins_at_every_position() {
    for length in 1..6usize {
        for position in 0..length {
            for filler in [None, Some(ALLOW)] {
                let mut collected: Vec<Result<Option<Permission>, u8>> = Vec::new();
                for i in 0..length {
                    collected.push(Ok(if i == position { Some(DENY) } else { filler }));
                }
                assert_eq!(gather(collected), Ok(Some(DENY)));
            }
        }
    }
}

#[test]
fn gather_allow_needs_one_allow_and_no_deny() {
    for length in 1..6usize {
        for position in 0..length {
            let mut collected: Vec<Result<Option<Permission>, u8>> = Vec::new();
            for i in 0..length {
                collected.push(Ok(if i == position { Some(ALLOW) } else { None }));
            }
            assert_eq!(gather(collected), Ok(Some(ALLOW)));
        }
    }
    assert_eq!(
        gather::<u8>(vec![Ok(Some(ALLOW)), Ok(None), Ok(Some(ALLOW))]),
        Ok(Some(ALLOW))
    );
}

#[test]
fn gather_first_failure_wins() {
    assert_eq!(gather(vec![Ok(Some(ALLOW)), Err(7u8), Err(9u8)]), Err(7u8));
    assert_eq!(gather(vec![Err(9u8), Err(7u8), Ok(None)]), Err(9u8));
    assert_eq!(gather(vec![Ok(None), Ok(None), Err(1u8)]), Err(1u8));
}

#[test]
fn gather_failure_is_not_masked_by_deny() {
    assert_eq!(gather(vec![Ok(Some(DENY)), Err(4u8)]), Err(4u8));
    assert_eq!(gather(vec![Err(4u8), Ok(Some(DENY))]), Err(4u8));
}

#[test]
fn gather_keeps_the_failure_unchanged() {
    let collected: Vec<Result<Option<Permission>, String>> =
        vec![Ok(None), Err(String::from("no such attribute")), Ok(Some(DENY))];
    assert_eq!(gather(collected), Err(String::from("no such attribute")));
}

#[test]
fn gather_order_does_not_matter_without_failure() {
    let all = [None, Some(ALLOW), Some(DENY)];
    for a in all {
        for b in all {
            for c in all {
                let expect = gather::<u8>(vec![Ok(a), Ok(b), Ok(c)]);
                assert_eq!(gather::<u8>(vec![Ok(a), Ok(c), Ok(b)]), expect);
                assert_eq!(gather::<u8>(vec![Ok(b), Ok(a), Ok(c)]), expect);
                assert_eq!(gather::<u8>(vec![Ok(b), Ok(c), Ok(a)]), expect);
                assert_eq!(gather::<u8>(vec![Ok(c), Ok(a), Ok(b)]), expect);
                assert_eq!(gather::<u8>(vec![Ok(c), Ok(b), Ok(a)]), expect);
            }
        }
    }
}

#[test]
fn gather_is_the_left_fold() {
    let all = [None, Some(ALLOW), Some(DENY)];
    for a in all {
        for b in all {
            for c in all {
                for d in all {
                    let folded = merge(merge(merge(merge(None, a), b), c), d);
                    assert_eq!(gather::<u8>(vec![Ok(a), Ok(b), Ok(c), Ok(d)]), Ok(folded));
                }
            }
        }
    }
}
