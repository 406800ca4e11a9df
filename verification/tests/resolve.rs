use conditional_permission::condition::Environment;
use conditional_permission::permission::ConditionalPermission;
use conditional_permission::permission::ConditionalPermission::{Aggregate, Atomic};
use conditional_permission::permission::Permission;
use conditional_permission::permission::Permission::{ALLOW, DENY};

#[derive(Clone, Debug, PartialEq, Eq)]
enum TestExpression {
    Match,
    Miss,
    _Error,
}

struct TestEnv;

impl Environment for TestEnv {
    type Err = ();
    type CExp = TestExpression;

    fn test_condition(&self, exp: &Self::CExp) -> Result<bool, Self::Err> {
        match exp {
            TestExpression::Match => Ok(true),
            TestExpression::Miss => Ok(false),
            TestExpression::_Error => Err(()),
        }
    }
}

#[test]
fn resolve_silent() {
    let perm = ConditionalPermission::<TestExpression>::Silent;

    let actual = perm.resolve(&TestEnv);

    assert_eq!(actual, Ok(None));
}

#[test]
fn resolve_atomic_allow_match() {
    let perm = ConditionalPermission::Atomic(Permission::ALLOW, TestExpression::Match);

    let actual = perm.resolve(&TestEnv);

    assert_eq!(actual, Ok(Some(Permission::ALLOW)));
}

#[test]
fn resolve_atomic_deny_match() {
    let perm = ConditionalPermission::Atomic(Permission::DENY, TestExpression::Match);

    let actual = perm.resolve(&TestEnv);

    assert_eq!(actual, Ok(Some(Permission::DENY)));
}

#[test]
fn resolve_atomic_allow_miss() {
    let perm = ConditionalPermission::Atomic(Permission::ALLOW, TestExpression::Miss);

    let actual = perm.resolve(&TestEnv);

    assert_eq!(actual, Ok(None));
}

#[test]
fn resolve_atomic_deny_miss() {
    let perm = ConditionalPermission::Atomic(Permission::DENY, TestExpression::Miss);

    let actual = perm.resolve(&TestEnv);

    assert_eq!(actual, Ok(None));
}

#[test]
fn resolve_atomic_error() {
    let perm = ConditionalPermission::Atomic(Permission::ALLOW, TestExpression::_Error);

    let actual = perm.resolve(&TestEnv);

    assert!(actual.is_err());
    assert_eq!(
        actual.unwrap_err(),
        TestEnv.test_condition(&TestExpression::_Error).unwrap_err()
    );
}

#[test]
fn resolve_fixed_allow() {
    let perm = ConditionalPermission::<TestExpression>::Fixed(ALLOW);

    let actual = perm.resolve(&TestEnv);

    assert_eq!(actual, Ok(Some(ALLOW)));
}

#[test]
fn resolve_fixed_deny() {
    let perm = ConditionalPermission::<TestExpression>::Fixed(DENY);

    let actual = perm.resolve(&TestEnv);

    assert_eq!(actual, Ok(Some(DENY)));
}

fn check_aggregate(
    config: Vec<ConditionalPermission<TestExpression>>,
    expect: Result<Option<Permission>, ()>,
) {
    let perm = ConditionalPermission::Aggregate(config);

    let actual = perm.resolve(&TestEnv);

    assert_eq!(actual, expect);
}

#[test]
fn resolve_aggregate_empty() {
    check_aggregate(vec![], Ok(None));
}

#[test]
fn resolve_aggregate_single_allow() {
    check_aggregate(vec![ConditionalPermission::Fixed(ALLOW)], Ok(Some(ALLOW)));
}

#[test]
fn resolve_aggregate_single_deny() {
    check_aggregate(vec![ConditionalPermission::Fixed(DENY)], Ok(Some(DENY)));
}

#[test]
fn resolve_aggregate_single_silent() {
    check_aggregate(vec![ConditionalPermission::Silent], Ok(None));
}

#[test]
fn resolve_aggregate_all_allow() {
    check_aggregate(
        vec![
            ConditionalPermission::Fixed(ALLOW),
            ConditionalPermission::Fixed(ALLOW),
            ConditionalPermission::Fixed(ALLOW),
        ],
        Ok(Some(ALLOW)),
    );
}

#[test]
fn resolve_aggregate_deny_priority() {
    check_aggregate(
        vec![
            ConditionalPermission::Fixed(DENY),
            ConditionalPermission::Fixed(ALLOW),
            ConditionalPermission::Fixed(ALLOW),
        ],
        Ok(Some(DENY)),
    );
    check_aggregate(
        vec![
            ConditionalPermission::Fixed(ALLOW),
            ConditionalPermission::Fixed(DENY),
            ConditionalPermission::Fixed(ALLOW),
        ],
        Ok(Some(DENY)),
    );
    check_aggregate(
        vec![
            ConditionalPermission::Fixed(ALLOW),
            ConditionalPermission::Fixed(ALLOW),
            ConditionalPermission::Fixed(DENY),
        ],
        Ok(Some(DENY)),
    );
}

#[test]
fn resolve_aggregate_silence_ignored() {
    check_aggregate(
        vec![
            ConditionalPermission::Silent,
            ConditionalPermission::Fixed(ALLOW),
            ConditionalPermission::Fixed(ALLOW),
        ],
        Ok(Some(ALLOW)),
    );
    check_aggregate(
        vec![
            ConditionalPermission::Fixed(ALLOW),
            ConditionalPermission::Silent,
            ConditionalPermission::Fixed(ALLOW),
        ],
        Ok(Some(ALLOW)),
    );
    check_aggregate(
        vec![
            ConditionalPermission::Fixed(ALLOW),
            ConditionalPermission::Fixed(ALLOW),
            ConditionalPermission::Silent,
        ],
        Ok(Some(ALLOW)),
    );
    check_aggregate(
        vec![
            ConditionalPermission::Silent,
            ConditionalPermission::Fixed(ALLOW),
            ConditionalPermission::Fixed(DENY),
            ConditionalPermission::Fixed(ALLOW),
        ],
        Ok(Some(DENY)),
    );
    check_aggregate(
        vec![
            ConditionalPermission::Fixed(ALLOW),
            ConditionalPermission::Silent,
            ConditionalPermission::Fixed(DENY),
            ConditionalPermission::Fixed(ALLOW),
        ],
        Ok(Some(DENY)),
    );
    check_aggregate(
        vec![
            ConditionalPermission::Fixed(ALLOW),
            ConditionalPermission::Fixed(DENY),
            ConditionalPermission::Fixed(ALLOW),
            ConditionalPermission::Silent,
        ],
        Ok(Some(DENY)),
    );
}

#[test]
fn test_nested_condition() {
    let perm = Aggregate(vec![
        Atomic(DENY, 1u32),
        Atomic(DENY, 2u32),
        Aggregate(vec![Atomic(DENY, 3u32), Atomic(ALLOW, 4u32)]),
    ]);

    let actual = perm.resolve(&3u32);
    assert_eq!(actual, Ok(Some(DENY)));

    let actual = perm.resolve(&4u32);
    assert_eq!(actual, Ok(Some(ALLOW)));

    let actual = perm.resolve(&100u32);
    assert_eq!(actual, Ok(None));
}
