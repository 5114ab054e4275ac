use aphorme::instance::InstanceGuard;

#[test]
fn a_guard_without_a_claim_is_not_single() {
    let guard = InstanceGuard::default();
    assert!(!guard.is_held());
    assert!(!guard.is_single());
}

#[test]
fn a_released_guard_is_not_single() {
    if let Some(mut guard) = InstanceGuard::acquire("aphorme-test-released-guard") {
        assert!(guard.is_held());
        guard.release();
        assert!(!guard.is_held());
        assert!(!guard.is_single());
    }
}

#[test]
fn a_second_claim_on_a_name_is_not_single() {
    if let Some(first) = InstanceGuard::acquire("aphorme-test-second-claim") {
        if first.is_single() {
            let second = InstanceGuard::acquire("aphorme-test-second-claim");
            assert!(match &second {
                Some(guard) => !guard.is_single(),
                None => true,
            });
        }
    }
}

#[test]
fn a_name_is_free_again_after_release() {
    if let Some(mut first) = InstanceGuard::acquire("aphorme-test-free-again") {
        if first.is_single() {
            first.release();
            let again = InstanceGuard::acquire("aphorme-test-free-again");
            assert!(match &again {
                Some(guard) => guard.is_single(),
                None => true,
            });
        }
    }
}

#[test]
fn a_guard_answers_the_same_each_time_it_is_asked() {
    if let Some(guard) = InstanceGuard::acquire("aphorme-test-same-answer") {
        let first = guard.is_single();
        assert_eq!(guard.is_single(), first);
        assert_eq!(guard.is_single(), first);
        assert!(guard.is_held());
    }
}

#[test]
fn a_guard_that_is_single_holds_its_claim() {
    if let Some(guard) = InstanceGuard::acquire("aphorme-test-single-is-held") {
        assert!(!guard.is_single() || guard.is_held());
        let second = InstanceGuard::acquire("aphorme-test-single-is-held");
        if let Some(other) = &second {
            assert!(!(guard.is_single() && other.is_single()));
        }
    }
}
