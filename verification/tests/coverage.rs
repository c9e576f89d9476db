use gitturtle::coverage::{Deferred, MAX_DEFERRED_ROOTS};

fn paths(deferred: &Deferred) -> Vec<Vec<u8>> {
    deferred.roots.iter().map(|(path, _)| path.clone()).collect()
}

#[test]
fn a_remembered_subtree_stands_for_everything_inside_it() {
    let mut deferred = Deferred::new();
    deferred.defer(b"/repo/build/cache", "denied".to_owned());
    deferred.defer(b"/repo/vendor", "denied".to_owned());
    assert_eq!(paths(&deferred), vec![b"/repo/build/cache".to_vec(), b"/repo/vendor".to_vec()]);
    deferred.defer(b"/repo/vendor/deep/er", "other".to_owned());
    assert_eq!(deferred.roots.len(), 2);
    assert_eq!(deferred.roots[1].1, "denied");
    deferred.defer(b"/repo/build", "budget".to_owned());
    assert_eq!(paths(&deferred), vec![b"/repo/vendor".to_vec(), b"/repo/build".to_vec()]);
    deferred.forget_within(b"/repo/vendor");
    assert_eq!(paths(&deferred), vec![b"/repo/build".to_vec()]);
    assert!(deferred.policy_error.is_none());
}

#[test]
fn past_the_bound_one_coverage_message_is_kept() {
    let mut deferred = Deferred::new();
    for index in 0..MAX_DEFERRED_ROOTS {
        deferred.defer(format!("/repo/d{index}").as_bytes(), "denied".to_owned());
    }
    assert_eq!(deferred.roots.len(), MAX_DEFERRED_ROOTS);
    assert!(deferred.policy_error.is_none());
    deferred.defer(b"/repo/extra", "denied".to_owned());
    assert_eq!(deferred.roots.len(), MAX_DEFERRED_ROOTS);
    assert_eq!(
        deferred.policy_error.as_deref(),
        Some("More than 256 directory subtrees could not be watched. Refresh to retry coverage.")
    );
    deferred.policy_error = Some("policy".to_owned());
    deferred.defer(b"/repo/more", "denied".to_owned());
    assert_eq!(deferred.policy_error.as_deref(), Some("policy"));
    deferred.defer(b"/repo", "everything".to_owned());
    assert_eq!(paths(&deferred), vec![b"/repo".to_vec()]);
}

#[test]
fn long_reasons_are_bounded() {
    let mut deferred = Deferred::new();
    deferred.defer(b"/repo/a", "x".repeat(5000));
    assert!(deferred.roots[0].1.len() < 5000);
    assert!(deferred.roots[0].1.ends_with('\u{2026}'));
}
