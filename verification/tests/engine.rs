use homu::engine::{auth_level, RepoPolicy, RepoState};
use homu::models::{AuthLevel, BuildStatus, CommandError, Lane, PullStatus};

fn policy() -> RepoPolicy {
    RepoPolicy {
        max_priority: 100,
        timeout: 36000,
        rollup_size: 1,
        reviewers: vec!["alice".to_string()],
        try_users: vec!["bob".to_string()],
        builders: vec!["linux".to_string(), "windows".to_string()],
        try_builders: vec!["linux".to_string()],
        status_based_exemption: false,
    }
}

fn fresh(pol: RepoPolicy) -> RepoState {
    RepoState::new("repo".to_string(), pol, -1, None)
}

fn add(s: &mut RepoState, n: i32) {
    let created = s.observe_pull(
        n,
        format!("h{}", n),
        format!("branch{}", n),
        "master".to_string(),
        None,
        None,
    );
    assert!(created);
}

fn status_of(s: &RepoState, n: i32) -> PullStatus {
    s.pulls.iter().find(|p| p.num == n).unwrap().status
}

fn merge_sha_of(s: &RepoState, n: i32) -> Option<String> {
    s.pulls.iter().find(|p| p.num == n).unwrap().merge_sha.clone()
}

#[test]
fn failure_then_retry_appends_audit_row() {
    // PR #10, priority 1, approved; builders {linux, windows};
    // linux succeeds, windows fails: the attempt folds to Failure, an
    // explicit retry returns it to Approved with one audit row.
    let mut s = fresh(policy());
    add(&mut s, 10);
    s.approve(10, "alice".to_string(), Some(1), None, 1000).unwrap();
    assert_eq!(s.schedule(Lane::Auto, 1001), Some(10));
    assert!(s.attempt_built(Lane::Auto, "S1".to_string()));
    assert_eq!(s.results.len(), 2);
    assert!(s.results.iter().all(|r| r.res == BuildStatus::Pending && r.merge_sha == "S1"));
    assert!(s.report_build_result(
        10,
        "linux".to_string(),
        "S1".to_string(),
        BuildStatus::Success,
        "url1".to_string(),
    ));
    assert_eq!(status_of(&s, 10), PullStatus::Testing);
    assert!(s.report_build_result(
        10,
        "windows".to_string(),
        "S1".to_string(),
        BuildStatus::Failure,
        "url2".to_string(),
    ));
    assert_eq!(status_of(&s, 10), PullStatus::Failure);
    assert!(s.auto_attempt.is_none());
    s.retry(10, "bob".to_string(), "retry requested".to_string(), 2000).unwrap();
    assert_eq!(status_of(&s, 10), PullStatus::Approved);
    assert_eq!(s.retry_log.len(), 1);
    assert_eq!(s.retry_log[0].num, 10);
    assert_eq!(s.retry_log[0].src, "bob");
    assert_eq!(s.retry_log[0].time, 2000);
}

#[test]
fn push_invalidates_attempt_and_late_result_is_discarded() {
    // PR #11 enters Testing with S1; a push changes the head before any
    // result arrives: with the status-based exemption the approval is
    // kept, the attempt is gone, and a late result for S1 changes nothing.
    let mut pol = policy();
    pol.status_based_exemption = true;
    let mut s = fresh(pol);
    add(&mut s, 11);
    s.approve(11, "alice".to_string(), Some(2), None, 1000).unwrap();
    assert_eq!(s.schedule(Lane::Auto, 1001), Some(11));
    assert!(s.attempt_built(Lane::Auto, "S1".to_string()));
    assert_eq!(merge_sha_of(&s, 11), Some("S1".to_string()));
    assert!(s.push(11, "h11b".to_string(), "master".to_string(), true));
    assert_eq!(status_of(&s, 11), PullStatus::Approved);
    assert_eq!(merge_sha_of(&s, 11), None);
    assert!(s.auto_attempt.is_none());
    let applied = s.report_build_result(
        11,
        "linux".to_string(),
        "S1".to_string(),
        BuildStatus::Success,
        "url".to_string(),
    );
    assert!(!applied);
    assert_eq!(status_of(&s, 11), PullStatus::Approved);
}

#[test]
fn push_without_exemption_demands_reapproval() {
    let mut s = fresh(policy());
    add(&mut s, 21);
    s.approve(21, "alice".to_string(), None, None, 10).unwrap();
    assert!(s.push(21, "new".to_string(), "master".to_string(), false));
    assert_eq!(status_of(&s, 21), PullStatus::Pending);
    assert!(s.pulls[0].approved_by.is_none());
}

#[test]
fn timeout_without_any_report() {
    // PR #12 enters Testing; no result ever arrives; the supervisor tick
    // past the configured timeout forces TimedOut.
    let mut s = fresh(policy());
    add(&mut s, 12);
    s.approve(12, "alice".to_string(), None, None, 500).unwrap();
    assert_eq!(s.schedule(Lane::Auto, 1000), Some(12));
    assert!(s.attempt_built(Lane::Auto, "S9".to_string()));
    s.tick(1000 + 36000); // exactly at the limit: nothing happens
    assert_eq!(status_of(&s, 12), PullStatus::Testing);
    s.tick(1000 + 36001);
    assert_eq!(status_of(&s, 12), PullStatus::TimedOut);
    assert!(s.auto_attempt.is_none());
}

#[test]
fn scheduler_orders_by_priority_then_approval_time() {
    // A (priority 5, approved at t1) and B (priority 5, approved at
    // t2 > t1): A is granted first.
    let mut s = fresh(policy());
    add(&mut s, 1);
    add(&mut s, 2);
    s.approve(1, "alice".to_string(), Some(5), None, 100).unwrap();
    s.approve(2, "alice".to_string(), Some(5), None, 200).unwrap();
    assert_eq!(s.schedule(Lane::Auto, 300), Some(1));

    // A higher priority outranks an earlier approval.
    let mut s2 = fresh(policy());
    add(&mut s2, 3);
    add(&mut s2, 4);
    s2.approve(3, "alice".to_string(), Some(5), None, 100).unwrap();
    s2.approve(4, "alice".to_string(), Some(9), None, 200).unwrap();
    assert_eq!(s2.schedule(Lane::Auto, 300), Some(4));
}

#[test]
fn gate_blocks_at_and_below_threshold() {
    // closed_priority = 5: priority 5 is never granted, priority 6 is.
    let mut s = fresh(policy());
    add(&mut s, 5);
    s.approve(5, "alice".to_string(), Some(5), None, 100).unwrap();
    s.close_tree(5, "ops".to_string());
    assert_eq!(s.schedule(Lane::Auto, 200), None);
    add(&mut s, 6);
    s.approve(6, "alice".to_string(), Some(6), None, 150).unwrap();
    assert_eq!(s.schedule(Lane::Auto, 200), Some(6));
}

#[test]
fn replayed_callback_is_idempotent() {
    let mut s = fresh(policy());
    add(&mut s, 30);
    s.approve(30, "alice".to_string(), None, None, 10).unwrap();
    assert_eq!(s.schedule(Lane::Auto, 20), Some(30));
    assert!(s.attempt_built(Lane::Auto, "SX".to_string()));
    let deliver = |s: &mut RepoState| {
        s.report_build_result(
            30,
            "linux".to_string(),
            "SX".to_string(),
            BuildStatus::Success,
            "url".to_string(),
        )
    };
    assert!(deliver(&mut s));
    let status_once = status_of(&s, 30);
    let rows_once: Vec<_> =
        s.results.iter().map(|r| (r.num, r.builder.clone(), r.res, r.merge_sha.clone())).collect();
    deliver(&mut s);
    let rows_twice: Vec<_> =
        s.results.iter().map(|r| (r.num, r.builder.clone(), r.res, r.merge_sha.clone())).collect();
    assert_eq!(status_of(&s, 30), status_once);
    assert_eq!(rows_twice, rows_once);
    // Completion is also replay-proof: finish the attempt, then replay.
    assert!(s.report_build_result(
        30,
        "windows".to_string(),
        "SX".to_string(),
        BuildStatus::Success,
        "url".to_string(),
    ));
    assert_eq!(status_of(&s, 30), PullStatus::Success);
    let applied = s.report_build_result(
        30,
        "windows".to_string(),
        "SX".to_string(),
        BuildStatus::Success,
        "url".to_string(),
    );
    assert!(!applied);
    assert_eq!(status_of(&s, 30), PullStatus::Success);
}

#[test]
fn stale_merge_sha_never_changes_status() {
    let mut s = fresh(policy());
    add(&mut s, 31);
    s.approve(31, "alice".to_string(), None, None, 10).unwrap();
    assert_eq!(s.schedule(Lane::Auto, 20), Some(31));
    assert!(s.attempt_built(Lane::Auto, "LIVE".to_string()));
    let applied = s.report_build_result(
        31,
        "linux".to_string(),
        "OLD".to_string(),
        BuildStatus::Failure,
        "url".to_string(),
    );
    assert!(!applied);
    assert_eq!(status_of(&s, 31), PullStatus::Testing);
    assert!(s.results.iter().all(|r| r.res == BuildStatus::Pending));
}

#[test]
fn command_errors_name_the_failing_rule() {
    let mut s = fresh(policy());
    assert_eq!(
        s.approve(99, "alice".to_string(), None, None, 0),
        Err(CommandError::UnknownPull)
    );
    add(&mut s, 40);
    assert_eq!(
        s.approve(40, "mallory".to_string(), None, None, 0),
        Err(CommandError::NotAuthorized)
    );
    assert_eq!(
        s.approve(40, "alice".to_string(), Some(101), None, 0),
        Err(CommandError::PriorityTooHigh)
    );
    assert_eq!(
        s.retry(40, "bob".to_string(), "msg".to_string(), 0),
        Err(CommandError::WrongState)
    );
    assert_eq!(s.reject(40, "bob".to_string()), Err(CommandError::NotAuthorized));
    assert_eq!(s.report_land(40, true), Err(CommandError::WrongState));
}

#[test]
fn delegate_gets_approve_rights_on_that_pull_only() {
    let mut s = fresh(policy());
    add(&mut s, 41);
    add(&mut s, 42);
    s.approve(41, "alice".to_string(), None, Some("carol".to_string()), 0).unwrap();
    s.reject(41, "alice".to_string()).unwrap();
    assert_eq!(status_of(&s, 41), PullStatus::Pending);
    s.approve(41, "carol".to_string(), None, None, 5).unwrap();
    assert_eq!(status_of(&s, 41), PullStatus::Approved);
    assert_eq!(
        s.approve(42, "carol".to_string(), None, None, 5),
        Err(CommandError::NotAuthorized)
    );
}

#[test]
fn approve_without_priority_keeps_the_recorded_one() {
    let mut s = fresh(policy());
    add(&mut s, 43);
    s.approve(43, "alice".to_string(), Some(7), None, 0).unwrap();
    s.approve(43, "alice".to_string(), None, None, 1).unwrap();
    assert_eq!(s.pulls[0].priority, 7);
}

#[test]
fn one_attempt_per_lane_and_lanes_are_independent() {
    let mut s = fresh(policy());
    add(&mut s, 50);
    add(&mut s, 51);
    add(&mut s, 52);
    s.approve(50, "alice".to_string(), None, None, 0).unwrap();
    s.approve(51, "alice".to_string(), None, None, 1).unwrap();
    assert_eq!(s.schedule(Lane::Auto, 10), Some(50));
    // The auto lane is busy: nothing else is granted there.
    assert_eq!(s.schedule(Lane::Auto, 11), None);
    assert_eq!(s.pulls.iter().filter(|p| p.status == PullStatus::Testing).count(), 1);
    // The try lane is independent.
    s.try_request(52, "bob".to_string()).unwrap();
    assert_eq!(s.schedule(Lane::Try, 12), Some(52));
    assert_eq!(status_of(&s, 52), PullStatus::TryTesting);
}

#[test]
fn try_lane_mirrors_outcomes_and_never_merges() {
    let mut s = fresh(policy());
    add(&mut s, 60);
    s.try_request(60, "bob".to_string()).unwrap();
    assert_eq!(status_of(&s, 60), PullStatus::TryRequested);
    assert_eq!(s.schedule(Lane::Try, 10), Some(60));
    assert!(s.attempt_built(Lane::Try, "T1".to_string()));
    assert!(s.report_build_result(
        60,
        "linux".to_string(),
        "T1".to_string(),
        BuildStatus::Success,
        "url".to_string(),
    ));
    assert_eq!(status_of(&s, 60), PullStatus::TrySucceeded);
    assert_eq!(s.report_land(60, true), Err(CommandError::WrongState));
    // A failed try build can be retried back onto the try lane.
    s.retry(60, "bob".to_string(), "msg".to_string(), 20).unwrap_err();
    s.try_request(60, "bob".to_string()).unwrap();
    assert_eq!(s.schedule(Lane::Try, 30), Some(60));
    assert!(s.attempt_built(Lane::Try, "T2".to_string()));
    assert!(s.report_build_result(
        60,
        "linux".to_string(),
        "T2".to_string(),
        BuildStatus::Failure,
        "url".to_string(),
    ));
    assert_eq!(status_of(&s, 60), PullStatus::TryFailed);
    s.retry(60, "bob".to_string(), "again".to_string(), 40).unwrap();
    assert_eq!(status_of(&s, 60), PullStatus::TryRequested);
}

#[test]
fn successful_attempt_lands_or_reports_the_push_failure() {
    let mut s = fresh(policy());
    add(&mut s, 70);
    s.approve(70, "alice".to_string(), None, None, 0).unwrap();
    assert_eq!(s.schedule(Lane::Auto, 1), Some(70));
    assert!(s.attempt_built(Lane::Auto, "SM".to_string()));
    for b in ["linux", "windows"] {
        assert!(s.report_build_result(
            70,
            b.to_string(),
            "SM".to_string(),
            BuildStatus::Success,
            "url".to_string(),
        ));
    }
    assert_eq!(status_of(&s, 70), PullStatus::Success);
    s.report_land(70, true).unwrap();
    assert_eq!(status_of(&s, 70), PullStatus::Merged);

    let mut s2 = fresh(policy());
    add(&mut s2, 71);
    s2.approve(71, "alice".to_string(), None, None, 0).unwrap();
    assert_eq!(s2.schedule(Lane::Auto, 1), Some(71));
    assert!(s2.attempt_built(Lane::Auto, "SN".to_string()));
    for b in ["linux", "windows"] {
        assert!(s2.report_build_result(
            71,
            b.to_string(),
            "SN".to_string(),
            BuildStatus::Success,
            "url".to_string(),
        ));
    }
    s2.report_land(71, false).unwrap();
    assert_eq!(status_of(&s2, 71), PullStatus::Failure);
}

#[test]
fn interrupted_signal_short_circuits_the_attempt() {
    let mut s = fresh(policy());
    add(&mut s, 72);
    s.approve(72, "alice".to_string(), None, None, 0).unwrap();
    assert_eq!(s.schedule(Lane::Auto, 1), Some(72));
    assert!(s.attempt_built(Lane::Auto, "SI".to_string()));
    // One interruption ends the attempt without waiting for windows.
    assert!(s.report_build_result(
        72,
        "linux".to_string(),
        "SI".to_string(),
        BuildStatus::Interrupted,
        "url".to_string(),
    ));
    assert_eq!(status_of(&s, 72), PullStatus::Interrupted);
    assert!(s.auto_attempt.is_none());
}

#[test]
fn conflict_signal_is_terminal_for_the_attempt() {
    let mut s = fresh(policy());
    add(&mut s, 73);
    s.approve(73, "alice".to_string(), None, None, 0).unwrap();
    assert_eq!(s.schedule(Lane::Auto, 1), Some(73));
    assert!(s.attempt_conflict(Lane::Auto));
    assert_eq!(status_of(&s, 73), PullStatus::Conflict);
    assert!(s.auto_attempt.is_none());
    // Conflict requires action; an explicit retry re-queues it.
    s.retry(73, "bob".to_string(), "rebased".to_string(), 9).unwrap();
    assert_eq!(status_of(&s, 73), PullStatus::Approved);
}

#[test]
fn rollup_batch_shares_one_attempt_and_fails_back_to_approved() {
    let mut pol = policy();
    pol.rollup_size = 3;
    let mut s = fresh(pol);
    for n in [80, 81, 82, 83] {
        add(&mut s, n);
        s.approve(n, "alice".to_string(), Some(1), None, n as i64).unwrap();
    }
    for p in s.pulls.iter_mut() {
        p.rollup = 1;
    }
    let batch = s.schedule_rollup(100);
    assert_eq!(batch.len(), 3);
    assert_eq!(batch[0], 80); // the top of the queue leads the batch
    for n in &batch {
        assert_eq!(status_of(&s, *n), PullStatus::Testing);
    }
    assert!(s.attempt_built(Lane::Auto, "SB".to_string()));
    // The batch reports under its first member.
    assert!(s.report_build_result(
        80,
        "linux".to_string(),
        "SB".to_string(),
        BuildStatus::Success,
        "url".to_string(),
    ));
    assert!(s.report_build_result(
        80,
        "windows".to_string(),
        "SB".to_string(),
        BuildStatus::Failure,
        "url".to_string(),
    ));
    // Failure returns every member to Approved for bisection.
    for n in &batch {
        assert_eq!(status_of(&s, *n), PullStatus::Approved);
    }
    assert!(s.auto_attempt.is_none());
}

#[test]
fn tree_row_exists_exactly_while_closed() {
    let mut s = fresh(policy());
    assert!(s.tree_row().is_none());
    s.update_treeclosed(3, "pr 7 broke the build".to_string());
    let row = s.tree_row().unwrap();
    assert_eq!(row.repo, "repo");
    assert_eq!(row.treeclosed, 3);
    assert_eq!(row.treeclosed_src, Some("pr 7 broke the build".to_string()));
    s.open_tree("ops".to_string());
    assert!(s.tree_row().is_none());
}

#[test]
fn prune_keeps_only_entries_inside_the_window() {
    let mut s = fresh(policy());
    add(&mut s, 90);
    s.approve(90, "alice".to_string(), None, None, 0).unwrap();
    assert_eq!(s.schedule(Lane::Auto, 1), Some(90));
    assert!(s.attempt_conflict(Lane::Auto));
    s.retry(90, "bob".to_string(), "first".to_string(), 10).unwrap();
    assert_eq!(s.schedule(Lane::Auto, 11), Some(90));
    assert!(s.attempt_conflict(Lane::Auto));
    s.retry(90, "bob".to_string(), "second".to_string(), 100).unwrap();
    assert_eq!(s.retry_log.len(), 2);
    s.prune_retry_log(50);
    assert_eq!(s.retry_log.len(), 1);
    assert_eq!(s.retry_log[0].msg, "second");
}

#[test]
fn mergeable_cache_is_an_upsertable_hint() {
    let mut s = fresh(policy());
    assert_eq!(s.is_mergeable(7), None);
    s.set_mergeable(7, true);
    assert_eq!(s.is_mergeable(7), Some(true));
    s.set_mergeable(7, false);
    assert_eq!(s.is_mergeable(7), Some(false));
    assert_eq!(s.mergeable.len(), 1);
}

#[test]
fn observe_is_idempotent_per_number() {
    let mut s = fresh(policy());
    add(&mut s, 95);
    let created = s.observe_pull(
        95,
        "other".to_string(),
        "b".to_string(),
        "master".to_string(),
        None,
        None,
    );
    assert!(!created);
    assert_eq!(s.pulls.len(), 1);
    assert_eq!(status_of(&s, 95), PullStatus::Pending);
}

#[test]
fn auth_levels_come_from_the_policy() {
    let pol = policy();
    assert_eq!(auth_level(&pol, "alice"), AuthLevel::Reviewer);
    assert_eq!(auth_level(&pol, "bob"), AuthLevel::TryUser);
    assert_eq!(auth_level(&pol, "eve"), AuthLevel::Guest);
}
