use homu::cli::Cli;
use homu::config::{
    cache_dir, db_file, default_true, retry_log_expire, ten_hours, try_branch, BuildBot,
    CheckPolicy, Database, Label, Labels, Repo, RepoBranch, RepoEntry, RepoGithub,
};
use homu::{interrupted_message, status_to_priority, DEFAULT_TEST_TIMEOUT};

fn sample_repo(buildbot: Option<BuildBot>) -> Repo {
    Repo {
        owner: "owner".to_string(),
        name: "name".to_string(),
        rust_team: false,
        reviewers: vec!["alice".to_string(), "dana".to_string()],
        auth_collaborators: false,
        try_users: vec!["bob".to_string()],
        linear: false,
        autosquash: false,
        status_based_exemption: false,
        timeout: ten_hours(),
        rollup_size: 1,
        branch: RepoBranch::default(),
        test_on_fork: None,
        github: RepoGithub { secret: "hunter2".to_string() },
        labels: Labels::default(),
        checks: CheckPolicy::Statuses(vec!["continuous-integration".to_string()]),
        buildbot,
    }
}

#[test]
fn defaults_match_the_documented_values() {
    assert_eq!(retry_log_expire(), "-42 days");
    assert_eq!(db_file(), "main.db");
    assert_eq!(cache_dir(), "cache");
    assert_eq!(ten_hours(), 36000);
    assert_eq!(ten_hours(), DEFAULT_TEST_TIMEOUT);
    assert!(default_true());
    assert_eq!(homu::config::auto(), "auto");
    assert_eq!(try_branch(), "try");
    let b = RepoBranch::default();
    assert_eq!(b.auto, "auto");
    assert_eq!(b.try_, "try");
    assert_eq!(Database::default().file, "main.db");
    let l = Label::default();
    assert!(l.add.is_empty() && l.remove.is_empty() && l.unless.is_empty());
    assert!(Labels::default().approved.is_none());
    let c = Cli::default();
    assert!(!c.verbose && c.config.is_none());
}

#[test]
fn policy_snapshot_carries_the_builder_sets() {
    let bb = BuildBot {
        url: "http://coordinator".to_string(),
        secret: "s".to_string(),
        builders: vec!["linux".to_string(), "windows".to_string()],
        try_builders: vec!["linux".to_string()],
        username: "u".to_string(),
        password: "p".to_string(),
        try_: default_true(),
    };
    let repo = sample_repo(Some(bb));
    let pol = repo.policy(3);
    assert_eq!(pol.max_priority, 3);
    assert_eq!(pol.timeout, 36000);
    assert_eq!(pol.rollup_size, 1);
    assert_eq!(pol.reviewers, vec!["alice".to_string(), "dana".to_string()]);
    assert_eq!(pol.try_users, vec!["bob".to_string()]);
    assert_eq!(pol.builders, vec!["linux".to_string(), "windows".to_string()]);
    assert_eq!(pol.try_builders, vec!["linux".to_string()]);

    let bare = sample_repo(None).policy(3);
    assert!(bare.builders.is_empty());
    assert!(bare.try_builders.is_empty());
}

#[test]
fn repo_sections_are_looked_up_by_label() {
    let entries = vec![
        RepoEntry { label: "one".to_string(), config: sample_repo(None) },
        RepoEntry { label: "two".to_string(), config: sample_repo(None) },
    ];
    assert!(Repo::lookup(&entries, "two").is_some());
    assert!(Repo::lookup(&entries, "three").is_none());
}

#[test]
fn status_ranks_are_exact() {
    assert_eq!(status_to_priority("pending"), 1);
    assert_eq!(status_to_priority("approved"), 2);
    assert_eq!(status_to_priority(""), 3);
    assert_eq!(status_to_priority("error"), 4);
    assert_eq!(status_to_priority("failure"), 5);
    assert_eq!(status_to_priority("success"), 6);
    assert_eq!(status_to_priority("anything else"), -1);
}

#[test]
fn interruption_notice_names_its_source() {
    assert_eq!(interrupted_message("retry of #7"), "Interrupted by Homu (retry of #7)");
}

#[test]
fn placeholders_are_scanned_and_substituted() {
    let text = b"token = \"${HOMU_TOKEN}\" and ${MISSING} stays".to_vec();
    let names = homu::template::placeholder_names(&text);
    assert_eq!(names, vec![b"HOMU_TOKEN".to_vec(), b"MISSING".to_vec()]);
    let vars = vec![(b"HOMU_TOKEN".to_vec(), b"s3cr3t".to_vec())];
    let out = homu::template::substitute_placeholders(&text, &vars);
    assert_eq!(out, b"token = \"s3cr3t\" and ${MISSING} stays".to_vec());
}

#[test]
fn placeholder_grammar_needs_braced_nonempty_names() {
    let text = b"a $X ${} ${1} ${a1} ${ok}".to_vec();
    let names = homu::template::placeholder_names(&text);
    assert_eq!(names, vec![b"ok".to_vec()]);
    let out = homu::template::substitute_placeholders(&text, &vec![]);
    assert_eq!(out, text);
}
