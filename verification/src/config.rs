//! The configuration model: one snapshot per instance, with one [`Repo`]
//! section per managed repository. Reading and deserializing the file is
//! the caller's business; the engine consumes these plain values.

use vstd::prelude::*;

use crate::engine::RepoPolicy;
use crate::str_eq;

verus! {

/// Default retention window of the retry log: a negative interval of time
/// in the form the store understands.
pub fn retry_log_expire() -> (r: String)
    ensures
        r@ == "-42 days"@,
{
    String::from_str("-42 days")
}

/// Default database file.
pub fn db_file() -> (r: String)
    ensures
        r@ == "main.db"@,
{
    String::from_str("main.db")
}

/// Default directory for the local clones of the git repositories.
pub fn cache_dir() -> (r: String)
    ensures
        r@ == "cache"@,
{
    String::from_str("cache")
}

/// Default maximum test duration: ten hours, in seconds.
pub fn ten_hours() -> (r: i32)
    ensures
        r == 36000,
{
    10 * 60 * 60
}

/// Default flag value for settings that are on unless switched off.
pub fn default_true() -> (r: bool)
    ensures
        r,
{
    true
}

/// Default auto-lane branch name.
pub fn auto() -> (r: String)
    ensures
        r@ == "auto"@,
{
    String::from_str("auto")
}

/// Default try-lane branch name.
pub fn try_branch() -> (r: String)
    ensures
        r@ == "try"@,
{
    String::from_str("try")
}

/// The whole configuration of one instance.
pub struct Config {
    /// Priority values above this are refused.
    pub max_priority: i32,
    /// How long to keep the retry log; a negative interval of time in the
    /// form the store understands.
    pub retry_log_expire: String,
    pub db: Database,
    pub web: Web,
    pub git: Git,
    pub github: Github,
    /// One section per managed repository.
    pub repo: Vec<RepoEntry>,
}

/// One named repository section.
pub struct RepoEntry {
    /// The label the section is stored under.
    pub label: String,
    pub config: Repo,
}

/// The database section.
pub struct Database {
    /// Path of the database file.
    pub file: String,
}

impl Default for Database {
    /// The default database file.
    fn default() -> (r: Database)
        ensures
            r.file@ == "main.db"@,
    {
        Database { file: db_file() }
    }
}

/// The web front end section.
pub struct Web {
    /// Address the instance listens on, in dotted-quad form.
    pub host: String,
    /// Port the instance listens on.
    pub port: i32,
    /// Fetch the state of all open pull requests on startup.
    pub sync_on_start: bool,
    pub base_url: Option<String>,
    pub canonical_url: Option<String>,
    pub remove_path_prefixes: Vec<String>,
    pub announcement: Option<String>,
}

/// The git section.
pub struct Git {
    /// Use the local git command; required by some advanced features.
    pub local_git: bool,
    /// Directory storing the local clones of the git repositories.
    pub cache_dir: String,
    /// Private key, needed only when the local git command is used.
    pub ssh_key: Option<String>,
    /// Name for commits; extracted from the hosting account when absent.
    pub user: Option<String>,
    /// Email for commits; extracted from the hosting account when absent.
    pub email: Option<String>,
}

/// Credentials for the hosting service.
pub struct Github {
    /// A personal access token.
    pub access_token: String,
    /// An oauth application id for this instance.
    pub app_client_id: String,
    /// An oauth application secret for this instance.
    pub app_client_secret: String,
}

/// What the aggregator is expected to hear from, as one exhaustive tagged
/// variant per kind of expectation.
pub enum CheckPolicy {
    /// Named commit statuses that must pass.
    Statuses(Vec<String>),
    /// Named check runs that must pass.
    Checks(Vec<String>),
    /// Named builders of a build coordinator that must pass.
    Builders(Vec<String>),
}

/// One managed repository's section.
pub struct Repo {
    /// Repository owner on the hosting service.
    pub owner: String,
    /// Repository name on the hosting service.
    pub name: String,
    /// Also honor the upstream team's permission list.
    pub rust_team: bool,
    /// Who can approve pull requests.
    pub reviewers: Vec<String>,
    /// Alternatively, allow any collaborator of the repository.
    pub auth_collaborators: bool,
    /// Who has try rights (try, retry, force, clean, prioritization).
    pub try_users: Vec<String>,
    /// Keep the commit history linear; requires the local git command.
    pub linear: bool,
    /// Auto-squash commits; requires the local git command.
    pub autosquash: bool,
    /// When the pull request already carries the same passing statuses the
    /// auto branch expects, push directly when safe to do so.
    pub status_based_exemption: bool,
    /// Maximum test duration for this repository, in seconds.
    pub timeout: i32,
    /// Largest rollup batch the scheduler may fold; one or less disables
    /// batching.
    pub rollup_size: i32,
    /// Branch names of the two lanes.
    pub branch: RepoBranch,
    /// Run the builds in a separate fork while approving and merging in
    /// the main repository.
    pub test_on_fork: Option<TestOnFork>,
    pub github: RepoGithub,
    pub labels: Labels,
    /// What the aggregator is expected to hear from.
    pub checks: CheckPolicy,
    pub buildbot: Option<BuildBot>,
}

/// The label moves attached to each lifecycle event.
pub struct Labels {
    /// After an approval was recorded.
    pub approved: Option<Label>,
    /// After an approval was rejected.
    pub rejected: Option<Label>,
    /// A merge conflict was detected.
    pub conflict: Option<Label>,
    /// The test succeeded.
    pub succeed: Option<Label>,
    /// The test failed.
    pub failed: Option<Label>,
    /// The test was exempted.
    pub exempted: Option<Label>,
    /// The test timed out.
    pub timed_out: Option<Label>,
    /// The test was interrupted.
    pub interrupted: Option<Label>,
    /// After a try request was recorded.
    pub try_: Option<Label>,
    /// The try build succeeded.
    pub try_succeed: Option<Label>,
    /// The try build failed.
    pub try_failed: Option<Label>,
    /// A commit was pushed after an approval or a try request.
    pub pushed: Option<Label>,
}

impl Default for Labels {
    /// No label moves at all.
    fn default() -> (r: Labels)
        ensures
            r.approved is None && r.rejected is None && r.conflict is None && r.succeed is None
                && r.failed is None && r.exempted is None && r.timed_out is None && r.interrupted
                is None && r.try_ is None && r.try_succeed is None && r.try_failed is None
                && r.pushed is None,
    {
        Labels {
            approved: None,
            rejected: None,
            conflict: None,
            succeed: None,
            failed: None,
            exempted: None,
            timed_out: None,
            interrupted: None,
            try_: None,
            try_succeed: None,
            try_failed: None,
            pushed: None,
        }
    }
}

/// One label move: what to add, what to remove, and when to stand back.
pub struct Label {
    /// Labels to add.
    pub add: Vec<String>,
    /// Labels to remove.
    pub remove: Vec<String>,
    /// Avoid relabeling when any of these labels is present.
    pub unless: Vec<String>,
}

impl Default for Label {
    /// An empty label move.
    fn default() -> (r: Label)
        ensures
            r.add.deep_view() == Seq::<Seq<char>>::empty(),
            r.remove.deep_view() == Seq::<Seq<char>>::empty(),
            r.unless.deep_view() == Seq::<Seq<char>>::empty(),
    {
        let r = Label { add: Vec::new(), remove: Vec::new(), unless: Vec::new() };
        proof {
            assert(r.add.deep_view() =~= Seq::<Seq<char>>::empty());
            assert(r.remove.deep_view() =~= Seq::<Seq<char>>::empty());
            assert(r.unless.deep_view() =~= Seq::<Seq<char>>::empty());
        }
        r
    }
}

/// A build coordinator expected to report per-builder results.
pub struct BuildBot {
    pub url: String,
    pub secret: String,
    /// Builders expected on the auto lane.
    pub builders: Vec<String>,
    /// Builders expected on the try lane.
    pub try_builders: Vec<String>,
    pub username: String,
    pub password: String,
    /// Whether the coordinator takes part in try builds.
    pub try_: bool,
}

/// Run the builds in a separate fork of the repository while approving
/// and merging in the main one.
pub struct TestOnFork {
    pub owner: String,
    pub name: String,
}

/// The webhook secret of one repository.
pub struct RepoGithub {
    /// Arbitrary secret the webhook is signed with.
    pub secret: String,
}

/// Branch names of the two lanes.
pub struct RepoBranch {
    /// Auto-lane branch name.
    pub auto: String,
    /// Try-lane branch name.
    pub try_: String,
}

impl Default for RepoBranch {
    /// The conventional branch names of the two lanes.
    fn default() -> (r: RepoBranch)
        ensures
            r.auto@ == "auto"@,
            r.try_@ == "try"@,
    {
        RepoBranch { auto: auto(), try_: try_branch() }
    }
}

/// A fresh vector holding the same strings.
fn clone_strings(v: &Vec<String>) -> (r: Vec<String>)
    ensures
        r.deep_view() == v.deep_view(),
{
    let mut r: Vec<String> = Vec::new();
    let mut i: usize = 0;
    while i < v.len()
        invariant
            i <= v.len(),
            r.deep_view() == v.deep_view().subrange(0, i as int),
        decreases v.len() - i,
    {
        let ghost pre = r.deep_view();
        r.push(v[i].clone());
        proof {
            assert(r.deep_view() =~= pre.push(v.deep_view()[i as int]));
            assert(r.deep_view() =~= v.deep_view().subrange(0, i as int + 1));
        }
        i = i + 1;
    }
    proof {
        assert(v.deep_view().subrange(0, v.deep_view().len() as int) =~= v.deep_view());
    }
    r
}

impl Repo {
    /// The policy snapshot the engine reads for this repository: its
    /// approval and try lists, its timeout and batching cap, and the
    /// builder sets of the two lanes (empty without a build coordinator).
    pub fn policy(&self, max_priority: i32) -> (r: RepoPolicy)
        ensures
            r@.max_priority == max_priority as int,
            r@.timeout == self.timeout as int,
            r@.rollup_size == self.rollup_size as int,
            r@.reviewers == self.reviewers.deep_view(),
            r@.try_users == self.try_users.deep_view(),
            r@.status_based_exemption == self.status_based_exemption,
            match self.buildbot {
                Some(b) => r@.builders == b.builders.deep_view() && r@.try_builders
                    == b.try_builders.deep_view(),
                None => r@.builders == Seq::<Seq<char>>::empty() && r@.try_builders == Seq::<
                    Seq<char>,
                >::empty(),
            },
    {
        let (builders, try_builders) = match &self.buildbot {
            Some(b) => (clone_strings(&b.builders), clone_strings(&b.try_builders)),
            None => {
                let r = (Vec::new(), Vec::new());
                proof {
                    assert(r.0.deep_view() =~= Seq::<Seq<char>>::empty());
                    assert(r.1.deep_view() =~= Seq::<Seq<char>>::empty());
                }
                r
            },
        };
        RepoPolicy {
            max_priority,
            timeout: self.timeout,
            rollup_size: self.rollup_size,
            reviewers: clone_strings(&self.reviewers),
            try_users: clone_strings(&self.try_users),
            builders,
            try_builders,
            status_based_exemption: self.status_based_exemption,
        }
    }

    /// The repository section stored under this label, if any: the first
    /// entry whose label matches.
    pub fn lookup<'a>(entries: &'a Vec<RepoEntry>, label: &str) -> (r: Option<&'a Repo>)
        ensures
            match r {
                Some(c) => exists|i: int|
                    0 <= i < entries.len() && (#[trigger] entries[i].label@) == label@ && *c
                        == entries[i].config,
                None => forall|i: int|
                    0 <= i < entries.len() ==> (#[trigger] entries[i].label@) != label@,
            },
    {
        let mut i: usize = 0;
        while i < entries.len()
            invariant
                i <= entries.len(),
                forall|j: int| 0 <= j < i ==> (#[trigger] entries[j].label@) != label@,
            decreases entries.len() - i,
        {
            if str_eq(entries[i].label.as_str(), label) {
                proof {
                    assert(entries@[i as int].label@ == label@);
                }
                return Some(&entries[i].config);
            }
            i = i + 1;
        }
        None
    }
}

} // verus!
