//! The entities the coordinator persists, and their mathematical models.
//!
//! Each executable type has a ghost model over `Seq`, `int` and `Option`;
//! every contract in the engine is stated over these models.

use vstd::prelude::*;

verus! {

/// Lifecycle states of a pull request. The auto lane runs
/// `Pending -> Approved -> Testing -> {Success, Failure, TimedOut,
/// Interrupted, Conflict} -> Merged` (or back to `Approved` on retry);
/// the try lane runs `TryRequested -> TryTesting -> {TrySucceeded,
/// TryFailed}` and never reaches `Merged`.
#[derive(Clone, Copy, Debug, PartialEq, Eq, Structural)]
pub enum PullStatus {
    Pending,
    Approved,
    Testing,
    Success,
    Failure,
    TimedOut,
    Interrupted,
    Conflict,
    Merged,
    TryRequested,
    TryTesting,
    TrySucceeded,
    TryFailed,
}

/// The per-builder verdict recorded for an integration attempt.
#[derive(Clone, Copy, Debug, PartialEq, Eq, Structural)]
pub enum BuildStatus {
    Pending,
    Success,
    Failure,
    Interrupted,
}

/// The two independent integration lanes of a repository.
#[derive(Clone, Copy, Debug, PartialEq, Eq, Structural)]
pub enum Lane {
    Auto,
    Try,
}

/// Privilege of an actor, resolved from the repository policy. The top
/// level may do everything the try level may, and more.
#[derive(Clone, Copy, Debug, PartialEq, Eq, Structural)]
pub enum AuthLevel {
    Guest,
    TryUser,
    Reviewer,
}

/// Why a command was rejected; every rejection names the rule that failed.
#[derive(Clone, Copy, Debug, PartialEq, Eq, Structural)]
pub enum CommandError {
    /// No pull request with the given number is on record.
    UnknownPull,
    /// The actor lacks the privilege the command needs.
    NotAuthorized,
    /// The requested priority exceeds the repository maximum.
    PriorityTooHigh,
    /// The pull request is not in a state the command applies to.
    WrongState,
}

/// One pull request under management, keyed by number within its repository.
pub struct Pull {
    pub repo: String,
    pub num: i32,
    pub status: PullStatus,
    /// The synthetic integration commit of the outstanding or most recently
    /// completed attempt; `None` invalidates any outstanding attempt.
    pub merge_sha: Option<String>,
    pub body: Option<String>,
    pub head_sha: Option<String>,
    pub head_ref: Option<String>,
    pub base_ref: Option<String>,
    pub assignee: Option<String>,
    pub approved_by: Option<String>,
    pub priority: i32,
    pub try_: bool,
    /// Batch-eligibility tier; positive means the scheduler may fold this
    /// pull request into a rollup attempt.
    pub rollup: i32,
    pub squash: bool,
    /// A user granted approve rights on this pull request only.
    pub delegate: Option<String>,
    /// When the current approval was granted; ties in priority are served
    /// first-in first-out by this instant.
    pub approved_at: i64,
}

/// Ghost model of a [`Pull`].
#[verifier::ext_equal]
pub ghost struct PullModel {
    pub repo: Seq<char>,
    pub num: int,
    pub status: PullStatus,
    pub merge_sha: Option<Seq<char>>,
    pub body: Option<Seq<char>>,
    pub head_sha: Option<Seq<char>>,
    pub head_ref: Option<Seq<char>>,
    pub base_ref: Option<Seq<char>>,
    pub assignee: Option<Seq<char>>,
    pub approved_by: Option<Seq<char>>,
    pub priority: int,
    pub try_: bool,
    pub rollup: int,
    pub squash: bool,
    pub delegate: Option<Seq<char>>,
    pub approved_at: int,
}

impl View for Pull {
    type V = PullModel;

    open spec fn view(&self) -> PullModel {
        PullModel {
            repo: self.repo@,
            num: self.num as int,
            status: self.status,
            merge_sha: self.merge_sha.deep_view(),
            body: self.body.deep_view(),
            head_sha: self.head_sha.deep_view(),
            head_ref: self.head_ref.deep_view(),
            base_ref: self.base_ref.deep_view(),
            assignee: self.assignee.deep_view(),
            approved_by: self.approved_by.deep_view(),
            priority: self.priority as int,
            try_: self.try_,
            rollup: self.rollup as int,
            squash: self.squash,
            delegate: self.delegate.deep_view(),
            approved_at: self.approved_at as int,
        }
    }
}

impl DeepView for Pull {
    type V = PullModel;

    open spec fn deep_view(&self) -> PullModel {
        self.view()
    }
}

/// One builder's report for one integration attempt of one pull request,
/// keyed by (number, builder). A row is meaningful only while its
/// `merge_sha` matches the pull request's current one; stale rows are
/// retained for audit and ignored by the aggregator.
pub struct BuildRes {
    pub repo: String,
    pub num: i32,
    pub builder: String,
    pub res: BuildStatus,
    /// Evidence link reported by the builder.
    pub url: String,
    pub merge_sha: String,
}

/// Ghost model of a [`BuildRes`].
#[verifier::ext_equal]
pub ghost struct BuildResModel {
    pub repo: Seq<char>,
    pub num: int,
    pub builder: Seq<char>,
    pub res: BuildStatus,
    pub url: Seq<char>,
    pub merge_sha: Seq<char>,
}

impl View for BuildRes {
    type V = BuildResModel;

    open spec fn view(&self) -> BuildResModel {
        BuildResModel {
            repo: self.repo@,
            num: self.num as int,
            builder: self.builder@,
            res: self.res,
            url: self.url@,
            merge_sha: self.merge_sha@,
        }
    }
}

impl DeepView for BuildRes {
    type V = BuildResModel;

    open spec fn deep_view(&self) -> BuildResModel {
        self.view()
    }
}

/// Cached result of the expensive conflict check against the target branch.
/// A hint only: the actual merge attempt is authoritative.
pub struct Mergeable {
    pub repo: String,
    pub num: i32,
    pub mergeable: bool,
}

/// Ghost model of a [`Mergeable`].
#[verifier::ext_equal]
pub ghost struct MergeableModel {
    pub repo: Seq<char>,
    pub num: int,
    pub mergeable: bool,
}

impl View for Mergeable {
    type V = MergeableModel;

    open spec fn view(&self) -> MergeableModel {
        MergeableModel { repo: self.repo@, num: self.num as int, mergeable: self.mergeable }
    }
}

impl DeepView for Mergeable {
    type V = MergeableModel;

    open spec fn deep_view(&self) -> MergeableModel {
        self.view()
    }
}

/// The durable row of a repository's tree-close gate: present exactly while
/// the tree is closed.
pub struct Repo {
    pub repo: String,
    pub treeclosed: i32,
    pub treeclosed_src: Option<String>,
}

/// Ghost model of a [`Repo`] row.
#[verifier::ext_equal]
pub ghost struct RepoModel {
    pub repo: Seq<char>,
    pub treeclosed: int,
    pub treeclosed_src: Option<Seq<char>>,
}

impl View for Repo {
    type V = RepoModel;

    open spec fn view(&self) -> RepoModel {
        RepoModel {
            repo: self.repo@,
            treeclosed: self.treeclosed as int,
            treeclosed_src: self.treeclosed_src.deep_view(),
        }
    }
}

impl DeepView for Repo {
    type V = RepoModel;

    open spec fn deep_view(&self) -> RepoModel {
        self.view()
    }
}

/// One entry of the append-only retry audit trail. Never updated; only
/// appended, and pruned once older than the retention window.
pub struct RetryLog {
    pub repo: String,
    pub num: i32,
    /// Seconds since the epoch at which the retry was recorded.
    pub time: i64,
    /// Who or what triggered the retry.
    pub src: String,
    pub msg: String,
}

/// Ghost model of a [`RetryLog`] entry.
#[verifier::ext_equal]
pub ghost struct RetryLogModel {
    pub repo: Seq<char>,
    pub num: int,
    pub time: int,
    pub src: Seq<char>,
    pub msg: Seq<char>,
}

impl View for RetryLog {
    type V = RetryLogModel;

    open spec fn view(&self) -> RetryLogModel {
        RetryLogModel {
            repo: self.repo@,
            num: self.num as int,
            time: self.time as int,
            src: self.src@,
            msg: self.msg@,
        }
    }
}

impl DeepView for RetryLog {
    type V = RetryLogModel;

    open spec fn deep_view(&self) -> RetryLogModel {
        self.view()
    }
}

} // verus!
