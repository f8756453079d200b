//! The per-repository coordination engine.
//!
//! A [`RepoState`] value is the authoritative state of one repository: its
//! pull requests, build results, tree-close gate, retry audit trail, and the
//! at-most-one integration attempt per lane. Every transition is a method
//! with a contract over the ghost [`StateModel`]; callers persist the state
//! after each transition and replay it after a restart.

use vstd::prelude::*;

use crate::models::AuthLevel;
use crate::models::BuildRes;
use crate::models::BuildResModel;
use crate::models::BuildStatus;
use crate::models::CommandError;
use crate::models::Lane;
use crate::models::Mergeable;
use crate::models::MergeableModel;
use crate::models::Pull;
use crate::models::PullModel;
use crate::models::PullStatus;
use crate::models::Repo;
use crate::models::RetryLog;
use crate::models::RetryLogModel;
use crate::str_eq;

verus! {

/// The policy snapshot of one repository, read-only to the engine.
pub struct RepoPolicy {
    /// Priority values above this are refused.
    pub max_priority: i32,
    /// Maximum seconds an attempt may stay in flight before it times out.
    pub timeout: i32,
    /// Largest rollup batch the scheduler may fold; one or less disables
    /// batching.
    pub rollup_size: i32,
    /// Who can approve pull requests.
    pub reviewers: Vec<String>,
    /// Who has try rights (try, retry, prioritization).
    pub try_users: Vec<String>,
    /// Builders expected to report on an auto-lane attempt.
    pub builders: Vec<String>,
    /// Builders expected to report on a try-lane attempt.
    pub try_builders: Vec<String>,
    /// Keep an approval across a push when the new head already carries an
    /// equivalent passing status.
    pub status_based_exemption: bool,
}

/// Ghost model of a [`RepoPolicy`].
#[verifier::ext_equal]
pub ghost struct PolicyModel {
    pub max_priority: int,
    pub timeout: int,
    pub rollup_size: int,
    pub reviewers: Seq<Seq<char>>,
    pub try_users: Seq<Seq<char>>,
    pub builders: Seq<Seq<char>>,
    pub try_builders: Seq<Seq<char>>,
    pub status_based_exemption: bool,
}

impl View for RepoPolicy {
    type V = PolicyModel;

    open spec fn view(&self) -> PolicyModel {
        PolicyModel {
            max_priority: self.max_priority as int,
            timeout: self.timeout as int,
            rollup_size: self.rollup_size as int,
            reviewers: self.reviewers.deep_view(),
            try_users: self.try_users.deep_view(),
            builders: self.builders.deep_view(),
            try_builders: self.try_builders.deep_view(),
            status_based_exemption: self.status_based_exemption,
        }
    }
}

/// One in-flight integration attempt of a lane: the member pull requests,
/// the synthetic commit once the integration branch has been constructed,
/// and when the attempt entered testing.
pub struct Attempt {
    pub nums: Vec<i32>,
    pub merge_sha: Option<String>,
    pub started_at: i64,
}

/// Ghost model of an [`Attempt`].
#[verifier::ext_equal]
pub ghost struct AttemptModel {
    pub nums: Seq<int>,
    pub merge_sha: Option<Seq<char>>,
    pub started_at: int,
}

impl View for Attempt {
    type V = AttemptModel;

    open spec fn view(&self) -> AttemptModel {
        AttemptModel {
            nums: Seq::new(self.nums@.len(), |i: int| self.nums@[i] as int),
            merge_sha: self.merge_sha.deep_view(),
            started_at: self.started_at as int,
        }
    }
}

impl DeepView for Attempt {
    type V = AttemptModel;

    open spec fn deep_view(&self) -> AttemptModel {
        self.view()
    }
}

/// The authoritative state of one repository.
pub struct RepoState {
    /// The repository label all rows of this state belong to.
    pub repo: String,
    pub policy: RepoPolicy,
    pub pulls: Vec<Pull>,
    pub results: Vec<BuildRes>,
    pub mergeable: Vec<Mergeable>,
    pub retry_log: Vec<RetryLog>,
    /// Tree-close gate: positive blocks new attempts at or below this
    /// priority; non-positive means the tree is open.
    pub treeclosed: i32,
    /// Which pull request or command closed the tree.
    pub treeclosed_src: Option<String>,
    pub auto_attempt: Option<Attempt>,
    pub try_attempt: Option<Attempt>,
}

/// Ghost model of a [`RepoState`].
#[verifier::ext_equal]
pub ghost struct StateModel {
    pub repo: Seq<char>,
    pub policy: PolicyModel,
    pub pulls: Seq<PullModel>,
    pub results: Seq<BuildResModel>,
    pub mergeable: Seq<MergeableModel>,
    pub retry_log: Seq<RetryLogModel>,
    pub treeclosed: int,
    pub treeclosed_src: Option<Seq<char>>,
    pub auto_attempt: Option<AttemptModel>,
    pub try_attempt: Option<AttemptModel>,
}

impl View for RepoState {
    type V = StateModel;

    open spec fn view(&self) -> StateModel {
        StateModel {
            repo: self.repo@,
            policy: self.policy@,
            pulls: self.pulls.deep_view(),
            results: self.results.deep_view(),
            mergeable: self.mergeable.deep_view(),
            retry_log: self.retry_log.deep_view(),
            treeclosed: self.treeclosed as int,
            treeclosed_src: self.treeclosed_src.deep_view(),
            auto_attempt: self.auto_attempt.deep_view(),
            try_attempt: self.try_attempt.deep_view(),
        }
    }
}

/// Whether a sequence of strings contains the given string.
pub open spec fn seq_contains_str(s: Seq<Seq<char>>, x: Seq<char>) -> bool {
    exists|i: int| 0 <= i < s.len() && s[i] == x
}

/// Whether all pull numbers are distinct.
pub open spec fn pulls_unique(pulls: Seq<PullModel>) -> bool {
    forall|i: int, j: int|
        0 <= i < pulls.len() && 0 <= j < pulls.len() && i != j ==> pulls[i].num != pulls[j].num
}

/// Whether all (number, builder) result keys are distinct.
pub open spec fn results_unique(rs: Seq<BuildResModel>) -> bool {
    forall|i: int, j: int|
        0 <= i < rs.len() && 0 <= j < rs.len() && i != j ==> !(rs[i].num == rs[j].num
            && rs[i].builder == rs[j].builder)
}

/// Whether all mergeability-cache keys are distinct.
pub open spec fn mergeable_unique(ms: Seq<MergeableModel>) -> bool {
    forall|i: int, j: int|
        0 <= i < ms.len() && 0 <= j < ms.len() && i != j ==> ms[i].num != ms[j].num
}

/// Whether a pull request with this number is on record.
pub open spec fn has_pull(m: StateModel, num: int) -> bool {
    exists|i: int| 0 <= i < m.pulls.len() && m.pulls[i].num == num
}

/// The index of the pull request with this number; meaningful when
/// [`has_pull`] holds and the numbers are unique.
pub open spec fn pull_index(m: StateModel, num: int) -> int {
    choose|i: int| 0 <= i < m.pulls.len() && m.pulls[i].num == num
}

/// The pull request with this number.
pub open spec fn pull_of(m: StateModel, num: int) -> PullModel {
    m.pulls[pull_index(m, num)]
}

/// The attempt in flight on the given lane, if any.
pub open spec fn lane_attempt(m: StateModel, lane: Lane) -> Option<AttemptModel> {
    if lane == Lane::Auto {
        m.auto_attempt
    } else {
        m.try_attempt
    }
}

/// The in-flight status a lane's members carry.
pub open spec fn testing_status(lane: Lane) -> PullStatus {
    if lane == Lane::Auto {
        PullStatus::Testing
    } else {
        PullStatus::TryTesting
    }
}

/// The other lane.
pub open spec fn other_lane(lane: Lane) -> Lane {
    if lane == Lane::Auto {
        Lane::Try
    } else {
        Lane::Auto
    }
}

/// The largest batch the policy lets the auto-lane scheduler fold.
pub open spec fn max_batch(p: PolicyModel) -> int {
    if p.rollup_size < 1 {
        1
    } else {
        p.rollup_size
    }
}

/// The lane invariant: the pull requests whose status is the lane's
/// in-flight status are exactly the members of the lane's attempt, the
/// members share the attempt's synthetic commit, and a try attempt is
/// always a single pull request.
pub open spec fn attempt_ok(m: StateModel, lane: Lane) -> bool {
    match lane_attempt(m, lane) {
        Some(a) => {
            &&& 1 <= a.nums.len()
            &&& (lane == Lane::Try ==> a.nums.len() == 1)
            &&& (lane == Lane::Auto ==> a.nums.len() <= max_batch(m.policy))
            &&& a.started_at >= 0
            &&& forall|i: int, j: int|
                0 <= i < a.nums.len() && 0 <= j < a.nums.len() && i != j ==> a.nums[i]
                    != a.nums[j]
            &&& forall|i: int| 0 <= i < a.nums.len() ==> has_pull(m, #[trigger] a.nums[i])
            &&& forall|k: int|
                0 <= k < m.pulls.len() ==> ((#[trigger] m.pulls[k]).status == testing_status(
                    lane,
                ) <==> a.nums.contains(m.pulls[k].num))
            &&& forall|k: int|
                0 <= k < m.pulls.len() && a.nums.contains((#[trigger] m.pulls[k]).num)
                    ==> m.pulls[k].merge_sha == a.merge_sha
        },
        None => forall|k: int|
            0 <= k < m.pulls.len() ==> (#[trigger] m.pulls[k]).status != testing_status(lane),
    }
}

/// The engine's global invariant: unique keys in every relation and the
/// lane invariant on both lanes. Every transition preserves it.
pub open spec fn inv(m: StateModel) -> bool {
    &&& pulls_unique(m.pulls)
    &&& results_unique(m.results)
    &&& mergeable_unique(m.mergeable)
    &&& attempt_ok(m, Lane::Auto)
    &&& attempt_ok(m, Lane::Try)
}

/// Whether the actor is on the policy's approval list.
pub open spec fn is_reviewer(p: PolicyModel, actor: Seq<char>) -> bool {
    seq_contains_str(p.reviewers, actor)
}

/// Whether the policy grants this actor try rights.
pub open spec fn is_try_user(p: PolicyModel, actor: Seq<char>) -> bool {
    seq_contains_str(p.try_users, actor)
}

/// The privilege the policy resolves for this actor.
pub open spec fn auth_level_spec(p: PolicyModel, actor: Seq<char>) -> AuthLevel {
    if is_reviewer(p, actor) {
        AuthLevel::Reviewer
    } else if is_try_user(p, actor) {
        AuthLevel::TryUser
    } else {
        AuthLevel::Guest
    }
}

/// Whether the actor may approve this pull request: on the approval
/// list, or named as its delegate.
pub open spec fn can_approve(p: PolicyModel, pull: PullModel, actor: Seq<char>) -> bool {
    is_reviewer(p, actor) || pull.delegate == Some(actor)
}

/// Whether this actor holds try rights on this pull request: try level or
/// above, or the pull request's delegate.
pub open spec fn can_try(p: PolicyModel, pull: PullModel, actor: Seq<char>) -> bool {
    is_reviewer(p, actor) || is_try_user(p, actor) || pull.delegate == Some(actor)
}

/// Spec-level image of an `Option<i32>` argument.
pub open spec fn opt_int(o: Option<i32>) -> Option<int> {
    match o {
        Some(v) => Some(v as int),
        None => None,
    }
}

/// Whether a sequence of strings contains the given string slice.
fn vec_contains_str(v: &Vec<String>, x: &str) -> (r: bool)
    ensures
        r == seq_contains_str(v.deep_view(), x@),
{
    let mut i: usize = 0;
    while i < v.len()
        invariant
            i <= v.len(),
            forall|j: int| 0 <= j < i ==> v.deep_view()[j] != x@,
        decreases v.len() - i,
    {
        if str_eq(v[i].as_str(), x) {
            assert(v.deep_view()[i as int] == x@);
            return true;
        }
        i = i + 1;
    }
    false
}

/// Whether the option holds a string equal to the given one.
fn opt_str_is(o: &Option<String>, x: &str) -> (r: bool)
    ensures
        r == (o.deep_view() == Some(x@)),
{
    match o {
        Some(s) => str_eq(s.as_str(), x),
        None => false,
    }
}

/// The privilege the policy resolves for this actor.
pub fn auth_level(p: &RepoPolicy, actor: &str) -> (r: AuthLevel)
    ensures
        r == auth_level_spec(p@, actor@),
{
    if vec_contains_str(&p.reviewers, actor) {
        AuthLevel::Reviewer
    } else if vec_contains_str(&p.try_users, actor) {
        AuthLevel::TryUser
    } else {
        AuthLevel::Guest
    }
}

impl RepoState {
    /// The engine's invariant as a predicate on the executable state.
    pub open spec fn wf(self) -> bool {
        inv(self@)
    }

    /// A fresh engine for one repository, seeded with the durable
    /// tree-close row read back from the store (or its open default).
    pub fn new(repo: String, policy: RepoPolicy, treeclosed: i32, treeclosed_src: Option<
        String,
    >) -> (r: RepoState)
        ensures
            r.wf(),
            r@.repo == repo@,
            r@.policy == policy@,
            r@.pulls == Seq::<PullModel>::empty(),
            r@.results == Seq::<BuildResModel>::empty(),
            r@.mergeable == Seq::<MergeableModel>::empty(),
            r@.retry_log == Seq::<RetryLogModel>::empty(),
            r@.treeclosed == treeclosed as int,
            r@.treeclosed_src == treeclosed_src.deep_view(),
            r@.auto_attempt is None,
            r@.try_attempt is None,
    {
        let r = RepoState {
            repo,
            policy,
            pulls: Vec::new(),
            results: Vec::new(),
            mergeable: Vec::new(),
            retry_log: Vec::new(),
            treeclosed,
            treeclosed_src,
            auto_attempt: None,
            try_attempt: None,
        };
        proof {
            assert(r@.pulls =~= Seq::<PullModel>::empty());
            assert(r@.results =~= Seq::<BuildResModel>::empty());
            assert(r@.mergeable =~= Seq::<MergeableModel>::empty());
            assert(r@.retry_log =~= Seq::<RetryLogModel>::empty());
        }
        r
    }

    /// Close or open the tree-close gate and record the provenance.
    /// Non-positive `value` opens the tree.
    pub fn update_treeclosed(&mut self, value: i32, src: String)
        requires
            old(self).wf(),
        ensures
            final(self).wf(),
            final(self)@ == (StateModel {
                treeclosed: value as int,
                treeclosed_src: Some(src@),
                ..old(self)@
            }),
    {
        self.treeclosed = value;
        self.treeclosed_src = Some(src);
        proof {
            assert(final(self)@ =~= (StateModel {
                treeclosed: value as int,
                treeclosed_src: Some(src@),
                ..old(self)@
            }));
        }
    }

    /// Close the tree: block new attempts at or below `priority`.
    pub fn close_tree(&mut self, priority: i32, src: String)
        requires
            old(self).wf(),
            priority > 0,
        ensures
            final(self).wf(),
            final(self)@ == (StateModel {
                treeclosed: priority as int,
                treeclosed_src: Some(src@),
                ..old(self)@
            }),
    {
        self.update_treeclosed(priority, src);
    }

    /// Open the tree again.
    pub fn open_tree(&mut self, src: String)
        requires
            old(self).wf(),
        ensures
            final(self).wf(),
            final(self)@ == (StateModel {
                treeclosed: -1,
                treeclosed_src: Some(src@),
                ..old(self)@
            }),
    {
        self.update_treeclosed(-1, src);
    }

    /// The durable row of the tree-close gate, there exactly while the tree is
    /// closed: the store deletes the old row and writes this one when it
    /// exists.
    pub fn tree_row(&self) -> (r: Option<Repo>)
        ensures
            self@.treeclosed > 0 ==> (r matches Some(row) && row@.repo == self@.repo
                && row@.treeclosed == self@.treeclosed && row@.treeclosed_src
                == self@.treeclosed_src),
            self@.treeclosed <= 0 ==> r is None,
    {
        if self.treeclosed > 0 {
            Some(
                Repo {
                    repo: self.repo.clone(),
                    treeclosed: self.treeclosed,
                    treeclosed_src: match &self.treeclosed_src {
                        Some(s) => Some(s.clone()),
                        None => None,
                    },
                },
            )
        } else {
            None
        }
    }

    /// The index of the pull request with this number, if any.
    fn find_pull(&self, num: i32) -> (r: Option<usize>)
        ensures
            match r {
                Some(i) => 0 <= i < self@.pulls.len() && self@.pulls[i as int].num == num as int,
                None => !has_pull(self@, num as int),
            },
    {
        let mut i: usize = 0;
        while i < self.pulls.len()
            invariant
                i <= self.pulls.len(),
                forall|j: int| 0 <= j < i ==> self@.pulls[j].num != num as int,
            decreases self.pulls.len() - i,
        {
            if self.pulls[i].num == num {
                return Some(i);
            }
            i = i + 1;
        }
        None
    }

    /// Record a pull request first observed on the repository. A number
    /// already on record is left untouched; a new one starts `Pending`.
    /// Returns whether a row was created.
    pub fn observe_pull(
        &mut self,
        num: i32,
        head_sha: String,
        head_ref: String,
        base_ref: String,
        body: Option<String>,
        assignee: Option<String>,
    ) -> (created: bool)
        requires
            old(self).wf(),
        ensures
            final(self).wf(),
            created == !has_pull(old(self)@, num as int),
            !created ==> final(self)@ == old(self)@,
            created ==> final(self)@ == (StateModel {
                pulls: old(self)@.pulls.push(
                    PullModel {
                        repo: old(self)@.repo,
                        num: num as int,
                        status: PullStatus::Pending,
                        merge_sha: None,
                        body: body.deep_view(),
                        head_sha: Some(head_sha@),
                        head_ref: Some(head_ref@),
                        base_ref: Some(base_ref@),
                        assignee: assignee.deep_view(),
                        approved_by: None,
                        priority: 0,
                        try_: false,
                        rollup: 0,
                        squash: false,
                        delegate: None,
                        approved_at: 0,
                    },
                ),
                ..old(self)@
            }),
            has_pull(final(self)@, num as int),
    {
        match self.find_pull(num) {
            Some(_) => false,
            None => {
                let p = Pull {
                    repo: self.repo.clone(),
                    num,
                    status: PullStatus::Pending,
                    merge_sha: None,
                    body,
                    head_sha: Some(head_sha),
                    head_ref: Some(head_ref),
                    base_ref: Some(base_ref),
                    assignee,
                    approved_by: None,
                    priority: 0,
                    try_: false,
                    rollup: 0,
                    squash: false,
                    delegate: None,
                    approved_at: 0,
                };
                let ghost pm = p@;
                self.pulls.push(p);
                proof {
                    assert(final(self)@.pulls =~= old(self)@.pulls.push(pm));
                    assert(final(self)@ =~= (StateModel {
                        pulls: old(self)@.pulls.push(pm),
                        ..old(self)@
                    }));
                    let m2 = final(self)@;
                    let k = m2.pulls.len() - 1;
                    assert(m2.pulls[k].num == num as int);
                    lemma_push_nontesting_preserves_inv(old(self)@, pm);
                }
                true
            },
        }
    }
}

/// The priority an approval asks for: the requested one, or the one already
/// recorded when the command names none.
pub open spec fn effective_priority(pull: PullModel, prio: Option<int>) -> int {
    match prio {
        Some(v) => v,
        None => pull.priority,
    }
}

/// Validation of an approve command: the rule that fails, checked in order,
/// or `Ok` when the command is granted.
pub open spec fn approve_check(m: StateModel, num: int, actor: Seq<char>, prio: Option<int>) -> Result<
    (),
    CommandError,
> {
    if !has_pull(m, num) {
        Err(CommandError::UnknownPull)
    } else if !can_approve(m.policy, pull_of(m, num), actor) {
        Err(CommandError::NotAuthorized)
    } else if effective_priority(pull_of(m, num), prio) > m.policy.max_priority {
        Err(CommandError::PriorityTooHigh)
    } else if pull_of(m, num).status != PullStatus::Pending && pull_of(m, num).status
        != PullStatus::Approved {
        Err(CommandError::WrongState)
    } else {
        Ok(())
    }
}

/// The state an approve command leaves behind: the approval, its priority,
/// its instant and any delegate grant recorded on the pull request; the
/// whole state unchanged when the command is refused.
pub open spec fn approve_effect(
    m: StateModel,
    num: int,
    actor: Seq<char>,
    prio: Option<int>,
    delegate: Option<Seq<char>>,
    now: int,
) -> StateModel {
    if approve_check(m, num, actor, prio) is Ok {
        let i = pull_index(m, num);
        let p = m.pulls[i];
        StateModel {
            pulls: m.pulls.update(
                i,
                PullModel {
                    status: PullStatus::Approved,
                    approved_by: Some(actor),
                    priority: effective_priority(p, prio),
                    delegate: if delegate is Some {
                        delegate
                    } else {
                        p.delegate
                    },
                    approved_at: now,
                    ..p
                },
            ),
            ..m
        }
    } else {
        m
    }
}

/// Validation of a reject command.
pub open spec fn reject_check(m: StateModel, num: int, actor: Seq<char>) -> Result<
    (),
    CommandError,
> {
    if !has_pull(m, num) {
        Err(CommandError::UnknownPull)
    } else if !can_approve(m.policy, pull_of(m, num), actor) {
        Err(CommandError::NotAuthorized)
    } else if pull_of(m, num).status != PullStatus::Pending && pull_of(m, num).status
        != PullStatus::Approved {
        Err(CommandError::WrongState)
    } else {
        Ok(())
    }
}

/// The state a reject command leaves behind: approval cleared, back to
/// `Pending`.
pub open spec fn reject_effect(m: StateModel, num: int, actor: Seq<char>) -> StateModel {
    if reject_check(m, num, actor) is Ok {
        let i = pull_index(m, num);
        let p = m.pulls[i];
        StateModel {
            pulls: m.pulls.update(
                i,
                PullModel { status: PullStatus::Pending, approved_by: None, ..p },
            ),
            ..m
        }
    } else {
        m
    }
}

/// Validation of a try command.
pub open spec fn try_check(m: StateModel, num: int, actor: Seq<char>) -> Result<
    (),
    CommandError,
> {
    if !has_pull(m, num) {
        Err(CommandError::UnknownPull)
    } else if !can_try(m.policy, pull_of(m, num), actor) {
        Err(CommandError::NotAuthorized)
    } else if pull_of(m, num).status != PullStatus::Pending && pull_of(m, num).status
        != PullStatus::Approved && pull_of(m, num).status != PullStatus::TrySucceeded && pull_of(
        m,
        num,
    ).status != PullStatus::TryFailed {
        Err(CommandError::WrongState)
    } else {
        Ok(())
    }
}

/// The state a try command leaves behind: the pull request queued on the
/// try lane.
pub open spec fn try_effect(m: StateModel, num: int, actor: Seq<char>) -> StateModel {
    if try_check(m, num, actor) is Ok {
        let i = pull_index(m, num);
        let p = m.pulls[i];
        StateModel {
            pulls: m.pulls.update(
                i,
                PullModel { status: PullStatus::TryRequested, try_: true, ..p },
            ),
            ..m
        }
    } else {
        m
    }
}

/// Validation of a retry command: try rights, and a pull request resting in
/// a failed outcome.
pub open spec fn retry_check(m: StateModel, num: int, actor: Seq<char>) -> Result<
    (),
    CommandError,
> {
    if !has_pull(m, num) {
        Err(CommandError::UnknownPull)
    } else if !can_try(m.policy, pull_of(m, num), actor) {
        Err(CommandError::NotAuthorized)
    } else if pull_of(m, num).status != PullStatus::Failure && pull_of(m, num).status
        != PullStatus::TimedOut && pull_of(m, num).status != PullStatus::Interrupted && pull_of(
        m,
        num,
    ).status != PullStatus::Conflict && pull_of(m, num).status != PullStatus::TryFailed {
        Err(CommandError::WrongState)
    } else {
        Ok(())
    }
}

/// The state a retry command leaves behind: back in its lane's queue, with
/// exactly one audit entry appended.
pub open spec fn retry_effect(
    m: StateModel,
    num: int,
    actor: Seq<char>,
    msg: Seq<char>,
    now: int,
) -> StateModel {
    if retry_check(m, num, actor) is Ok {
        let i = pull_index(m, num);
        let p = m.pulls[i];
        let back = if p.status == PullStatus::TryFailed {
            PullStatus::TryRequested
        } else {
            PullStatus::Approved
        };
        StateModel {
            pulls: m.pulls.update(i, PullModel { status: back, ..p }),
            retry_log: m.retry_log.push(
                RetryLogModel { repo: m.repo, num, time: now, src: actor, msg },
            ),
            ..m
        }
    } else {
        m
    }
}

/// Validation of the internal merge step: only a pull request whose attempt
/// succeeded can land.
pub open spec fn land_check(m: StateModel, num: int) -> Result<(), CommandError> {
    if !has_pull(m, num) {
        Err(CommandError::UnknownPull)
    } else if pull_of(m, num).status != PullStatus::Success {
        Err(CommandError::WrongState)
    } else {
        Ok(())
    }
}

/// The state the merge step leaves behind: `Merged` when the push to the
/// base branch succeeded, `Failure` when it did not.
pub open spec fn land_effect(m: StateModel, num: int, pushed: bool) -> StateModel {
    if land_check(m, num) is Ok {
        let i = pull_index(m, num);
        let p = m.pulls[i];
        let st = if pushed {
            PullStatus::Merged
        } else {
            PullStatus::Failure
        };
        StateModel { pulls: m.pulls.update(i, PullModel { status: st, ..p }), ..m }
    } else {
        m
    }
}

impl RepoState {
    /// Approve command: records who approved, at what priority, and any
    /// delegate grant, and moves the pull request to `Approved`. Refused with the exact
    /// failing rule otherwise, leaving the state unchanged.
    pub fn approve(
        &mut self,
        num: i32,
        actor: String,
        priority: Option<i32>,
        delegate: Option<String>,
        now: i64,
    ) -> (r: Result<(), CommandError>)
        requires
            old(self).wf(),
        ensures
            final(self).wf(),
            r == approve_check(old(self)@, num as int, actor@, opt_int(priority)),
            final(self)@ == approve_effect(
                old(self)@,
                num as int,
                actor@,
                opt_int(priority),
                delegate.deep_view(),
                now as int,
            ),
    {
        let ghost m0 = self@;
        let i = match self.find_pull(num) {
            Some(i) => i,
            None => {
                return Err(CommandError::UnknownPull);
            },
        };
        proof {
            lemma_pull_index_is(m0, i as int);
        }
        let allowed = vec_contains_str(&self.policy.reviewers, actor.as_str()) || opt_str_is(
            &self.pulls[i].delegate,
            actor.as_str(),
        );
        if !allowed {
            return Err(CommandError::NotAuthorized);
        }
        let eff: i32 = match priority {
            Some(v) => v,
            None => self.pulls[i].priority,
        };
        if eff > self.policy.max_priority {
            return Err(CommandError::PriorityTooHigh);
        }
        let st = self.pulls[i].status;
        if st != PullStatus::Pending && st != PullStatus::Approved {
            return Err(CommandError::WrongState);
        }
        let ghost dv = delegate.deep_view();
        let p = &mut self.pulls[i];
        p.status = PullStatus::Approved;
        p.approved_by = Some(actor);
        p.priority = eff;
        if let Some(d) = delegate {
            p.delegate = Some(d);
        }
        p.approved_at = now;
        proof {
            let i = i as int;
            let target = approve_effect(m0, num as int, actor@, opt_int(priority), dv, now as int);
            assert(self@.pulls[i] =~= target.pulls[i]);
            assert(self@.pulls =~= target.pulls);
            assert(self@ =~= target);
            lemma_update_pull_preserves_inv(m0, i, self@.pulls[i]);
        }
        Ok(())
    }

    /// Reject command: clears the approval and returns the pull request to
    /// `Pending`.
    pub fn reject(&mut self, num: i32, actor: String) -> (r: Result<(), CommandError>)
        requires
            old(self).wf(),
        ensures
            final(self).wf(),
            r == reject_check(old(self)@, num as int, actor@),
            final(self)@ == reject_effect(old(self)@, num as int, actor@),
    {
        let ghost m0 = self@;
        let i = match self.find_pull(num) {
            Some(i) => i,
            None => {
                return Err(CommandError::UnknownPull);
            },
        };
        proof {
            lemma_pull_index_is(m0, i as int);
        }
        let allowed = vec_contains_str(&self.policy.reviewers, actor.as_str()) || opt_str_is(
            &self.pulls[i].delegate,
            actor.as_str(),
        );
        if !allowed {
            return Err(CommandError::NotAuthorized);
        }
        let st = self.pulls[i].status;
        if st != PullStatus::Pending && st != PullStatus::Approved {
            return Err(CommandError::WrongState);
        }
        let p = &mut self.pulls[i];
        p.status = PullStatus::Pending;
        p.approved_by = None;
        proof {
            let i = i as int;
            let target = reject_effect(m0, num as int, actor@);
            assert(self@.pulls[i] =~= target.pulls[i]);
            assert(self@.pulls =~= target.pulls);
            assert(self@ =~= target);
            lemma_update_pull_preserves_inv(m0, i, self@.pulls[i]);
        }
        Ok(())
    }

    /// Try command: queues a build-only request on the try lane.
    pub fn try_request(&mut self, num: i32, actor: String) -> (r: Result<(), CommandError>)
        requires
            old(self).wf(),
        ensures
            final(self).wf(),
            r == try_check(old(self)@, num as int, actor@),
            final(self)@ == try_effect(old(self)@, num as int, actor@),
    {
        let ghost m0 = self@;
        let i = match self.find_pull(num) {
            Some(i) => i,
            None => {
                return Err(CommandError::UnknownPull);
            },
        };
        proof {
            lemma_pull_index_is(m0, i as int);
        }
        let allowed = vec_contains_str(&self.policy.reviewers, actor.as_str()) || vec_contains_str(
            &self.policy.try_users,
            actor.as_str(),
        ) || opt_str_is(&self.pulls[i].delegate, actor.as_str());
        if !allowed {
            return Err(CommandError::NotAuthorized);
        }
        let st = self.pulls[i].status;
        if st != PullStatus::Pending && st != PullStatus::Approved && st != PullStatus::TrySucceeded
            && st != PullStatus::TryFailed {
            return Err(CommandError::WrongState);
        }
        let p = &mut self.pulls[i];
        p.status = PullStatus::TryRequested;
        p.try_ = true;
        proof {
            let i = i as int;
            let target = try_effect(m0, num as int, actor@);
            assert(self@.pulls[i] =~= target.pulls[i]);
            assert(self@.pulls =~= target.pulls);
            assert(self@ =~= target);
            lemma_update_pull_preserves_inv(m0, i, self@.pulls[i]);
        }
        Ok(())
    }

    /// Retry command: moves a failed pull request back to its lane's queue
    /// and appends one audit entry naming the triggering actor.
    pub fn retry(&mut self, num: i32, actor: String, msg: String, now: i64) -> (r: Result<
        (),
        CommandError,
    >)
        requires
            old(self).wf(),
        ensures
            final(self).wf(),
            r == retry_check(old(self)@, num as int, actor@),
            final(self)@ == retry_effect(old(self)@, num as int, actor@, msg@, now as int),
    {
        let ghost m0 = self@;
        let i = match self.find_pull(num) {
            Some(i) => i,
            None => {
                return Err(CommandError::UnknownPull);
            },
        };
        proof {
            lemma_pull_index_is(m0, i as int);
        }
        let allowed = vec_contains_str(&self.policy.reviewers, actor.as_str()) || vec_contains_str(
            &self.policy.try_users,
            actor.as_str(),
        ) || opt_str_is(&self.pulls[i].delegate, actor.as_str());
        if !allowed {
            return Err(CommandError::NotAuthorized);
        }
        let st = self.pulls[i].status;
        if st != PullStatus::Failure && st != PullStatus::TimedOut && st != PullStatus::Interrupted
            && st != PullStatus::Conflict && st != PullStatus::TryFailed {
            return Err(CommandError::WrongState);
        }
        let back = if st == PullStatus::TryFailed {
            PullStatus::TryRequested
        } else {
            PullStatus::Approved
        };
        let entry = RetryLog { repo: self.repo.clone(), num, time: now, src: actor, msg };
        let ghost ev = entry@;
        self.retry_log.push(entry);
        let p = &mut self.pulls[i];
        p.status = back;
        proof {
            let i = i as int;
            let target = retry_effect(m0, num as int, actor@, msg@, now as int);
            assert(self@.retry_log =~= m0.retry_log.push(ev));
            assert(self@.pulls[i] =~= target.pulls[i]);
            assert(self@.pulls =~= target.pulls);
            assert(self@ =~= target);
            lemma_update_pull_preserves_inv(
                StateModel { retry_log: m0.retry_log.push(ev), ..m0 },
                i,
                self@.pulls[i],
            );
        }
        Ok(())
    }

    /// The internal merge step: reports whether the push of the synthetic
    /// commit to the base branch went through, landing the pull request or
    /// recording the failure.
    pub fn report_land(&mut self, num: i32, pushed: bool) -> (r: Result<(), CommandError>)
        requires
            old(self).wf(),
        ensures
            final(self).wf(),
            r == land_check(old(self)@, num as int),
            final(self)@ == land_effect(old(self)@, num as int, pushed),
    {
        let ghost m0 = self@;
        let i = match self.find_pull(num) {
            Some(i) => i,
            None => {
                return Err(CommandError::UnknownPull);
            },
        };
        proof {
            lemma_pull_index_is(m0, i as int);
        }
        if self.pulls[i].status != PullStatus::Success {
            return Err(CommandError::WrongState);
        }
        let p = &mut self.pulls[i];
        p.status = if pushed {
            PullStatus::Merged
        } else {
            PullStatus::Failure
        };
        proof {
            let i = i as int;
            let target = land_effect(m0, num as int, pushed);
            assert(self@.pulls[i] =~= target.pulls[i]);
            assert(self@.pulls =~= target.pulls);
            assert(self@ =~= target);
            lemma_update_pull_preserves_inv(m0, i, self@.pulls[i]);
        }
        Ok(())
    }
}

/// Whether the tree-close gate lets an attempt of this priority start:
/// the tree is open, or the priority exceeds the closing threshold.
pub open spec fn gate_open_for(m: StateModel, prio: int) -> bool {
    m.treeclosed <= 0 || prio > m.treeclosed
}

/// The queued status a lane's scheduler picks from.
pub open spec fn queued_status(lane: Lane) -> PullStatus {
    if lane == Lane::Auto {
        PullStatus::Approved
    } else {
        PullStatus::TryRequested
    }
}

/// Whether the scheduler may grant this pull request a slot on this lane.
pub open spec fn eligible(m: StateModel, p: PullModel, lane: Lane) -> bool {
    p.status == queued_status(lane) && gate_open_for(m, p.priority)
}

/// The scheduling order: higher priority first, and first approved first
/// within equal priority.
pub open spec fn ahead_of(a: PullModel, b: PullModel) -> bool {
    a.priority > b.priority || (a.priority == b.priority && a.approved_at <= b.approved_at)
}

/// Whether a sequence of numbers contains the given one.
pub open spec fn seq_contains_num(s: Seq<i32>, x: i32) -> bool {
    exists|i: int| 0 <= i < s.len() && s[i] == x
}

/// Whether a vector of numbers contains the given one.
fn contains_num(v: &Vec<i32>, x: i32) -> (r: bool)
    ensures
        r == seq_contains_num(v@, x),
{
    let mut i: usize = 0;
    while i < v.len()
        invariant
            i <= v.len(),
            forall|j: int| 0 <= j < i ==> v@[j] != x,
        decreases v.len() - i,
    {
        if v[i] == x {
            return true;
        }
        i = i + 1;
    }
    false
}

/// The state a granted rollup batch leaves behind: every member in flight
/// on the auto lane, previous synthetic commits invalidated, and one
/// shared attempt recorded, started now and awaiting its branch.
pub open spec fn batch_grant_effect(m: StateModel, nums: Seq<int>, now: int) -> StateModel {
    let pulls2 = Seq::new(
        m.pulls.len(),
        |k: int|
            if nums.contains(m.pulls[k].num) {
                PullModel { status: PullStatus::Testing, merge_sha: None, ..m.pulls[k] }
            } else {
                m.pulls[k]
            },
    );
    StateModel {
        pulls: pulls2,
        auto_attempt: Some(AttemptModel { nums, merge_sha: None, started_at: now }),
        ..m
    }
}

/// The state a granted slot leaves behind: the pull request in flight on
/// its lane, its previous synthetic commit invalidated, and a fresh
/// single-member attempt recorded, started now and awaiting its branch.
pub open spec fn grant_effect(m: StateModel, num: int, lane: Lane, now: int) -> StateModel {
    let i = pull_index(m, num);
    let p = m.pulls[i];
    let pulls2 = m.pulls.update(
        i,
        PullModel { status: testing_status(lane), merge_sha: None, ..p },
    );
    let a = AttemptModel { nums: seq![num], merge_sha: None, started_at: now };
    if lane == Lane::Auto {
        StateModel { pulls: pulls2, auto_attempt: Some(a), ..m }
    } else {
        StateModel { pulls: pulls2, try_attempt: Some(a), ..m }
    }
}

/// The state of a retired attempt: every member moved to `st`, the lane's
/// slot freed. Stale build rows are retained.
pub open spec fn finish_effect(m: StateModel, lane: Lane, st: PullStatus) -> StateModel {
    let pulls2 = Seq::new(
        m.pulls.len(),
        |k: int|
            if m.pulls[k].status == testing_status(lane) {
                PullModel { status: st, ..m.pulls[k] }
            } else {
                m.pulls[k]
            },
    );
    if lane == Lane::Auto {
        StateModel { pulls: pulls2, auto_attempt: None, ..m }
    } else {
        StateModel { pulls: pulls2, try_attempt: None, ..m }
    }
}

/// The terminal status a branch-construction conflict forces on a lane.
pub open spec fn conflict_status(lane: Lane) -> PullStatus {
    if lane == Lane::Auto {
        PullStatus::Conflict
    } else {
        PullStatus::TryFailed
    }
}

/// The terminal status a timeout forces on a lane.
pub open spec fn timeout_status(lane: Lane) -> PullStatus {
    if lane == Lane::Auto {
        PullStatus::TimedOut
    } else {
        PullStatus::TryFailed
    }
}

/// Whether the lane's attempt has outlived the configured timeout.
pub open spec fn timeout_due(m: StateModel, lane: Lane, now: int) -> bool {
    match lane_attempt(m, lane) {
        Some(a) => now - a.started_at > m.policy.timeout,
        None => false,
    }
}

impl RepoState {
    /// Grant at most one integration slot on a lane: respects the one
    /// attempt per lane rule and the tree-close gate, ordered by higher
    /// priority first and, within a priority, by the earlier approval.
    /// Consulting the tree-close gate and granting the slot are one atomic
    /// step.
    /// Returns the granted pull number.
    pub fn schedule(&mut self, lane: Lane, now: i64) -> (r: Option<i32>)
        requires
            old(self).wf(),
            now >= 0,
        ensures
            final(self).wf(),
            r is None ==> final(self)@ == old(self)@ && (lane_attempt(old(self)@, lane) is Some
                || forall|j: int|
                0 <= j < old(self)@.pulls.len() ==> !eligible(
                    old(self)@,
                    #[trigger] old(self)@.pulls[j],
                    lane,
                )),
            r matches Some(num) ==> {
                &&& lane_attempt(old(self)@, lane) is None
                &&& has_pull(old(self)@, num as int)
                &&& eligible(old(self)@, pull_of(old(self)@, num as int), lane)
                &&& forall|j: int|
                    0 <= j < old(self)@.pulls.len() && eligible(
                        old(self)@,
                        #[trigger] old(self)@.pulls[j],
                        lane,
                    ) ==> ahead_of(pull_of(old(self)@, num as int), old(self)@.pulls[j])
                &&& final(self)@ == grant_effect(old(self)@, num as int, lane, now as int)
            },
    {
        let ghost m0 = self@;
        let busy = match lane {
            Lane::Auto => self.auto_attempt.is_some(),
            Lane::Try => self.try_attempt.is_some(),
        };
        if busy {
            return None;
        }
        let qs = if lane == Lane::Auto {
            PullStatus::Approved
        } else {
            PullStatus::TryRequested
        };
        let mut best: Option<usize> = None;
        let mut i: usize = 0;
        while i < self.pulls.len()
            invariant
                i <= self.pulls.len(),
                qs == queued_status(lane),
                match best {
                    Some(b) => 0 <= b < i && b < self@.pulls.len() && eligible(
                        self@,
                        self@.pulls[b as int],
                        lane,
                    ) && forall|j: int|
                        0 <= j < i && eligible(self@, #[trigger] self@.pulls[j], lane) ==> ahead_of(
                            self@.pulls[b as int],
                            self@.pulls[j],
                        ),
                    None => forall|j: int|
                        0 <= j < i ==> !eligible(self@, #[trigger] self@.pulls[j], lane),
                },
            decreases self.pulls.len() - i,
        {
            let elig = self.pulls[i].status == qs && (self.treeclosed <= 0 || self.pulls[i].priority
                > self.treeclosed);
            if elig {
                best = match best {
                    None => Some(i),
                    Some(b) => {
                        if self.pulls[i].priority > self.pulls[b].priority || (self.pulls[i].priority
                            == self.pulls[b].priority && self.pulls[i].approved_at
                            < self.pulls[b].approved_at) {
                            Some(i)
                        } else {
                            Some(b)
                        }
                    },
                };
            }
            i = i + 1;
        }
        match best {
            None => None,
            Some(b) => {
                proof {
                    lemma_pull_index_is(m0, b as int);
                }
                let num = self.pulls[b].num;
                let ts = if lane == Lane::Auto {
                    PullStatus::Testing
                } else {
                    PullStatus::TryTesting
                };
                let p = &mut self.pulls[b];
                p.status = ts;
                p.merge_sha = None;
                let mut nv: Vec<i32> = Vec::new();
                nv.push(num);
                let att = Attempt { nums: nv, merge_sha: None, started_at: now };
                match lane {
                    Lane::Auto => {
                        self.auto_attempt = Some(att);
                    },
                    Lane::Try => {
                        self.try_attempt = Some(att);
                    },
                }
                proof {
                    let target = grant_effect(m0, num as int, lane, now as int);
                    assert(self@.pulls[b as int] =~= target.pulls[b as int]);
                    assert(self@.pulls =~= target.pulls);
                    assert(lane_attempt(self@, lane) matches Some(a) && a.nums =~= seq![
                        num as int,
                    ]);
                    assert(self@ =~= target);
                    lemma_grant_preserves_inv(m0, num as int, lane, now as int);
                }
                Some(num)
            },
        }
    }

    /// Grant one rollup batch on the auto lane: the top eligible pull
    /// request, greedily extended with the next eligible batch-tier pull
    /// requests in scheduling order, up to the policy's batch size. The
    /// members share one attempt and one synthetic commit. Returns the
    /// granted pull numbers, none when the lane is busy or nothing is
    /// eligible.
    pub fn schedule_rollup(&mut self, now: i64) -> (r: Vec<i32>)
        requires
            old(self).wf(),
            now >= 0,
        ensures
            final(self).wf(),
            r@.len() == 0 ==> final(self)@ == old(self)@ && (old(self)@.auto_attempt is Some
                || forall|j: int|
                0 <= j < old(self)@.pulls.len() ==> !eligible(
                    old(self)@,
                    #[trigger] old(self)@.pulls[j],
                    Lane::Auto,
                )),
            r@.len() >= 1 ==> {
                &&& old(self)@.auto_attempt is None
                &&& r@.len() <= max_batch(old(self)@.policy)
                &&& (forall|a: int, b: int|
                    0 <= a < r@.len() && 0 <= b < r@.len() && a != b ==> r@[a] != r@[b])
                &&& (forall|a: int|
                    0 <= a < r@.len() ==> has_pull(old(self)@, #[trigger] r@[a] as int) && eligible(
                        old(self)@,
                        pull_of(old(self)@, r@[a] as int),
                        Lane::Auto,
                    ))
                &&& (r@.len() > 1 ==> forall|a: int|
                    0 <= a < r@.len() ==> pull_of(old(self)@, #[trigger] r@[a] as int).rollup > 0)
                &&& (forall|j: int|
                    0 <= j < old(self)@.pulls.len() && eligible(
                        old(self)@,
                        #[trigger] old(self)@.pulls[j],
                        Lane::Auto,
                    ) ==> ahead_of(pull_of(old(self)@, r@[0] as int), old(self)@.pulls[j]))
                &&& final(self)@ == batch_grant_effect(
                    old(self)@,
                    Seq::new(r@.len(), |a: int| r@[a] as int),
                    now as int,
                )
            },
    {
        let ghost m0 = self@;
        if self.auto_attempt.is_some() {
            return Vec::new();
        }
        let cap_i32 = if self.policy.rollup_size < 1 {
            1
        } else {
            self.policy.rollup_size
        };
        let cap = cap_i32 as usize;
        proof {
            assert(cap == max_batch(m0.policy));
        }
        let mut picked: Vec<i32> = Vec::new();
        let first = self.best_eligible(&picked);
        let b = match first {
            None => {
                proof {
                    assert forall|j: int|
                        0 <= j < m0.pulls.len() implies !eligible(
                        m0,
                        #[trigger] m0.pulls[j],
                        Lane::Auto,
                    ) by {
                        assert(!seq_contains_num(picked@, self.pulls@[j].num));
                    }
                }
                return Vec::new();
            },
            Some(b) => b,
        };
        proof {
            lemma_pull_index_is(m0, b as int);
        }
        picked.push(self.pulls[b].num);
        let extend = self.pulls[b].rollup > 0;
        while extend && picked.len() < cap
            invariant
                old(self)@ == m0,
                self@ == m0,
                inv(m0),
                m0.auto_attempt is None,
                cap == max_batch(m0.policy),
                1 <= picked@.len() <= cap,
                forall|a: int, c: int|
                    0 <= a < picked@.len() && 0 <= c < picked@.len() && a != c ==> picked@[a]
                        != picked@[c],
                forall|a: int|
                    0 <= a < picked@.len() ==> has_pull(m0, #[trigger] picked@[a] as int)
                        && eligible(m0, pull_of(m0, picked@[a] as int), Lane::Auto),
                extend ==> forall|a: int|
                    0 <= a < picked@.len() ==> pull_of(m0, #[trigger] picked@[a] as int).rollup
                        > 0,
                !extend ==> picked@.len() == 1,
                picked@[0] == self.pulls@[b as int].num,
                b < m0.pulls.len(),
                forall|j: int|
                    0 <= j < m0.pulls.len() && eligible(m0, #[trigger] m0.pulls[j], Lane::Auto)
                        ==> ahead_of(pull_of(m0, picked@[0] as int), m0.pulls[j]),
            decreases cap - picked.len(),
        {
            let next = self.best_eligible_rollup(&picked);
            match next {
                None => {
                    break ;
                },
                Some(k) => {
                    proof {
                        lemma_pull_index_is(m0, k as int);
                    }
                    picked.push(self.pulls[k].num);
                },
            }
        }
        // Transition the members and record the shared attempt.
        let ghost nums = Seq::new(picked@.len(), |a: int| picked@[a] as int);
        let ghost target = batch_grant_effect(m0, nums, now as int);
        let mut k: usize = 0;
        while k < self.pulls.len()
            invariant
                k <= self.pulls.len(),
                target == batch_grant_effect(m0, nums, now as int),
                nums == Seq::new(picked@.len(), |a: int| picked@[a] as int),
                old(self)@ == m0,
                inv(m0),
                m0.auto_attempt is None,
                cap == max_batch(m0.policy),
                1 <= picked@.len() <= cap,
                forall|a: int, c: int|
                    0 <= a < picked@.len() && 0 <= c < picked@.len() && a != c ==> picked@[a]
                        != picked@[c],
                forall|a: int|
                    0 <= a < picked@.len() ==> has_pull(m0, #[trigger] picked@[a] as int)
                        && eligible(m0, pull_of(m0, picked@[a] as int), Lane::Auto),
                picked@.len() > 1 ==> forall|a: int|
                    0 <= a < picked@.len() ==> pull_of(m0, #[trigger] picked@[a] as int).rollup
                        > 0,
                forall|j: int|
                    0 <= j < m0.pulls.len() && eligible(m0, #[trigger] m0.pulls[j], Lane::Auto)
                        ==> ahead_of(pull_of(m0, picked@[0] as int), m0.pulls[j]),
                self@.pulls.len() == m0.pulls.len(),
                self@.results == m0.results,
                self@.mergeable == m0.mergeable,
                self@.retry_log == m0.retry_log,
                self@.repo == m0.repo,
                self@.policy == m0.policy,
                self@.treeclosed == m0.treeclosed,
                self@.treeclosed_src == m0.treeclosed_src,
                self@.auto_attempt == m0.auto_attempt,
                self@.try_attempt == m0.try_attempt,
                forall|j: int| k <= j < m0.pulls.len() ==> self@.pulls[j] == m0.pulls[j],
                forall|j: int| 0 <= j < k ==> self@.pulls[j] == target.pulls[j],
            decreases self.pulls.len() - k,
        {
            let ghost pre = self@;
            let hit = contains_num(&picked, self.pulls[k].num);
            proof {
                assert(hit == nums.contains(m0.pulls[k as int].num)) by {
                    if seq_contains_num(picked@, self.pulls@[k as int].num) {
                        let w = choose|w: int|
                            0 <= w < picked@.len() && picked@[w] == self.pulls@[k as int].num;
                        assert(nums[w] == m0.pulls[k as int].num);
                    }
                    if nums.contains(m0.pulls[k as int].num) {
                        let w = choose|w: int|
                            0 <= w < nums.len() && nums[w] == m0.pulls[k as int].num;
                        assert(picked@[w] == self.pulls@[k as int].num);
                    }
                }
            }
            if hit {
                let p = &mut self.pulls[k];
                p.status = PullStatus::Testing;
                p.merge_sha = None;
                proof {
                    assert(self@.pulls[k as int] =~= (PullModel {
                        status: PullStatus::Testing,
                        merge_sha: None,
                        ..m0.pulls[k as int]
                    }));
                }
            }
            proof {
                assert(target.pulls[k as int] == (if nums.contains(m0.pulls[k as int].num) {
                    PullModel {
                        status: PullStatus::Testing,
                        merge_sha: None,
                        ..m0.pulls[k as int]
                    }
                } else {
                    m0.pulls[k as int]
                }));
                assert(self@.pulls[k as int] == target.pulls[k as int]);
                assert forall|j: int|
                    0 <= j < m0.pulls.len() && j != k implies self@.pulls[j] == pre.pulls[j] by {
                    assert(self@.pulls[j] == self.pulls@[j].view());
                }
            }
            k = k + 1;
        }
        let mut out: Vec<i32> = Vec::new();
        let mut q: usize = 0;
        while q < picked.len()
            invariant
                q <= picked.len(),
                out@ == picked@.subrange(0, q as int),
                nums == Seq::new(picked@.len(), |a: int| picked@[a] as int),
                target == batch_grant_effect(m0, nums, now as int),
                old(self)@ == m0,
                inv(m0),
                m0.auto_attempt is None,
                cap == max_batch(m0.policy),
                1 <= picked@.len() <= cap,
                forall|a: int, c: int|
                    0 <= a < picked@.len() && 0 <= c < picked@.len() && a != c ==> picked@[a]
                        != picked@[c],
                forall|a: int|
                    0 <= a < picked@.len() ==> has_pull(m0, #[trigger] picked@[a] as int)
                        && eligible(m0, pull_of(m0, picked@[a] as int), Lane::Auto),
                picked@.len() > 1 ==> forall|a: int|
                    0 <= a < picked@.len() ==> pull_of(m0, #[trigger] picked@[a] as int).rollup
                        > 0,
                forall|j: int|
                    0 <= j < m0.pulls.len() && eligible(m0, #[trigger] m0.pulls[j], Lane::Auto)
                        ==> ahead_of(pull_of(m0, picked@[0] as int), m0.pulls[j]),
                self@ == batch_grant_effect(m0, nums, now as int) || self@.pulls == target.pulls,
                self@.pulls == target.pulls,
                self@.results == m0.results,
                self@.mergeable == m0.mergeable,
                self@.retry_log == m0.retry_log,
                self@.repo == m0.repo,
                self@.policy == m0.policy,
                self@.treeclosed == m0.treeclosed,
                self@.treeclosed_src == m0.treeclosed_src,
                self@.auto_attempt == m0.auto_attempt,
                self@.try_attempt == m0.try_attempt,
            decreases picked.len() - q,
        {
            let ghost pre_out = out@;
            out.push(picked[q]);
            proof {
                assert(out@ =~= picked@.subrange(0, q as int + 1));
            }
            q = q + 1;
        }
        let ghost pickedv = picked@;
        proof {
            assert(picked@.subrange(0, picked@.len() as int) =~= picked@);
            assert(out@ == pickedv);
            assert forall|a: int, c: int|
                0 <= a < nums.len() && 0 <= c < nums.len() && a != c implies nums[a] != nums[c] by {
                assert(pickedv[a] != pickedv[c]);
            }
            assert forall|a: int| 0 <= a < nums.len() implies has_pull(m0, #[trigger] nums[a])
                && pull_of(m0, nums[a]).status == PullStatus::Approved by {
                assert(eligible(m0, pull_of(m0, pickedv[a] as int), Lane::Auto));
            }
            lemma_batch_grant_preserves_inv(m0, nums, now as int);
            assert(nums =~= Seq::new(out@.len(), |a: int| out@[a] as int));
        }
        let att = Attempt { nums: picked, merge_sha: None, started_at: now };
        proof {
            assert(att@.nums =~= nums);
        }
        self.auto_attempt = Some(att);
        proof {
            assert(self@.pulls =~= target.pulls);
            assert(self@ =~= target);
        }
        out
    }

    /// The index of the queued pull request the auto-lane scheduler ranks
    /// first among those not yet picked, if any.
    fn best_eligible(&self, picked: &Vec<i32>) -> (r: Option<usize>)
        ensures
            match r {
                Some(bidx) => 0 <= bidx < self@.pulls.len() && eligible(
                    self@,
                    self@.pulls[bidx as int],
                    Lane::Auto,
                ) && !seq_contains_num(picked@, self.pulls@[bidx as int].num) && forall|j: int|
                    0 <= j < self@.pulls.len() && eligible(self@, #[trigger] self@.pulls[j], Lane::Auto)
                        && !seq_contains_num(picked@, self.pulls@[j].num) ==> ahead_of(
                        self@.pulls[bidx as int],
                        self@.pulls[j],
                    ),
                None => forall|j: int|
                    0 <= j < self@.pulls.len() ==> !(eligible(
                        self@,
                        #[trigger] self@.pulls[j],
                        Lane::Auto,
                    ) && !seq_contains_num(picked@, self.pulls@[j].num)),
            },
    {
        let mut best: Option<usize> = None;
        let mut i: usize = 0;
        while i < self.pulls.len()
            invariant
                i <= self.pulls.len(),
                match best {
                    Some(bidx) => 0 <= bidx < i && bidx < self@.pulls.len() && eligible(
                        self@,
                        self@.pulls[bidx as int],
                        Lane::Auto,
                    ) && !seq_contains_num(picked@, self.pulls@[bidx as int].num) && forall|j: int|
                        0 <= j < i && eligible(self@, #[trigger] self@.pulls[j], Lane::Auto)
                            && !seq_contains_num(picked@, self.pulls@[j].num) ==> ahead_of(
                            self@.pulls[bidx as int],
                            self@.pulls[j],
                        ),
                    None => forall|j: int|
                        0 <= j < i ==> !(eligible(self@, #[trigger] self@.pulls[j], Lane::Auto)
                            && !seq_contains_num(picked@, self.pulls@[j].num)),
                },
            decreases self.pulls.len() - i,
        {
            let elig = self.pulls[i].status == PullStatus::Approved && (self.treeclosed <= 0
                || self.pulls[i].priority > self.treeclosed) && !contains_num(
                picked,
                self.pulls[i].num,
            );
            if elig {
                best = match best {
                    None => Some(i),
                    Some(bidx) => {
                        if self.pulls[i].priority > self.pulls[bidx].priority || (
                        self.pulls[i].priority == self.pulls[bidx].priority
                            && self.pulls[i].approved_at < self.pulls[bidx].approved_at) {
                            Some(i)
                        } else {
                            Some(bidx)
                        }
                    },
                };
            }
            i = i + 1;
        }
        best
    }

    /// The index of the batch-tier queued pull request the auto-lane
    /// scheduler ranks first among those not yet picked, if any.
    fn best_eligible_rollup(&self, picked: &Vec<i32>) -> (r: Option<usize>)
        ensures
            match r {
                Some(bidx) => 0 <= bidx < self@.pulls.len() && eligible(
                    self@,
                    self@.pulls[bidx as int],
                    Lane::Auto,
                ) && self@.pulls[bidx as int].rollup > 0 && !seq_contains_num(
                    picked@,
                    self.pulls@[bidx as int].num,
                ),
                None => true,
            },
    {
        let mut best: Option<usize> = None;
        let mut i: usize = 0;
        while i < self.pulls.len()
            invariant
                i <= self.pulls.len(),
                match best {
                    Some(bidx) => 0 <= bidx < i && bidx < self@.pulls.len() && eligible(
                        self@,
                        self@.pulls[bidx as int],
                        Lane::Auto,
                    ) && self@.pulls[bidx as int].rollup > 0 && !seq_contains_num(
                        picked@,
                        self.pulls@[bidx as int].num,
                    ),
                    None => true,
                },
            decreases self.pulls.len() - i,
        {
            let elig = self.pulls[i].status == PullStatus::Approved && (self.treeclosed <= 0
                || self.pulls[i].priority > self.treeclosed) && self.pulls[i].rollup > 0
                && !contains_num(picked, self.pulls[i].num);
            if elig {
                best = match best {
                    None => Some(i),
                    Some(bidx) => {
                        if self.pulls[i].priority > self.pulls[bidx].priority || (
                        self.pulls[i].priority == self.pulls[bidx].priority
                            && self.pulls[i].approved_at < self.pulls[bidx].approved_at) {
                            Some(i)
                        } else {
                            Some(bidx)
                        }
                    },
                };
            }
            i = i + 1;
        }
        best
    }

    /// Retire the lane's attempt: every member moves to `st` and the slot
    /// frees. Internal to the transitions that end an attempt.
    fn finish_attempt(&mut self, lane: Lane, st: PullStatus)
        requires
            old(self).wf(),
            lane_attempt(old(self)@, lane) is Some,
            st != PullStatus::Testing,
            st != PullStatus::TryTesting,
        ensures
            final(self).wf(),
            final(self)@ == finish_effect(old(self)@, lane, st),
    {
        let ghost m0 = self@;
        let ghost target = finish_effect(m0, lane, st);
        let ts = if lane == Lane::Auto {
            PullStatus::Testing
        } else {
            PullStatus::TryTesting
        };
        let mut k: usize = 0;
        while k < self.pulls.len()
            invariant
                k <= self.pulls.len(),
                ts == testing_status(lane),
                target == finish_effect(m0, lane, st),
                self@.pulls.len() == m0.pulls.len(),
                self@.results == m0.results,
                self@.mergeable == m0.mergeable,
                self@.retry_log == m0.retry_log,
                self@.repo == m0.repo,
                self@.policy == m0.policy,
                self@.treeclosed == m0.treeclosed,
                self@.treeclosed_src == m0.treeclosed_src,
                self@.auto_attempt == m0.auto_attempt,
                self@.try_attempt == m0.try_attempt,
                forall|j: int| k <= j < m0.pulls.len() ==> self@.pulls[j] == m0.pulls[j],
                forall|j: int| 0 <= j < k ==> self@.pulls[j] == target.pulls[j],
            decreases self.pulls.len() - k,
    {
            let ghost pre = self@;
            if self.pulls[k].status == ts {
                let p = &mut self.pulls[k];
                p.status = st;
                proof {
                    assert(self@.pulls[k as int] =~= (PullModel {
                        status: st,
                        ..m0.pulls[k as int]
                    }));
                }
            }
            proof {
                assert(target.pulls[k as int] == (if m0.pulls[k as int].status == testing_status(
                    lane,
                ) {
                    PullModel { status: st, ..m0.pulls[k as int] }
                } else {
                    m0.pulls[k as int]
                }));
                assert(self@.pulls[k as int] == target.pulls[k as int]);
                assert forall|j: int|
                    0 <= j < m0.pulls.len() && j != k implies self@.pulls[j] == pre.pulls[j] by {
                    assert(self@.pulls[j] == self.pulls@[j].view());
                }
            }
            k = k + 1;
        }
        match lane {
            Lane::Auto => {
                self.auto_attempt = None;
            },
            Lane::Try => {
                self.try_attempt = None;
            },
        }
        proof {
            let target = finish_effect(m0, lane, st);
            assert(self@.pulls =~= target.pulls);
            assert(self@ =~= target);
            lemma_finish_preserves_inv(m0, lane, st);
        }
    }

    /// Consume a conflict signal from branch construction: the attempt is
    /// terminal, its members move to the lane's conflict status, and the
    /// slot frees. Ignored when no attempt is in flight on the lane.
    pub fn attempt_conflict(&mut self, lane: Lane) -> (applied: bool)
        requires
            old(self).wf(),
        ensures
            final(self).wf(),
            applied == lane_attempt(old(self)@, lane) is Some,
            applied ==> final(self)@ == finish_effect(old(self)@, lane, conflict_status(lane)),
            !applied ==> final(self)@ == old(self)@,
    {
        let busy = match lane {
            Lane::Auto => self.auto_attempt.is_some(),
            Lane::Try => self.try_attempt.is_some(),
        };
        if !busy {
            return false;
        }
        let st = if lane == Lane::Auto {
            PullStatus::Conflict
        } else {
            PullStatus::TryFailed
        };
        self.finish_attempt(lane, st);
        true
    }

    /// One supervisor pass over a lane: force the timeout transition when
    /// the attempt has outlived the configured timeout, even though no
    /// builder ever reported.
    pub fn tick_lane(&mut self, lane: Lane, now: i64) -> (timed_out: bool)
        requires
            old(self).wf(),
            now >= 0,
        ensures
            final(self).wf(),
            timed_out == timeout_due(old(self)@, lane, now as int),
            timed_out ==> final(self)@ == finish_effect(old(self)@, lane, timeout_status(lane)),
            !timed_out ==> final(self)@ == old(self)@,
    {
        let due = match lane {
            Lane::Auto => match &self.auto_attempt {
                Some(a) => now - a.started_at > self.policy.timeout as i64,
                None => false,
            },
            Lane::Try => match &self.try_attempt {
                Some(a) => now - a.started_at > self.policy.timeout as i64,
                None => false,
            },
        };
        if !due {
            return false;
        }
        let st = if lane == Lane::Auto {
            PullStatus::TimedOut
        } else {
            PullStatus::TryFailed
        };
        self.finish_attempt(lane, st);
        true
    }

    /// One supervisor tick over both lanes.
    pub fn tick(&mut self, now: i64)
        requires
            old(self).wf(),
            now >= 0,
        ensures
            final(self).wf(),
            final(self)@ == {
                let m1 = if timeout_due(old(self)@, Lane::Auto, now as int) {
                    finish_effect(old(self)@, Lane::Auto, timeout_status(Lane::Auto))
                } else {
                    old(self)@
                };
                if timeout_due(m1, Lane::Try, now as int) {
                    finish_effect(m1, Lane::Try, timeout_status(Lane::Try))
                } else {
                    m1
                }
            },
    {
        self.tick_lane(Lane::Auto, now);
        self.tick_lane(Lane::Try, now);
    }
}

/// The sequence with every occurrence of `num` removed, order kept.
pub open spec fn without(nums: Seq<int>, num: int) -> Seq<int>
    decreases nums.len(),
{
    if nums.len() == 0 {
        Seq::empty()
    } else if nums.last() == num {
        without(nums.drop_last(), num)
    } else {
        without(nums.drop_last(), num).push(nums.last())
    }
}

/// What removal keeps: exactly the other values, no longer, and still
/// duplicate-free.
proof fn lemma_without_props(nums: Seq<int>, num: int)
    ensures
        without(nums, num).len() <= nums.len(),
        forall|x: int| without(nums, num).contains(x) <==> (nums.contains(x) && x != num),
        (forall|i: int, j: int|
            0 <= i < nums.len() && 0 <= j < nums.len() && i != j ==> nums[i] != nums[j]) ==> (
        forall|i: int, j: int|
            0 <= i < without(nums, num).len() && 0 <= j < without(nums, num).len() && i != j
                ==> without(nums, num)[i] != without(nums, num)[j]),
    decreases nums.len(),
{
    let out = without(nums, num);
    if nums.len() == 0 {
        assert(forall|x: int| !out.contains(x) && !nums.contains(x));
    } else {
        let head = nums.drop_last();
        let sub = without(head, num);
        lemma_without_props(head, num);
        assert forall|x: int| out.contains(x) implies (nums.contains(x) && x != num) by {
            if nums.last() != num && x == nums.last() {
                assert(nums.contains(x)) by {
                    assert(nums[nums.len() - 1] == x);
                }
            } else {
                assert(sub.contains(x)) by {
                    let w = choose|w: int| 0 <= w < out.len() && out[w] == x;
                    if nums.last() != num && w == out.len() - 1 {
                    } else {
                        assert(sub[w] == x);
                    }
                }
                assert(head.contains(x));
                let w = choose|w: int| 0 <= w < head.len() && head[w] == x;
                assert(nums[w] == x);
            }
        }
        assert forall|x: int| nums.contains(x) && x != num implies out.contains(x) by {
            let w = choose|w: int| 0 <= w < nums.len() && nums[w] == x;
            if w < nums.len() - 1 {
                assert(head[w] == x);
                assert(head.contains(x));
                assert(sub.contains(x));
                let v = choose|v: int| 0 <= v < sub.len() && sub[v] == x;
                assert(out[v] == x);
            } else {
                assert(nums.last() == x);
                assert(out[out.len() - 1] == x);
            }
        }
        if forall|i: int, j: int|
            0 <= i < nums.len() && 0 <= j < nums.len() && i != j ==> nums[i] != nums[j] {
            assert(forall|i: int, j: int|
                0 <= i < head.len() && 0 <= j < head.len() && i != j ==> head[i] != head[j]);
            if nums.last() != num {
                assert(!head.contains(nums.last())) by {
                    if head.contains(nums.last()) {
                        let w = choose|w: int| 0 <= w < head.len() && head[w] == nums.last();
                        assert(nums[w] == nums[nums.len() - 1]);
                    }
                }
                assert(!sub.contains(nums.last()));
                assert forall|i: int, j: int|
                    0 <= i < out.len() && 0 <= j < out.len() && i != j implies out[i] != out[j] by {
                    if i < sub.len() && j < sub.len() {
                    } else if i == sub.len() {
                        if out[j] == nums.last() {
                            assert(sub[j] == nums.last());
                            assert(sub.contains(nums.last()));
                        }
                    } else {
                        if out[i] == nums.last() {
                            assert(sub[i] == nums.last());
                            assert(sub.contains(nums.last()));
                        }
                    }
                }
            }
        }
    }
}

/// Whether a push keeps the approval: the policy's status-based exemption
/// applies and the new head already carries an equivalent passing status.
pub open spec fn keeps_approval(m: StateModel, p: PullModel, exempt: bool) -> bool {
    (p.status == PullStatus::Approved || p.status == PullStatus::Testing)
        && m.policy.status_based_exemption && exempt
}

/// The lane attempt with one member removed; gone once empty.
pub open spec fn shrink_attempt(a: Option<AttemptModel>, num: int) -> Option<AttemptModel> {
    match a {
        Some(a) => {
            let ns = without(a.nums, num);
            if ns.len() == 0 {
                None
            } else {
                Some(AttemptModel { nums: ns, ..a })
            }
        },
        None => None,
    }
}

/// The state a push event leaves behind: the new head and base recorded,
/// any outstanding synthetic commit invalidated, the pull request dropped
/// from its in-flight attempt, and the approval cleared unless the
/// exemption fast-path applies. Stale build rows are retained.
pub open spec fn push_effect(
    m: StateModel,
    num: int,
    head: Seq<char>,
    base: Seq<char>,
    exempt: bool,
) -> StateModel {
    if !has_pull(m, num) {
        m
    } else {
        let i = pull_index(m, num);
        let p = m.pulls[i];
        let keep = keeps_approval(m, p, exempt);
        let p2 = PullModel {
            status: if keep {
                PullStatus::Approved
            } else {
                PullStatus::Pending
            },
            approved_by: if keep {
                p.approved_by
            } else {
                None
            },
            head_sha: Some(head),
            base_ref: Some(base),
            merge_sha: None,
            ..p
        };
        let auto2 = if p.status == PullStatus::Testing {
            shrink_attempt(m.auto_attempt, num)
        } else {
            m.auto_attempt
        };
        let try2 = if p.status == PullStatus::TryTesting {
            shrink_attempt(m.try_attempt, num)
        } else {
            m.try_attempt
        };
        StateModel { pulls: m.pulls.update(i, p2), auto_attempt: auto2, try_attempt: try2, ..m }
    }
}

impl RepoState {
    /// Push event: a new head commit arrived. Invalidates any outstanding
    /// attempt of the pull request and demands re-approval unless the
    /// policy's status-based exemption applies to the new head.
    pub fn push(&mut self, num: i32, head_sha: String, base_ref: String, exempt: bool) -> (applied:
        bool)
        requires
            old(self).wf(),
        ensures
            final(self).wf(),
            applied == has_pull(old(self)@, num as int),
            final(self)@ == push_effect(old(self)@, num as int, head_sha@, base_ref@, exempt),
    {
        let ghost m0 = self@;
        let i = match self.find_pull(num) {
            Some(i) => i,
            None => {
                return false;
            },
        };
        proof {
            lemma_pull_index_is(m0, i as int);
        }
        let st = self.pulls[i].status;
        let keep = (st == PullStatus::Approved || st == PullStatus::Testing)
            && self.policy.status_based_exemption && exempt;
        let p = &mut self.pulls[i];
        p.status = if keep {
            PullStatus::Approved
        } else {
            PullStatus::Pending
        };
        if !keep {
            p.approved_by = None;
        }
        p.head_sha = Some(head_sha);
        p.base_ref = Some(base_ref);
        p.merge_sha = None;
        if st == PullStatus::Testing {
            let shrunk = self.shrunk_lane(Lane::Auto, num);
            proof {
                assert(shrunk.deep_view() =~~= shrink_attempt(m0.auto_attempt, num as int));
            }
            self.auto_attempt = shrunk;
        } else if st == PullStatus::TryTesting {
            let shrunk = self.shrunk_lane(Lane::Try, num);
            proof {
                assert(shrunk.deep_view() =~~= shrink_attempt(m0.try_attempt, num as int));
            }
            self.try_attempt = shrunk;
        }
        proof {
            let target = push_effect(m0, num as int, head_sha@, base_ref@, exempt);
            assert(self@.pulls[i as int] =~= target.pulls[i as int]);
            assert(self@.pulls =~= target.pulls);
            assert(self@ =~= target);
            lemma_push_preserves_inv(m0, num as int, head_sha@, base_ref@, exempt);
        }
        true
    }

    /// The lane's attempt with one member removed; `None` once empty.
    /// Reads only; the caller stores the result.
    fn shrunk_lane(&self, lane: Lane, num: i32) -> (r: Option<Attempt>)
        ensures
            r.deep_view() == shrink_attempt(lane_attempt(self@, lane), num as int),
    {
        let att = match lane {
            Lane::Auto => &self.auto_attempt,
            Lane::Try => &self.try_attempt,
        };
        match att {
            None => None,
            Some(a) => {
                let ghost old_nums = a@.nums;
                let mut nv: Vec<i32> = Vec::new();
                let mut w: usize = 0;
                while w < a.nums.len()
                    invariant
                        w <= a.nums.len(),
                        old_nums == a@.nums,
                        old_nums.len() == a.nums@.len(),
                        forall|j: int| 0 <= j < old_nums.len() ==> old_nums[j] == a.nums@[j] as int,
                        Seq::new(nv@.len(), |x: int| nv@[x] as int) == without(
                            old_nums.subrange(0, w as int),
                            num as int,
                        ),
                    decreases a.nums.len() - w,
                {
                    let ghost pre = Seq::new(nv@.len(), |x: int| nv@[x] as int);
                    let ghost s1 = old_nums.subrange(0, w as int + 1);
                    proof {
                        assert(s1.drop_last() =~= old_nums.subrange(0, w as int));
                        assert(s1.last() == old_nums[w as int]);
                    }
                    if a.nums[w] != num {
                        nv.push(a.nums[w]);
                        proof {
                            assert(Seq::new(nv@.len(), |x: int| nv@[x] as int) =~= pre.push(
                                old_nums[w as int],
                            ));
                        }
                    }
                    w = w + 1;
                }
                proof {
                    assert(old_nums.subrange(0, old_nums.len() as int) =~= old_nums);
                }
                if nv.len() == 0 {
                    None
                } else {
                    Some(
                        Attempt {
                            nums: nv,
                            merge_sha: match &a.merge_sha {
                                Some(s) => Some(s.clone()),
                                None => None,
                            },
                            started_at: a.started_at,
                        },
                    )
                }
            },
        }
    }
}

/// Whether a result row with this key exists.
pub open spec fn has_res(rs: Seq<BuildResModel>, num: int, builder: Seq<char>) -> bool {
    exists|i: int| 0 <= i < rs.len() && rs[i].num == num && rs[i].builder == builder
}

/// The index of the result row with this key; meaningful when [`has_res`]
/// holds and the keys are unique.
pub open spec fn res_index(rs: Seq<BuildResModel>, num: int, builder: Seq<char>) -> int {
    choose|i: int| 0 <= i < rs.len() && rs[i].num == num && rs[i].builder == builder
}

/// The result relation with this row written: updated in place when its
/// key exists, appended otherwise.
pub open spec fn upsert_res(rs: Seq<BuildResModel>, row: BuildResModel) -> Seq<BuildResModel> {
    if has_res(rs, row.num, row.builder) {
        rs.update(res_index(rs, row.num, row.builder), row)
    } else {
        rs.push(row)
    }
}

/// The builder's verdict for the attempt identified by `sha`: the stored
/// row's verdict when it belongs to that attempt, pending when the row is
/// absent or stale.
pub open spec fn res_of(
    rs: Seq<BuildResModel>,
    num: int,
    sha: Seq<char>,
    b: Seq<char>,
) -> BuildStatus {
    if has_res(rs, num, b) {
        let r = rs[res_index(rs, num, b)];
        if r.merge_sha == sha {
            r.res
        } else {
            BuildStatus::Pending
        }
    } else {
        BuildStatus::Pending
    }
}

/// The builder set an attempt on this lane must hear from.
pub open spec fn expected_builders(p: PolicyModel, lane: Lane) -> Seq<Seq<char>> {
    if lane == Lane::Auto {
        p.builders
    } else {
        p.try_builders
    }
}

/// Whether some expected builder's verdict for the attempt is `v`.
pub open spec fn any_result(
    rs: Seq<BuildResModel>,
    num: int,
    sha: Seq<char>,
    bs: Seq<Seq<char>>,
    v: BuildStatus,
) -> bool {
    exists|i: int| 0 <= i < bs.len() && res_of(rs, num, sha, bs[i]) == v
}

/// Whether every expected builder has a non-pending verdict for the
/// attempt.
pub open spec fn all_reported(
    rs: Seq<BuildResModel>,
    num: int,
    sha: Seq<char>,
    bs: Seq<Seq<char>>,
) -> bool {
    forall|i: int| 0 <= i < bs.len() ==> res_of(rs, num, sha, #[trigger] bs[i]) != BuildStatus::Pending
}

/// Whether the attempt is complete: every expected builder reported, or an
/// authoritative interruption short-circuits the wait.
pub open spec fn attempt_done(
    rs: Seq<BuildResModel>,
    num: int,
    sha: Seq<char>,
    bs: Seq<Seq<char>>,
) -> bool {
    any_result(rs, num, sha, bs, BuildStatus::Interrupted) || all_reported(rs, num, sha, bs)
}

/// The single outcome a complete attempt folds to: an interruption wins,
/// then any failure, else success.
pub open spec fn attempt_outcome(
    rs: Seq<BuildResModel>,
    num: int,
    sha: Seq<char>,
    bs: Seq<Seq<char>>,
) -> BuildStatus {
    if any_result(rs, num, sha, bs, BuildStatus::Interrupted) {
        BuildStatus::Interrupted
    } else if any_result(rs, num, sha, bs, BuildStatus::Failure) {
        BuildStatus::Failure
    } else {
        BuildStatus::Success
    }
}

/// The terminal status an outcome forces: mirrored into the try lane's two
/// outcomes there, and, for a rollup batch that did not succeed, back to
/// `Approved` so the operator can bisect the batch.
pub open spec fn outcome_status(lane: Lane, batch: bool, outcome: BuildStatus) -> PullStatus {
    if lane == Lane::Try {
        if outcome == BuildStatus::Success {
            PullStatus::TrySucceeded
        } else {
            PullStatus::TryFailed
        }
    } else if batch && outcome != BuildStatus::Success {
        PullStatus::Approved
    } else if outcome == BuildStatus::Success {
        PullStatus::Success
    } else if outcome == BuildStatus::Interrupted {
        PullStatus::Interrupted
    } else {
        PullStatus::Failure
    }
}

/// The lane a pull request is in flight on, if any.
pub open spec fn pull_lane(p: PullModel) -> Option<Lane> {
    if p.status == PullStatus::Testing {
        Some(Lane::Auto)
    } else if p.status == PullStatus::TryTesting {
        Some(Lane::Try)
    } else {
        None
    }
}

/// Whether a result report touches live state: the pull request exists, is
/// in flight, and the report names its current synthetic commit.
pub open spec fn report_applies(m: StateModel, num: int, sha: Seq<char>) -> bool {
    &&& has_pull(m, num)
    &&& pull_lane(pull_of(m, num)) is Some
    &&& pull_of(m, num).merge_sha == Some(sha)
}

/// The state a build-result report leaves behind: ignored entirely when
/// stale, otherwise the row upserted and, once the attempt is complete,
/// exactly one terminal transition of the whole attempt.
pub open spec fn report_effect(
    m: StateModel,
    num: int,
    builder: Seq<char>,
    sha: Seq<char>,
    outcome: BuildStatus,
    url: Seq<char>,
) -> StateModel {
    if !report_applies(m, num, sha) {
        m
    } else {
        let lane = pull_lane(pull_of(m, num)).unwrap();
        let row = BuildResModel { repo: m.repo, num, builder, res: outcome, url, merge_sha: sha };
        let rs2 = upsert_res(m.results, row);
        let m1 = StateModel { results: rs2, ..m };
        let bs = expected_builders(m.policy, lane);
        if attempt_done(rs2, num, sha, bs) {
            let batch = lane_attempt(m, lane).unwrap().nums.len() > 1;
            finish_effect(m1, lane, outcome_status(lane, batch, attempt_outcome(rs2, num, sha, bs)))
        } else {
            m1
        }
    }
}

/// A pending row seeded for one expected builder when an attempt's branch
/// is constructed.
pub open spec fn pending_row(
    repo: Seq<char>,
    num: int,
    builder: Seq<char>,
    sha: Seq<char>,
) -> BuildResModel {
    BuildResModel {
        repo,
        num,
        builder,
        res: BuildStatus::Pending,
        url: Seq::<char>::empty(),
        merge_sha: sha,
    }
}

/// The result relation with one fresh pending row per expected builder.
pub open spec fn seed_rows(
    rs: Seq<BuildResModel>,
    repo: Seq<char>,
    num: int,
    bs: Seq<Seq<char>>,
    sha: Seq<char>,
) -> Seq<BuildResModel>
    decreases bs.len(),
{
    if bs.len() == 0 {
        rs
    } else {
        upsert_res(
            seed_rows(rs, repo, num, bs.drop_last(), sha),
            pending_row(repo, num, bs.last(), sha),
        )
    }
}

/// The state recording a constructed integration branch: the attempt and
/// its members carry the synthetic commit, and one pending row per
/// expected builder is seeded under the attempt's first member.
pub open spec fn built_effect(m: StateModel, lane: Lane, sha: Seq<char>) -> StateModel {
    match lane_attempt(m, lane) {
        Some(a) => {
            if a.merge_sha is None {
                let pulls2 = Seq::new(
                    m.pulls.len(),
                    |k: int|
                        if m.pulls[k].status == testing_status(lane) {
                            PullModel { merge_sha: Some(sha), ..m.pulls[k] }
                        } else {
                            m.pulls[k]
                        },
                );
                let rs2 = seed_rows(
                    m.results,
                    m.repo,
                    a.nums[0],
                    expected_builders(m.policy, lane),
                    sha,
                );
                let a2 = AttemptModel { merge_sha: Some(sha), ..a };
                if lane == Lane::Auto {
                    StateModel { pulls: pulls2, results: rs2, auto_attempt: Some(a2), ..m }
                } else {
                    StateModel { pulls: pulls2, results: rs2, try_attempt: Some(a2), ..m }
                }
            } else {
                m
            }
        },
        None => m,
    }
}

impl RepoState {
    /// The index of the result row with this key, if any.
    fn find_res(&self, num: i32, builder: &str) -> (r: Option<usize>)
        ensures
            match r {
                Some(j) => 0 <= j < self@.results.len() && self@.results[j as int].num == num as int
                    && self@.results[j as int].builder == builder@,
                None => !has_res(self@.results, num as int, builder@),
            },
    {
        let mut j: usize = 0;
        while j < self.results.len()
            invariant
                j <= self.results.len(),
                forall|k: int|
                    0 <= k < j ==> !((#[trigger] self@.results[k]).num == num as int
                        && self@.results[k].builder == builder@),
            decreases self.results.len() - j,
        {
            if self.results[j].num == num && str_eq(self.results[j].builder.as_str(), builder) {
                return Some(j);
            }
            j = j + 1;
        }
        proof {
            if has_res(self@.results, num as int, builder@) {
                let w = res_index(self@.results, num as int, builder@);
                assert(0 <= w < self@.results.len() && self@.results[w].num == num as int
                    && self@.results[w].builder == builder@);
            }
        }
        None
    }

    /// Write one result row: update in place when its key exists, append
    /// otherwise. Keys stay unique; nothing else moves.
    fn upsert_result(&mut self, row: BuildRes)
        requires
            results_unique(old(self)@.results),
        ensures
            results_unique(final(self)@.results),
            final(self)@ == (StateModel { results: upsert_res(old(self)@.results, row@), ..old(
                self,
            )@ }),
    {
        let ghost m0 = self@;
        let ghost rowm = row@;
        let r = self.find_res(row.num, row.builder.as_str());
        match r {
            Some(j) => {
                proof {
                    lemma_res_index_is(m0.results, j as int);
                    assert(res_index(m0.results, rowm.num, rowm.builder) == j as int);
                }
                self.results[j] = row;
                proof {
                    assert(self@.results =~= m0.results.update(j as int, rowm));
                    assert(self@ =~= (StateModel { results: upsert_res(m0.results, rowm), ..m0 }));
                    lemma_upsert_unique(m0.results, rowm);
                }
            },
            None => {
                self.results.push(row);
                proof {
                    assert(self@.results =~= m0.results.push(rowm));
                    assert(self@ =~= (StateModel { results: upsert_res(m0.results, rowm), ..m0 }));
                    lemma_upsert_unique(m0.results, rowm);
                }
            },
        }
    }

    /// The stored verdict of one builder for the attempt identified by
    /// `sha`: pending when the row is absent or stale.
    fn lookup_res(&self, num: i32, sha: &str, builder: &str) -> (r: BuildStatus)
        requires
            results_unique(self@.results),
        ensures
            r == res_of(self@.results, num as int, sha@, builder@),
    {
        match self.find_res(num, builder) {
            Some(j) => {
                proof {
                    lemma_res_index_is(self@.results, j as int);
                }
                if str_eq(self.results[j].merge_sha.as_str(), sha) {
                    self.results[j].res
                } else {
                    BuildStatus::Pending
                }
            },
            None => BuildStatus::Pending,
        }
    }

    /// Fold the stored verdicts of the lane's expected builders for the
    /// attempt identified by `sha`: any interruption, any failure, and
    /// whether every builder has reported.
    fn scan_results(&self, num: i32, sha: &String, lane: Lane) -> (r: (bool, bool, bool))
        requires
            results_unique(self@.results),
        ensures
            r.0 == any_result(
                self@.results,
                num as int,
                sha@,
                expected_builders(self@.policy, lane),
                BuildStatus::Interrupted,
            ),
            r.1 == any_result(
                self@.results,
                num as int,
                sha@,
                expected_builders(self@.policy, lane),
                BuildStatus::Failure,
            ),
            r.2 == all_reported(
                self@.results,
                num as int,
                sha@,
                expected_builders(self@.policy, lane),
            ),
    {
        let ghost bsv = expected_builders(self@.policy, lane);
        let n = if lane == Lane::Auto {
            self.policy.builders.len()
        } else {
            self.policy.try_builders.len()
        };
        let mut any_int = false;
        let mut any_fail = false;
        let mut all_rep = true;
        let mut i: usize = 0;
        while i < n
            invariant
                i <= n,
                bsv == expected_builders(self@.policy, lane),
                n == bsv.len(),
                results_unique(self@.results),
                any_int == (exists|j: int|
                    0 <= j < i && res_of(self@.results, num as int, sha@, #[trigger] bsv[j])
                        == BuildStatus::Interrupted),
                any_fail == (exists|j: int|
                    0 <= j < i && res_of(self@.results, num as int, sha@, #[trigger] bsv[j])
                        == BuildStatus::Failure),
                all_rep == (forall|j: int|
                    0 <= j < i ==> res_of(self@.results, num as int, sha@, #[trigger] bsv[j])
                        != BuildStatus::Pending),
            decreases n - i,
        {
            let b = if lane == Lane::Auto {
                &self.policy.builders[i]
            } else {
                &self.policy.try_builders[i]
            };
            proof {
                assert(b@ == bsv[i as int]);
            }
            let r = self.lookup_res(num, sha.as_str(), b.as_str());
            match r {
                BuildStatus::Interrupted => {
                    any_int = true;
                },
                BuildStatus::Failure => {
                    any_fail = true;
                },
                BuildStatus::Pending => {
                    all_rep = false;
                },
                BuildStatus::Success => {},
            }
            i = i + 1;
        }
        (any_int, any_fail, all_rep)
    }

    /// Aggregator entry point: one builder's report for one attempt.
    /// A report whose synthetic commit is not the pull request's current
    /// one is discarded without any state change; a live report is
    /// upserted, and the attempt folds to exactly one terminal transition
    /// once complete. Replays of a report are no-ops.
    pub fn report_build_result(
        &mut self,
        num: i32,
        builder: String,
        merge_sha: String,
        outcome: BuildStatus,
        url: String,
    ) -> (applied: bool)
        requires
            old(self).wf(),
        ensures
            final(self).wf(),
            applied == report_applies(old(self)@, num as int, merge_sha@),
            final(self)@ == report_effect(
                old(self)@,
                num as int,
                builder@,
                merge_sha@,
                outcome,
                url@,
            ),
    {
        let ghost m0 = self@;
        let i = match self.find_pull(num) {
            Some(i) => i,
            None => {
                return false;
            },
        };
        proof {
            lemma_pull_index_is(m0, i as int);
        }
        let lane = match self.pulls[i].status {
            PullStatus::Testing => Lane::Auto,
            PullStatus::TryTesting => Lane::Try,
            _ => {
                return false;
            },
        };
        if !opt_str_is(&self.pulls[i].merge_sha, merge_sha.as_str()) {
            return false;
        }
        let row = BuildRes {
            repo: self.repo.clone(),
            num,
            builder,
            res: outcome,
            url,
            merge_sha: merge_sha.clone(),
        };
        let ghost rowm = row@;
        self.upsert_result(row);
        let ghost m1 = self@;
        proof {
            assert(m1 == (StateModel { results: upsert_res(m0.results, rowm), ..m0 }));
            lemma_inv_results_only(m0, m1.results);
        }
        let (any_int, any_fail, all_rep) = self.scan_results(num, &merge_sha, lane);
        if any_int || all_rep {
            let batch = match (if lane == Lane::Auto {
                &self.auto_attempt
            } else {
                &self.try_attempt
            }) {
                Some(a) => a.nums.len() > 1,
                None => false,
            };
            let outcome2 = if any_int {
                BuildStatus::Interrupted
            } else if any_fail {
                BuildStatus::Failure
            } else {
                BuildStatus::Success
            };
            let st = if lane == Lane::Try {
                if outcome2 == BuildStatus::Success {
                    PullStatus::TrySucceeded
                } else {
                    PullStatus::TryFailed
                }
            } else if batch && outcome2 != BuildStatus::Success {
                PullStatus::Approved
            } else if outcome2 == BuildStatus::Success {
                PullStatus::Success
            } else if outcome2 == BuildStatus::Interrupted {
                PullStatus::Interrupted
            } else {
                PullStatus::Failure
            };
            proof {
                assert(lane_attempt(m1, lane) is Some);
                assert(st == outcome_status(
                    lane,
                    lane_attempt(m0, lane).unwrap().nums.len() > 1,
                    attempt_outcome(
                        m1.results,
                        num as int,
                        merge_sha@,
                        expected_builders(m0.policy, lane),
                    ),
                ));
            }
            self.finish_attempt(lane, st);
        }
        true
    }

    /// Record the synthetic commit an integration-branch construction
    /// returned for the lane's attempt, and seed one pending result row
    /// per expected builder. Ignored when no attempt awaits a branch.
    pub fn attempt_built(&mut self, lane: Lane, sha: String) -> (applied: bool)
        requires
            old(self).wf(),
        ensures
            final(self).wf(),
            applied == (lane_attempt(old(self)@, lane) matches Some(a) && a.merge_sha is None),
            final(self)@ == built_effect(old(self)@, lane, sha@),
    {
        let ghost m0 = self@;
        let mut ok = false;
        let mut leader: i32 = 0;
        match (if lane == Lane::Auto {
            &self.auto_attempt
        } else {
            &self.try_attempt
        }) {
            Some(a) => {
                if a.merge_sha.is_none() {
                    proof {
                        assert(lane_attempt(m0, lane) == Some(a@));
                        assert(1 <= a@.nums.len());
                    }
                    ok = true;
                    leader = a.nums[0];
                }
            },
            None => {},
        }
        if !ok {
            return false;
        }
        let ghost a = lane_attempt(m0, lane).unwrap();
        let ghost target = built_effect(m0, lane, sha@);
        // Stamp the members with the synthetic commit.
        let ts = if lane == Lane::Auto {
            PullStatus::Testing
        } else {
            PullStatus::TryTesting
        };
        let mut k: usize = 0;
        while k < self.pulls.len()
            invariant
                k <= self.pulls.len(),
                ts == testing_status(lane),
                target == built_effect(m0, lane, sha@),
                lane_attempt(m0, lane) == Some(a),
                a.merge_sha is None,
                self@.pulls.len() == m0.pulls.len(),
                self@.results == m0.results,
                self@.mergeable == m0.mergeable,
                self@.retry_log == m0.retry_log,
                self@.repo == m0.repo,
                self@.policy == m0.policy,
                self@.treeclosed == m0.treeclosed,
                self@.treeclosed_src == m0.treeclosed_src,
                self@.auto_attempt == m0.auto_attempt,
                self@.try_attempt == m0.try_attempt,
                forall|j: int| k <= j < m0.pulls.len() ==> self@.pulls[j] == m0.pulls[j],
                forall|j: int| 0 <= j < k ==> self@.pulls[j] == target.pulls[j],
            decreases self.pulls.len() - k,
        {
            let ghost pre = self@;
            if self.pulls[k].status == ts {
                let p = &mut self.pulls[k];
                p.merge_sha = Some(sha.clone());
                proof {
                    assert(self@.pulls[k as int] =~= (PullModel {
                        merge_sha: Some(sha@),
                        ..m0.pulls[k as int]
                    }));
                }
            }
            proof {
                assert(target.pulls[k as int] == (if m0.pulls[k as int].status == testing_status(
                    lane,
                ) {
                    PullModel { merge_sha: Some(sha@), ..m0.pulls[k as int] }
                } else {
                    m0.pulls[k as int]
                }));
                assert(self@.pulls[k as int] == target.pulls[k as int]);
                assert forall|j: int|
                    0 <= j < m0.pulls.len() && j != k implies self@.pulls[j] == pre.pulls[j] by {
                    assert(self@.pulls[j] == self.pulls@[j].view());
                }
            }
            k = k + 1;
        }
        // Seed one pending row per expected builder under the first member.
        let ghost bsv = expected_builders(m0.policy, lane);
        let ghost pulls_stamped = self@.pulls;
        let n = if lane == Lane::Auto {
            self.policy.builders.len()
        } else {
            self.policy.try_builders.len()
        };
        let mut w: usize = 0;
        while w < n
            invariant
                w <= n,
                bsv == expected_builders(self@.policy, lane),
                n == bsv.len(),
                leader as int == a.nums[0],
                self@.pulls == pulls_stamped,
                self@.mergeable == m0.mergeable,
                self@.retry_log == m0.retry_log,
                self@.repo == m0.repo,
                self@.policy == m0.policy,
                self@.treeclosed == m0.treeclosed,
                self@.treeclosed_src == m0.treeclosed_src,
                self@.auto_attempt == m0.auto_attempt,
                self@.try_attempt == m0.try_attempt,
                results_unique(self@.results),
                results_unique(m0.results) ==> self@.results == seed_rows(
                    m0.results,
                    m0.repo,
                    a.nums[0],
                    bsv.subrange(0, w as int),
                    sha@,
                ),
            decreases n - w,
        {
            let ghost pre_results = self@.results;
            let b = if lane == Lane::Auto {
                self.policy.builders[w].clone()
            } else {
                self.policy.try_builders[w].clone()
            };
            proof {
                assert(b@ == bsv[w as int]);
            }
            let row = BuildRes {
                repo: self.repo.clone(),
                num: leader,
                builder: b,
                res: BuildStatus::Pending,
                url: String::new(),
                merge_sha: sha.clone(),
            };
            let ghost rowm = row@;
            self.upsert_result(row);
            proof {
                assert(rowm =~= pending_row(m0.repo, a.nums[0], bsv[w as int], sha@));
                let s1 = bsv.subrange(0, w as int + 1);
                assert(s1.drop_last() =~= bsv.subrange(0, w as int));
                assert(s1.last() == bsv[w as int]);
                assert(seed_rows(m0.results, m0.repo, a.nums[0], s1, sha@) == upsert_res(
                    seed_rows(m0.results, m0.repo, a.nums[0], bsv.subrange(0, w as int), sha@),
                    pending_row(m0.repo, a.nums[0], bsv[w as int], sha@),
                ));
            }
            w = w + 1;
        }
        proof {
            assert(bsv.subrange(0, bsv.len() as int) =~= bsv);
        }
        // Record the commit on the attempt itself.
        match lane {
            Lane::Auto => {
                match &mut self.auto_attempt {
                    Some(at) => {
                        at.merge_sha = Some(sha);
                    },
                    None => {},
                }
            },
            Lane::Try => {
                match &mut self.try_attempt {
                    Some(at) => {
                        at.merge_sha = Some(sha);
                    },
                    None => {},
                }
            },
        }
        proof {
            assert(lane_attempt(self@, lane) matches Some(a2) && a2 =~= (AttemptModel {
                merge_sha: Some(sha@),
                ..a
            }));
            assert(self@ =~= target);
            lemma_built_preserves_inv(m0, lane, sha@);
        }
        true
    }
}

/// Whether a mergeability row for this number exists.
pub open spec fn has_mergeable(ms: Seq<MergeableModel>, num: int) -> bool {
    exists|i: int| 0 <= i < ms.len() && ms[i].num == num
}

/// The index of the mergeability row for this number.
pub open spec fn mergeable_index(ms: Seq<MergeableModel>, num: int) -> int {
    choose|i: int| 0 <= i < ms.len() && ms[i].num == num
}

/// The mergeability cache with this hint written.
pub open spec fn set_mergeable_effect(m: StateModel, num: int, flag: bool) -> StateModel {
    let row = MergeableModel { repo: m.repo, num, mergeable: flag };
    if has_mergeable(m.mergeable, num) {
        StateModel {
            mergeable: m.mergeable.update(mergeable_index(m.mergeable, num), row),
            ..m
        }
    } else {
        StateModel { mergeable: m.mergeable.push(row), ..m }
    }
}

/// The retry-log entries younger than the retention cutoff.
pub open spec fn kept_entries(log: Seq<RetryLogModel>, cutoff: int) -> Seq<RetryLogModel> {
    log.filter(|e: RetryLogModel| e.time >= cutoff)
}

impl RepoState {
    /// Cache the conflict-check hint for one pull request. A hint only:
    /// the actual merge attempt stays authoritative.
    pub fn set_mergeable(&mut self, num: i32, flag: bool)
        requires
            old(self).wf(),
        ensures
            final(self).wf(),
            final(self)@ == set_mergeable_effect(old(self)@, num as int, flag),
    {
        let ghost m0 = self@;
        let mut j: usize = 0;
        while j < self.mergeable.len()
            invariant
                j <= self.mergeable.len(),
                self@ == m0,
                old(self)@ == m0,
                inv(m0),
                forall|k: int| 0 <= k < j ==> (#[trigger] m0.mergeable[k]).num != num as int,
            decreases self.mergeable.len() - j,
        {
            if self.mergeable[j].num == num {
                proof {
                    assert(m0.mergeable[j as int].num == num as int);
                }
                self.mergeable[j] = Mergeable { repo: self.repo.clone(), num, mergeable: flag };
                proof {
                    assert(has_mergeable(m0.mergeable, num as int));
                    let w = mergeable_index(m0.mergeable, num as int);
                    assert(0 <= w < m0.mergeable.len() && m0.mergeable[w].num == num as int);
                    if w != j {
                        assert(!(m0.mergeable[w].num == m0.mergeable[j as int].num));
                    }
                    assert(w == j);
                    assert forall|aa: int, bb: int|
                        0 <= aa < self@.mergeable.len() && 0 <= bb < self@.mergeable.len() && aa
                            != bb implies (#[trigger] self@.mergeable[aa]).num
                        != (#[trigger] self@.mergeable[bb]).num by {
                        assert(self@.mergeable[aa].num == m0.mergeable[aa].num);
                        assert(self@.mergeable[bb].num == m0.mergeable[bb].num);
                    }
                    assert(self@.mergeable =~= m0.mergeable.update(
                        j as int,
                        MergeableModel { repo: m0.repo, num: num as int, mergeable: flag },
                    ));
                    assert(self@ =~= set_mergeable_effect(m0, num as int, flag));
                    lemma_mergeable_only_preserves_inv(m0, self@.mergeable);
                }
                return ;
            }
            j = j + 1;
        }
        self.mergeable.push(Mergeable { repo: self.repo.clone(), num, mergeable: flag });
        proof {
            if has_mergeable(m0.mergeable, num as int) {
                let w = mergeable_index(m0.mergeable, num as int);
                assert(0 <= w < m0.mergeable.len() && m0.mergeable[w].num == num as int);
            }
            assert(self@.mergeable =~= m0.mergeable.push(
                MergeableModel { repo: m0.repo, num: num as int, mergeable: flag },
            ));
            assert(self@ =~= set_mergeable_effect(m0, num as int, flag));
            assert forall|a: int, b: int|
                0 <= a < self@.mergeable.len() && 0 <= b < self@.mergeable.len() && a
                    != b implies (#[trigger] self@.mergeable[a]).num
                != (#[trigger] self@.mergeable[b]).num by {
                if a < m0.mergeable.len() && b < m0.mergeable.len() {
                } else if a == m0.mergeable.len() {
                    assert(m0.mergeable[b].num != num as int);
                } else {
                    assert(m0.mergeable[a].num != num as int);
                }
            }
            lemma_mergeable_only_preserves_inv(m0, self@.mergeable);
        }
    }

    /// The cached conflict-check hint for one pull request, if any.
    pub fn is_mergeable(&self, num: i32) -> (r: Option<bool>)
        requires
            self.wf(),
        ensures
            match r {
                Some(f) => has_mergeable(self@.mergeable, num as int) && self@.mergeable[
                    mergeable_index(self@.mergeable, num as int)
                ].mergeable == f,
                None => !has_mergeable(self@.mergeable, num as int),
            },
    {
        let mut j: usize = 0;
        while j < self.mergeable.len()
            invariant
                j <= self.mergeable.len(),
                self.wf(),
                forall|k: int| 0 <= k < j ==> (#[trigger] self@.mergeable[k]).num != num as int,
            decreases self.mergeable.len() - j,
        {
            if self.mergeable[j].num == num {
                proof {
                    assert(self@.mergeable[j as int].num == num as int);
                    assert(has_mergeable(self@.mergeable, num as int));
                    let w = mergeable_index(self@.mergeable, num as int);
                    assert(0 <= w < self@.mergeable.len() && self@.mergeable[w].num == num as int);
                    if w != j {
                        assert(self@.mergeable[w].num != self@.mergeable[j as int].num);
                    }
                }
                return Some(self.mergeable[j].mergeable);
            }
            j = j + 1;
        }
        proof {
            if has_mergeable(self@.mergeable, num as int) {
                let w = mergeable_index(self@.mergeable, num as int);
                assert(0 <= w < self@.mergeable.len() && self@.mergeable[w].num == num as int);
            }
        }
        None
    }

    /// Prune the audit trail: keep exactly the entries younger than the
    /// retention cutoff, oldest-first order preserved.
    pub fn prune_retry_log(&mut self, cutoff: i64)
        requires
            old(self).wf(),
        ensures
            final(self).wf(),
            final(self)@ == (StateModel {
                retry_log: kept_entries(old(self)@.retry_log, cutoff as int),
                ..old(self)@
            }),
    {
        let ghost m0 = self@;
        let mut rest: Vec<RetryLog> = Vec::new();
        core::mem::swap(&mut self.retry_log, &mut rest);
        let ghost orig = rest.deep_view();
        proof {
            assert(orig == m0.retry_log);
            assert(self@.retry_log =~= Seq::<RetryLogModel>::empty());
            assert(orig.subrange(0, 0) =~= Seq::<RetryLogModel>::empty());
            assert(kept_entries(orig.subrange(0, 0), cutoff as int) =~= Seq::<
                RetryLogModel,
            >::empty()) by {
                reveal(Seq::<_>::filter);
            }
        }
        while rest.len() > 0
            invariant
                orig == m0.retry_log,
                rest.deep_view().len() <= orig.len(),
                rest.deep_view() == orig.subrange(
                    orig.len() - rest.deep_view().len(),
                    orig.len() as int,
                ),
                self@.retry_log == kept_entries(
                    orig.subrange(0, orig.len() - rest.deep_view().len()),
                    cutoff as int,
                ),
                self@.pulls == m0.pulls,
                self@.results == m0.results,
                self@.mergeable == m0.mergeable,
                self@.repo == m0.repo,
                self@.policy == m0.policy,
                self@.treeclosed == m0.treeclosed,
                self@.treeclosed_src == m0.treeclosed_src,
                self@.auto_attempt == m0.auto_attempt,
                self@.try_attempt == m0.try_attempt,
            decreases rest.len(),
        {
            let ghost pre_vec = rest@;
            let ghost pre_rest = rest.deep_view();
            let ghost done = orig.len() - pre_rest.len();
            let e = rest.remove(0);
            proof {
                assert(pre_rest == orig.subrange(done, orig.len() as int));
                assert(rest@ =~= pre_vec.subrange(1, pre_vec.len() as int));
                assert forall|x: int| 0 <= x < rest.deep_view().len() implies rest.deep_view()[x]
                    == pre_rest[x + 1] by {
                    assert(rest@[x] == pre_vec[x + 1]);
                }
                assert(rest.deep_view() =~= orig.subrange(done + 1, orig.len() as int));
                assert(e == pre_vec[0]);
                assert(e@ == pre_rest[0]);
                assert(e@ == orig[done]);
                let s1 = orig.subrange(0, done + 1);
                assert(s1.drop_last() =~= orig.subrange(0, done));
                assert(s1.last() == orig[done]);
                reveal(Seq::<_>::filter);
                assert(kept_entries(s1, cutoff as int) == if orig[done].time >= cutoff as int {
                    kept_entries(orig.subrange(0, done), cutoff as int).push(orig[done])
                } else {
                    kept_entries(orig.subrange(0, done), cutoff as int)
                });
            }
            if e.time >= cutoff {
                let ghost pre = self@.retry_log;
                self.retry_log.push(e);
                proof {
                    assert(self@.retry_log =~= pre.push(orig[done]));
                }
            }
        }
        proof {
            assert(orig.subrange(0, orig.len() as int) =~= orig);
            assert(self@ =~= (StateModel {
                retry_log: kept_entries(m0.retry_log, cutoff as int),
                ..m0
            }));
            lemma_attempt_ok_same_pulls(
                m0,
                StateModel { retry_log: kept_entries(m0.retry_log, cutoff as int), ..m0 },
                Lane::Auto,
            );
            lemma_attempt_ok_same_pulls(
                m0,
                StateModel { retry_log: kept_entries(m0.retry_log, cutoff as int), ..m0 },
                Lane::Try,
            );
        }
    }
}

/// Changing only the mergeability cache, keys kept unique, preserves the
/// engine invariant.
proof fn lemma_mergeable_only_preserves_inv(m: StateModel, ms: Seq<MergeableModel>)
    requires
        inv(m),
        mergeable_unique(ms),
    ensures
        inv(StateModel { mergeable: ms, ..m }),
{
    let m2 = StateModel { mergeable: ms, ..m };
    lemma_attempt_ok_same_pulls(m, m2, Lane::Auto);
    lemma_attempt_ok_same_pulls(m, m2, Lane::Try);
}

/// The chosen result index of a key on record is the index that holds it.
pub(crate) proof fn lemma_res_index_is(rs: Seq<BuildResModel>, j: int)
    requires
        results_unique(rs),
        0 <= j < rs.len(),
    ensures
        has_res(rs, rs[j].num, rs[j].builder),
        res_index(rs, rs[j].num, rs[j].builder) == j,
{
    assert(has_res(rs, rs[j].num, rs[j].builder));
    let w = res_index(rs, rs[j].num, rs[j].builder);
    assert(0 <= w < rs.len() && rs[w].num == rs[j].num && rs[w].builder == rs[j].builder);
    if w != j {
        assert(!(rs[w].num == rs[j].num && rs[w].builder == rs[j].builder));
    }
}

/// What an upsert guarantees: keys stay unique, the written row is at its
/// key, and every other key keeps its row.
pub(crate) proof fn lemma_upsert_unique(rs: Seq<BuildResModel>, row: BuildResModel)
    requires
        results_unique(rs),
    ensures
        results_unique(upsert_res(rs, row)),
        has_res(upsert_res(rs, row), row.num, row.builder),
        upsert_res(rs, row)[res_index(upsert_res(rs, row), row.num, row.builder)] == row,
{
    let out = upsert_res(rs, row);
    if has_res(rs, row.num, row.builder) {
        let j = res_index(rs, row.num, row.builder);
        assert(0 <= j < rs.len() && rs[j].num == row.num && rs[j].builder == row.builder);
        assert forall|a: int, b: int|
            0 <= a < out.len() && 0 <= b < out.len() && a != b implies !((#[trigger] out[a]).num
            == (#[trigger] out[b]).num && out[a].builder == out[b].builder) by {
            if a != j && b != j {
                assert(out[a] == rs[a] && out[b] == rs[b]);
            } else if a == j {
                assert(out[b] == rs[b]);
                assert(!(rs[j].num == rs[b].num && rs[j].builder == rs[b].builder));
            } else {
                assert(out[a] == rs[a]);
                assert(!(rs[a].num == rs[j].num && rs[a].builder == rs[j].builder));
            }
        }
        assert(out[j] == row);
        lemma_res_index_is(out, j);
    } else {
        let j = rs.len() as int;
        assert(out[j] == row);
        assert forall|a: int, b: int|
            0 <= a < out.len() && 0 <= b < out.len() && a != b implies !((#[trigger] out[a]).num
            == (#[trigger] out[b]).num && out[a].builder == out[b].builder) by {
            if a < j && b < j {
                assert(out[a] == rs[a] && out[b] == rs[b]);
            } else if a == j {
                assert(out[b] == rs[b]);
                assert(!(rs[b].num == row.num && rs[b].builder == row.builder));
            } else {
                assert(out[a] == rs[a]);
                assert(!(rs[a].num == row.num && rs[a].builder == row.builder));
            }
        }
        lemma_res_index_is(out, j);
    }
}

/// Seeding pending rows keeps result keys unique.
proof fn lemma_seed_unique(
    rs: Seq<BuildResModel>,
    repo: Seq<char>,
    num: int,
    bs: Seq<Seq<char>>,
    sha: Seq<char>,
)
    requires
        results_unique(rs),
    ensures
        results_unique(seed_rows(rs, repo, num, bs, sha)),
    decreases bs.len(),
{
    if bs.len() > 0 {
        lemma_seed_unique(rs, repo, num, bs.drop_last(), sha);
        lemma_upsert_unique(
            seed_rows(rs, repo, num, bs.drop_last(), sha),
            pending_row(repo, num, bs.last(), sha),
        );
    }
}

/// Changing only the result relation, keys kept unique, preserves the
/// engine invariant.
pub(crate) proof fn lemma_inv_results_only(m: StateModel, rs: Seq<BuildResModel>)
    requires
        inv(m),
        results_unique(rs),
    ensures
        inv(StateModel { results: rs, ..m }),
{
    let m2 = StateModel { results: rs, ..m };
    lemma_attempt_ok_same_pulls(m, m2, Lane::Auto);
    lemma_attempt_ok_same_pulls(m, m2, Lane::Try);
}

/// The lane invariant depends only on the pull requests, the lane's
/// attempt and the policy.
proof fn lemma_attempt_ok_same_pulls(m: StateModel, m2: StateModel, lane: Lane)
    requires
        attempt_ok(m, lane),
        m2.pulls == m.pulls,
        m2.policy == m.policy,
        lane_attempt(m2, lane) == lane_attempt(m, lane),
    ensures
        attempt_ok(m2, lane),
{
    match lane_attempt(m, lane) {
        Some(a) => {
            assert forall|i: int| 0 <= i < a.nums.len() implies has_pull(m2, #[trigger] a.nums[i]) by {
                let k = pull_index(m, a.nums[i]);
                assert(0 <= k < m.pulls.len() && m.pulls[k].num == a.nums[i]);
                assert(m2.pulls[k].num == a.nums[i]);
            }
        },
        None => {},
    }
}

/// Recording a constructed branch preserves the engine invariant.
proof fn lemma_built_preserves_inv(m: StateModel, lane: Lane, sha: Seq<char>)
    requires
        inv(m),
    ensures
        inv(built_effect(m, lane, sha)),
{
    match lane_attempt(m, lane) {
        Some(a) => {
            if a.merge_sha is None {
                let m2 = built_effect(m, lane, sha);
                let a2 = AttemptModel { merge_sha: Some(sha), ..a };
                lemma_seed_unique(m.results, m.repo, a.nums[0], expected_builders(m.policy, lane), sha);
                assert(lane_attempt(m2, lane) == Some(a2));
                assert(lane_attempt(m2, other_lane(lane)) == lane_attempt(m, other_lane(lane)));
                assert(m2.pulls.len() == m.pulls.len());
                assert forall|k: int|
                    0 <= k < m2.pulls.len() implies (#[trigger] m2.pulls[k]).num == m.pulls[k].num
                    && m2.pulls[k].status == m.pulls[k].status by {}
                assert forall|i: int| 0 <= i < a2.nums.len() implies has_pull(
                    m2,
                    #[trigger] a2.nums[i],
                ) by {
                    let k = pull_index(m, a.nums[i]);
                    assert(0 <= k < m.pulls.len() && m.pulls[k].num == a.nums[i]);
                    assert(m2.pulls[k].num == a.nums[i]);
                }
                assert forall|k: int|
                    0 <= k < m2.pulls.len() && a2.nums.contains(
                        (#[trigger] m2.pulls[k]).num,
                    ) implies m2.pulls[k].merge_sha == a2.merge_sha by {
                    assert(m.pulls[k].status == testing_status(lane));
                }
                assert(attempt_ok(m2, lane));
                let ol = other_lane(lane);
                match lane_attempt(m, ol) {
                    Some(b) => {
                        assert forall|i: int| 0 <= i < b.nums.len() implies has_pull(
                            m2,
                            #[trigger] b.nums[i],
                        ) by {
                            let k = pull_index(m, b.nums[i]);
                            assert(0 <= k < m.pulls.len() && m.pulls[k].num == b.nums[i]);
                            assert(m2.pulls[k].num == b.nums[i]);
                        }
                        assert forall|k: int|
                            0 <= k < m2.pulls.len() && b.nums.contains(
                                (#[trigger] m2.pulls[k]).num,
                            ) implies m2.pulls[k].merge_sha == b.merge_sha by {
                            assert(m.pulls[k].status == testing_status(ol));
                            assert(testing_status(ol) != testing_status(lane));
                            assert(m2.pulls[k] == m.pulls[k]);
                        }
                        assert(attempt_ok(m2, ol));
                    },
                    None => {
                        assert(attempt_ok(m2, ol));
                    },
                }
            }
        },
        None => {},
    }
}

/// A push event preserves the engine invariant.
proof fn lemma_push_preserves_inv(
    m: StateModel,
    num: int,
    head: Seq<char>,
    base: Seq<char>,
    exempt: bool,
)
    requires
        inv(m),
    ensures
        inv(push_effect(m, num, head, base, exempt)),
{
    if has_pull(m, num) {
        let m2 = push_effect(m, num, head, base, exempt);
        let i = pull_index(m, num);
        let p = m.pulls[i];
        let p2 = m2.pulls[i];
        assert(0 <= i < m.pulls.len() && p.num == num);
        assert(p2.status != PullStatus::Testing && p2.status != PullStatus::TryTesting);
        lemma_push_lane(m, num, head, base, exempt, Lane::Auto);
        lemma_push_lane(m, num, head, base, exempt, Lane::Try);
    }
}

proof fn lemma_push_lane(
    m: StateModel,
    num: int,
    head: Seq<char>,
    base: Seq<char>,
    exempt: bool,
    lane: Lane,
)
    requires
        inv(m),
        has_pull(m, num),
    ensures
        attempt_ok(push_effect(m, num, head, base, exempt), lane),
{
    let m2 = push_effect(m, num, head, base, exempt);
    let i = pull_index(m, num);
    let p = m.pulls[i];
    assert(0 <= i < m.pulls.len() && p.num == num);
    if p.status != testing_status(lane) {
        // The pull request was not in flight on this lane; its attempt is
        // untouched and the pull request stays outside it.
        assert(lane_attempt(m2, lane) == lane_attempt(m, lane));
        match lane_attempt(m, lane) {
            Some(a) => {
                assert(!a.nums.contains(p.num));
                assert forall|w: int| 0 <= w < a.nums.len() implies has_pull(
                    m2,
                    #[trigger] a.nums[w],
                ) by {
                    let k = pull_index(m, a.nums[w]);
                    assert(0 <= k < m.pulls.len() && m.pulls[k].num == a.nums[w]);
                    assert(m2.pulls[k].num == a.nums[w]);
                }
                assert forall|k: int|
                    0 <= k < m2.pulls.len() implies ((#[trigger] m2.pulls[k]).status
                    == testing_status(lane) <==> a.nums.contains(m2.pulls[k].num)) by {
                    if k != i {
                        assert(m2.pulls[k] == m.pulls[k]);
                    }
                }
                assert(attempt_ok(m2, lane));
            },
            None => {
                assert forall|k: int|
                    0 <= k < m2.pulls.len() implies (#[trigger] m2.pulls[k]).status
                    != testing_status(lane) by {
                    if k != i {
                        assert(m2.pulls[k] == m.pulls[k]);
                    }
                }
                assert(attempt_ok(m2, lane));
            },
        }
    } else {
        // The pull request was in flight here: it leaves the attempt.
        let a = lane_attempt(m, lane).unwrap();
        assert(lane_attempt(m, lane) is Some);
        assert(a.nums.contains(num));
        let ns = without(a.nums, num);
        lemma_without_props(a.nums, num);
        assert(lane_attempt(m2, lane) == shrink_attempt(lane_attempt(m, lane), num));
        if ns.len() == 0 {
            assert(lane_attempt(m2, lane) is None);
            assert forall|k: int|
                0 <= k < m2.pulls.len() implies (#[trigger] m2.pulls[k]).status != testing_status(
                lane,
            ) by {
                if k != i {
                    assert(m2.pulls[k] == m.pulls[k]);
                    if m.pulls[k].status == testing_status(lane) {
                        assert(a.nums.contains(m.pulls[k].num));
                        assert(m.pulls[k].num != num);
                        assert(ns.contains(m.pulls[k].num));
                    }
                }
            }
            assert(attempt_ok(m2, lane));
        } else {
            let a2 = AttemptModel { nums: ns, ..a };
            assert(lane_attempt(m2, lane) == Some(a2));
            if lane == Lane::Try {
                assert(a.nums.len() == 1);
                assert(ns.contains(ns[0]));
                assert(a.nums.contains(ns[0]) && ns[0] != num);
                let w = choose|w: int| 0 <= w < a.nums.len() && a.nums[w] == ns[0];
                assert(a.nums[0] == num);
                assert(false);
            }
            assert forall|w: int| 0 <= w < ns.len() implies has_pull(m2, #[trigger] ns[w]) by {
                assert(ns.contains(ns[w]));
                assert(a.nums.contains(ns[w]));
                let k = pull_index(m, ns[w]);
                assert(0 <= k < m.pulls.len() && m.pulls[k].num == ns[w]);
                assert(m2.pulls[k].num == ns[w]);
            }
            assert forall|k: int|
                0 <= k < m2.pulls.len() implies ((#[trigger] m2.pulls[k]).status == testing_status(
                lane,
            ) <==> ns.contains(m2.pulls[k].num)) by {
                if k == i {
                    assert(!ns.contains(num));
                } else {
                    assert(m2.pulls[k] == m.pulls[k]);
                    if m.pulls[k].status == testing_status(lane) {
                        assert(a.nums.contains(m.pulls[k].num));
                        assert(m.pulls[k].num != num);
                    }
                    if ns.contains(m.pulls[k].num) {
                        assert(a.nums.contains(m.pulls[k].num));
                    }
                }
            }
            assert forall|k: int|
                0 <= k < m2.pulls.len() && ns.contains(
                    (#[trigger] m2.pulls[k]).num,
                ) implies m2.pulls[k].merge_sha == a2.merge_sha by {
                assert(k != i);
                assert(m2.pulls[k] == m.pulls[k]);
                assert(a.nums.contains(m.pulls[k].num));
            }
            assert(attempt_ok(m2, lane));
        }
    }
}

/// Granting one rollup batch of queued pull requests on a free auto lane
/// preserves the engine invariant.
proof fn lemma_batch_grant_preserves_inv(m: StateModel, nums: Seq<int>, now: int)
    requires
        inv(m),
        m.auto_attempt is None,
        now >= 0,
        1 <= nums.len() <= max_batch(m.policy),
        forall|a: int, c: int|
            0 <= a < nums.len() && 0 <= c < nums.len() && a != c ==> nums[a] != nums[c],
        forall|a: int|
            0 <= a < nums.len() ==> has_pull(m, #[trigger] nums[a]) && pull_of(m, nums[a]).status
                == PullStatus::Approved,
    ensures
        inv(batch_grant_effect(m, nums, now)),
{
    let m2 = batch_grant_effect(m, nums, now);
    let a = AttemptModel { nums, merge_sha: None, started_at: now };
    assert(lane_attempt(m2, Lane::Auto) == Some(a));
    assert(lane_attempt(m2, Lane::Try) == m.try_attempt);
    assert(m2.pulls.len() == m.pulls.len());
    assert forall|k: int|
        0 <= k < m2.pulls.len() implies (#[trigger] m2.pulls[k]).num == m.pulls[k].num by {}
    assert forall|w: int| 0 <= w < a.nums.len() implies has_pull(m2, #[trigger] a.nums[w]) by {
        let k = pull_index(m, a.nums[w]);
        assert(0 <= k < m.pulls.len() && m.pulls[k].num == a.nums[w]);
        assert(m2.pulls[k].num == a.nums[w]);
    }
    assert forall|k: int|
        0 <= k < m2.pulls.len() implies ((#[trigger] m2.pulls[k]).status == PullStatus::Testing
        <==> a.nums.contains(m2.pulls[k].num)) by {
        if nums.contains(m.pulls[k].num) {
        } else {
            assert(m2.pulls[k] == m.pulls[k]);
            assert(m.pulls[k].status != PullStatus::Testing);
        }
    }
    assert forall|k: int|
        0 <= k < m2.pulls.len() && a.nums.contains((#[trigger] m2.pulls[k]).num) implies m2.pulls[
        k
    ].merge_sha == a.merge_sha by {}
    assert(attempt_ok(m2, Lane::Auto));
    match m.try_attempt {
        Some(b) => {
            assert forall|w: int| 0 <= w < b.nums.len() implies has_pull(m2, #[trigger] b.nums[w]) by {
                let k = pull_index(m, b.nums[w]);
                assert(0 <= k < m.pulls.len() && m.pulls[k].num == b.nums[w]);
                assert(m2.pulls[k].num == b.nums[w]);
            }
            assert forall|k: int|
                0 <= k < m2.pulls.len() implies ((#[trigger] m2.pulls[k]).status
                == PullStatus::TryTesting <==> b.nums.contains(m2.pulls[k].num)) by {
                if nums.contains(m.pulls[k].num) {
                    assert(m.pulls[k].status == PullStatus::Approved) by {
                        let w = choose|w: int| 0 <= w < nums.len() && nums[w] == m.pulls[k].num;
                        assert(pull_of(m, nums[w]).status == PullStatus::Approved);
                        lemma_pull_index_is(m, k);
                    }
                    assert(!b.nums.contains(m.pulls[k].num));
                    assert(m2.pulls[k].status == PullStatus::Testing);
                } else {
                    assert(m2.pulls[k] == m.pulls[k]);
                }
            }
            assert forall|k: int|
                0 <= k < m2.pulls.len() && b.nums.contains(
                    (#[trigger] m2.pulls[k]).num,
                ) implies m2.pulls[k].merge_sha == b.merge_sha by {
                assert(m.pulls[k].status == PullStatus::TryTesting);
                if nums.contains(m.pulls[k].num) {
                    let w = choose|w: int| 0 <= w < nums.len() && nums[w] == m.pulls[k].num;
                    assert(pull_of(m, nums[w]).status == PullStatus::Approved);
                    lemma_pull_index_is(m, k);
                    assert(false);
                }
                assert(m2.pulls[k] == m.pulls[k]);
            }
            assert(attempt_ok(m2, Lane::Try));
        },
        None => {
            assert forall|k: int|
                0 <= k < m2.pulls.len() implies (#[trigger] m2.pulls[k]).status
                != PullStatus::TryTesting by {
                if !nums.contains(m.pulls[k].num) {
                    assert(m2.pulls[k] == m.pulls[k]);
                }
            }
            assert(attempt_ok(m2, Lane::Try));
        },
    }
}

/// Granting a slot to a queued, eligible pull request on a free lane
/// preserves the engine invariant.
proof fn lemma_grant_preserves_inv(m: StateModel, num: int, lane: Lane, now: int)
    requires
        inv(m),
        has_pull(m, num),
        pull_of(m, num).status == queued_status(lane),
        lane_attempt(m, lane) is None,
        now >= 0,
    ensures
        inv(grant_effect(m, num, lane, now)),
{
    let m2 = grant_effect(m, num, lane, now);
    let i = pull_index(m, num);
    let a = AttemptModel { nums: seq![num], merge_sha: None, started_at: now };
    assert(0 <= i < m.pulls.len() && m.pulls[i].num == num);
    assert(lane_attempt(m2, lane) == Some(a));
    assert(lane_attempt(m2, other_lane(lane)) == lane_attempt(m, other_lane(lane)));
    assert forall|k: int|
        0 <= k < m2.pulls.len() implies ((#[trigger] m2.pulls[k]).status == testing_status(lane)
        <==> a.nums.contains(m2.pulls[k].num)) by {
        if k == i {
            assert(a.nums[0] == num);
            assert(a.nums.contains(num));
        } else {
            assert(m2.pulls[k] == m.pulls[k]);
            assert(m.pulls[k].status != testing_status(lane));
            if a.nums.contains(m.pulls[k].num) {
                assert(m.pulls[k].num == num);
                assert(m.pulls[k].num != m.pulls[i].num);
            }
        }
    }
    assert forall|w: int| 0 <= w < a.nums.len() implies has_pull(m2, #[trigger] a.nums[w]) by {
        assert(m2.pulls[i].num == num);
    }
    assert(attempt_ok(m2, lane));
    let ol = other_lane(lane);
    match lane_attempt(m, ol) {
        Some(b) => {
            assert(!b.nums.contains(m.pulls[i].num));
            assert forall|w: int| 0 <= w < b.nums.len() implies has_pull(m2, #[trigger] b.nums[w]) by {
                let k = pull_index(m, b.nums[w]);
                assert(0 <= k < m.pulls.len() && m.pulls[k].num == b.nums[w]);
                assert(m2.pulls[k].num == b.nums[w]);
            }
            assert forall|k: int|
                0 <= k < m2.pulls.len() implies ((#[trigger] m2.pulls[k]).status == testing_status(
                ol,
            ) <==> b.nums.contains(m2.pulls[k].num)) by {
                if k != i {
                    assert(m2.pulls[k] == m.pulls[k]);
                } else {
                    assert(testing_status(lane) != testing_status(ol));
                }
            }
            assert(attempt_ok(m2, ol));
        },
        None => {
            assert forall|k: int|
                0 <= k < m2.pulls.len() implies (#[trigger] m2.pulls[k]).status != testing_status(
                ol,
            ) by {
                if k != i {
                    assert(m2.pulls[k] == m.pulls[k]);
                } else {
                    assert(testing_status(lane) != testing_status(ol));
                }
            }
            assert(attempt_ok(m2, ol));
        },
    }
}

/// Retiring a lane's attempt to a status outside both lanes preserves the
/// engine invariant.
pub(crate) proof fn lemma_finish_preserves_inv(m: StateModel, lane: Lane, st: PullStatus)
    requires
        inv(m),
        lane_attempt(m, lane) is Some,
        st != PullStatus::Testing,
        st != PullStatus::TryTesting,
    ensures
        inv(finish_effect(m, lane, st)),
{
    let m2 = finish_effect(m, lane, st);
    assert(lane_attempt(m2, lane) is None);
    assert(lane_attempt(m2, other_lane(lane)) == lane_attempt(m, other_lane(lane)));
    assert forall|k: int|
        0 <= k < m2.pulls.len() implies (#[trigger] m2.pulls[k]).status != testing_status(lane) by {
        if m.pulls[k].status == testing_status(lane) {
            assert(m2.pulls[k].status == st);
        } else {
            assert(m2.pulls[k] == m.pulls[k]);
        }
    }
    let ol = other_lane(lane);
    match lane_attempt(m, ol) {
        Some(b) => {
            assert forall|w: int| 0 <= w < b.nums.len() implies has_pull(m2, #[trigger] b.nums[w]) by {
                let k = pull_index(m, b.nums[w]);
                assert(0 <= k < m.pulls.len() && m.pulls[k].num == b.nums[w]);
                assert(m2.pulls[k].num == b.nums[w]);
            }
            assert forall|k: int|
                0 <= k < m2.pulls.len() implies ((#[trigger] m2.pulls[k]).status == testing_status(
                ol,
            ) <==> b.nums.contains(m2.pulls[k].num)) by {
                if m.pulls[k].status == testing_status(lane) {
                    assert(m2.pulls[k].status == st);
                    assert(!b.nums.contains(m.pulls[k].num));
                } else {
                    assert(m2.pulls[k] == m.pulls[k]);
                }
            }
            assert(attempt_ok(m2, ol));
        },
        None => {
            assert forall|k: int|
                0 <= k < m2.pulls.len() implies (#[trigger] m2.pulls[k]).status != testing_status(
                ol,
            ) by {
                if m.pulls[k].status == testing_status(lane) {
                    assert(m2.pulls[k].status == st);
                } else {
                    assert(m2.pulls[k] == m.pulls[k]);
                }
            }
            assert(attempt_ok(m2, ol));
        },
    }
}

/// Replacing a pull request by one with the same number, neither the old
/// nor the new one in flight on a lane, preserves the engine invariant.
proof fn lemma_update_pull_preserves_inv(m: StateModel, i: int, p: PullModel)
    requires
        inv(m),
        0 <= i < m.pulls.len(),
        p.num == m.pulls[i].num,
        m.pulls[i].status != PullStatus::Testing,
        m.pulls[i].status != PullStatus::TryTesting,
        p.status != PullStatus::Testing,
        p.status != PullStatus::TryTesting,
    ensures
        inv(StateModel { pulls: m.pulls.update(i, p), ..m }),
{
    lemma_update_pull_lane(m, i, p, Lane::Auto);
    lemma_update_pull_lane(m, i, p, Lane::Try);
}

proof fn lemma_update_pull_lane(m: StateModel, i: int, p: PullModel, lane: Lane)
    requires
        inv(m),
        0 <= i < m.pulls.len(),
        p.num == m.pulls[i].num,
        m.pulls[i].status != PullStatus::Testing,
        m.pulls[i].status != PullStatus::TryTesting,
        p.status != PullStatus::Testing,
        p.status != PullStatus::TryTesting,
    ensures
        attempt_ok(StateModel { pulls: m.pulls.update(i, p), ..m }, lane),
{
    let m2 = StateModel { pulls: m.pulls.update(i, p), ..m };
    match lane_attempt(m, lane) {
        Some(a) => {
            assert(!a.nums.contains(m.pulls[i].num));
            assert forall|w: int| 0 <= w < a.nums.len() implies has_pull(m2, #[trigger] a.nums[w]) by {
                let k = pull_index(m, a.nums[w]);
                assert(0 <= k < m.pulls.len() && m.pulls[k].num == a.nums[w]);
                assert(m2.pulls[k].num == a.nums[w]);
            }
            assert forall|k: int|
                0 <= k < m2.pulls.len() implies ((#[trigger] m2.pulls[k]).status == testing_status(
                lane,
            ) <==> a.nums.contains(m2.pulls[k].num)) by {
                if k != i {
                    assert(m2.pulls[k] == m.pulls[k]);
                }
            }
        },
        None => {
            assert forall|k: int|
                0 <= k < m2.pulls.len() implies (#[trigger] m2.pulls[k]).status != testing_status(
                lane,
            ) by {
                if k != i {
                    assert(m2.pulls[k] == m.pulls[k]);
                }
            }
        },
    }
}

/// The chosen pull index of a number on record is the index that holds it.
pub(crate) proof fn lemma_pull_index_is(m: StateModel, i: int)
    requires
        pulls_unique(m.pulls),
        0 <= i < m.pulls.len(),
    ensures
        has_pull(m, m.pulls[i].num),
        pull_index(m, m.pulls[i].num) == i,
        pull_of(m, m.pulls[i].num) == m.pulls[i],
{
    assert(has_pull(m, m.pulls[i].num));
    let w = pull_index(m, m.pulls[i].num);
    assert(0 <= w < m.pulls.len() && m.pulls[w].num == m.pulls[i].num);
    if w != i {
        assert(m.pulls[w].num != m.pulls[i].num);
    }
}

/// Appending a pull request whose status is in neither lane, with a fresh
/// number, preserves the engine invariant.
proof fn lemma_push_nontesting_preserves_inv(m: StateModel, p: PullModel)
    requires
        inv(m),
        !has_pull(m, p.num),
        p.status != PullStatus::Testing,
        p.status != PullStatus::TryTesting,
    ensures
        inv(StateModel { pulls: m.pulls.push(p), ..m }),
{
    let m2 = StateModel { pulls: m.pulls.push(p), ..m };
    assert forall|i: int, j: int|
        0 <= i < m2.pulls.len() && 0 <= j < m2.pulls.len() && i != j implies m2.pulls[i].num
        != m2.pulls[j].num by {
        if i < m.pulls.len() && j < m.pulls.len() {
        } else if i == m.pulls.len() {
            assert(m.pulls[j].num != p.num);
        } else {
            assert(m.pulls[i].num != p.num);
        }
    }
    lemma_push_nontesting_lane(m, p, Lane::Auto);
    lemma_push_nontesting_lane(m, p, Lane::Try);
}

proof fn lemma_push_nontesting_lane(m: StateModel, p: PullModel, lane: Lane)
    requires
        inv(m),
        !has_pull(m, p.num),
        p.status != PullStatus::Testing,
        p.status != PullStatus::TryTesting,
    ensures
        attempt_ok(StateModel { pulls: m.pulls.push(p), ..m }, lane),
{
    let m2 = StateModel { pulls: m.pulls.push(p), ..m };
    match lane_attempt(m, lane) {
        Some(a) => {
            assert forall|i: int| 0 <= i < a.nums.len() implies has_pull(m2, #[trigger] a.nums[i]) by {
                assert(has_pull(m, a.nums[i]));
                let w = pull_index(m, a.nums[i]);
                assert(0 <= w < m.pulls.len() && m.pulls[w].num == a.nums[i]);
                assert(m2.pulls[w].num == a.nums[i]);
            }
            assert forall|k: int|
                0 <= k < m2.pulls.len() implies ((#[trigger] m2.pulls[k]).status == testing_status(
                lane,
            ) <==> a.nums.contains(m2.pulls[k].num)) by {
                if k < m.pulls.len() {
                    assert(m2.pulls[k] == m.pulls[k]);
                } else {
                    assert(m2.pulls[k] == p);
                    if a.nums.contains(p.num) {
                        let w = choose|w: int| 0 <= w < a.nums.len() && a.nums[w] == p.num;
                        assert(has_pull(m, a.nums[w]));
                        assert(false);
                    }
                }
            }
        },
        None => {
            assert forall|k: int|
                0 <= k < m2.pulls.len() implies (#[trigger] m2.pulls[k]).status != testing_status(
                lane,
            ) by {
                if k < m.pulls.len() {
                    assert(m2.pulls[k] == m.pulls[k]);
                }
            }
        },
    }
}

} // verus!
