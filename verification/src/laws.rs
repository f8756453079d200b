//! The engine's global guarantees, stated and proved once over the ghost
//! model: serialization of attempts, staleness of superseded reports, and
//! idempotence of the aggregator under at-least-once delivery.

use vstd::prelude::*;

use crate::engine::attempt_done;
use crate::engine::eligible;
use crate::engine::expected_builders;
use crate::engine::finish_effect;
use crate::engine::gate_open_for;
use crate::engine::has_pull;
use crate::engine::inv;
use crate::engine::lane_attempt;
use crate::engine::lemma_finish_preserves_inv;
use crate::engine::lemma_inv_results_only;
use crate::engine::lemma_pull_index_is;
use crate::engine::lemma_res_index_is;
use crate::engine::lemma_upsert_unique;
use crate::engine::outcome_status;
use crate::engine::pull_index;
use crate::engine::pull_lane;
use crate::engine::pull_of;
use crate::engine::report_applies;
use crate::engine::report_effect;
use crate::engine::res_index;
use crate::engine::testing_status;
use crate::engine::upsert_res;
use crate::engine::StateModel;
use crate::models::BuildResModel;
use crate::models::BuildStatus;
use crate::models::Lane;
use crate::models::PullModel;
use crate::models::PullStatus;

verus! {

/// For any repository and lane, at most one pull request is in flight at
/// any instant: two pull requests both carrying the lane's in-flight
/// status are the same row. On the auto lane this holds whenever the
/// policy does not fold rollup batches (a batch deliberately shares one
/// attempt among its members).
pub proof fn lemma_one_in_flight_per_lane(m: StateModel, lane: Lane, i: int, j: int)
    requires
        inv(m),
        lane == Lane::Auto ==> m.policy.rollup_size <= 1,
        0 <= i < m.pulls.len(),
        0 <= j < m.pulls.len(),
        m.pulls[i].status == testing_status(lane),
        m.pulls[j].status == testing_status(lane),
    ensures
        i == j,
{
    let a = lane_attempt(m, lane).unwrap();
    assert(lane_attempt(m, lane) is Some);
    assert(a.nums.contains(m.pulls[i].num));
    assert(a.nums.contains(m.pulls[j].num));
    assert(a.nums.len() == 1);
    let wi = choose|w: int| 0 <= w < a.nums.len() && a.nums[w] == m.pulls[i].num;
    let wj = choose|w: int| 0 <= w < a.nums.len() && a.nums[w] == m.pulls[j].num;
    assert(wi == 0 && wj == 0);
    assert(m.pulls[i].num == m.pulls[j].num);
    if i != j {
        assert(m.pulls[i].num != m.pulls[j].num);
    }
}

/// A build-result report whose synthetic commit differs from the pull
/// request's current one never changes anything: the whole state, its
/// `status` column included, is left exactly as it was.
pub proof fn lemma_stale_report_ignored(
    m: StateModel,
    num: int,
    builder: Seq<char>,
    sha: Seq<char>,
    outcome: BuildStatus,
    url: Seq<char>,
)
    requires
        has_pull(m, num),
        pull_of(m, num).merge_sha != Some(sha),
    ensures
        report_effect(m, num, builder, sha, outcome, url) == m,
{
    assert(!report_applies(m, num, sha));
}

/// The tree-close gate: a closed tree blocks every pull request at or
/// below the closing priority from being granted a slot, and an approved
/// pull request above it stays eligible.
pub proof fn lemma_gate(m: StateModel, p: PullModel, lane: Lane)
    ensures
        m.treeclosed > 0 && p.priority <= m.treeclosed ==> !eligible(m, p, lane),
        p.status == PullStatus::Approved && gate_open_for(m, p.priority) ==> eligible(
            m,
            p,
            Lane::Auto,
        ),
{
}

/// Replaying the same build-result callback twice yields the same final
/// state as applying it once: the aggregator is idempotent under
/// at-least-once delivery.
pub proof fn lemma_report_idempotent(
    m: StateModel,
    num: int,
    builder: Seq<char>,
    sha: Seq<char>,
    outcome: BuildStatus,
    url: Seq<char>,
)
    requires
        inv(m),
    ensures
        report_effect(report_effect(m, num, builder, sha, outcome, url), num, builder, sha, outcome, url)
            == report_effect(m, num, builder, sha, outcome, url),
{
    let m1 = report_effect(m, num, builder, sha, outcome, url);
    if !report_applies(m, num, sha) {
        assert(m1 == m);
    } else {
        let i = pull_index(m, num);
        let p = pull_of(m, num);
        assert(0 <= i < m.pulls.len() && m.pulls[i].num == num);
        let lane = pull_lane(p).unwrap();
        assert(p.status == testing_status(lane));
        let row = BuildResModel { repo: m.repo, num, builder, res: outcome, url, merge_sha: sha };
        let rs2 = upsert_res(m.results, row);
        lemma_upsert_unique(m.results, row);
        let mid = StateModel { results: rs2, ..m };
        lemma_inv_results_only(m, rs2);
        let bs = expected_builders(m.policy, lane);
        if attempt_done(rs2, num, sha, bs) {
            // The attempt completed: the pull request left the in-flight
            // status, so the replay is stale and changes nothing.
            let a = lane_attempt(m, lane).unwrap();
            assert(lane_attempt(m, lane) is Some);
            let st = outcome_status(lane, a.nums.len() > 1, crate::engine::attempt_outcome(rs2, num, sha, bs));
            assert(st != PullStatus::Testing && st != PullStatus::TryTesting);
            assert(lane_attempt(mid, lane) == lane_attempt(m, lane));
            assert(m1 == finish_effect(mid, lane, st));
            lemma_finish_preserves_inv(mid, lane, st);
            assert(m1.pulls[i].num == num);
            lemma_pull_index_is(m1, i);
            assert(pull_of(m1, num) == m1.pulls[i]);
            assert(m1.pulls[i].status == st);
            assert(pull_lane(pull_of(m1, num)) is None);
            assert(!report_applies(m1, num, sha));
            assert(report_effect(m1, num, builder, sha, outcome, url) == m1);
        } else {
            // The attempt is still waiting: the replay rewrites the same
            // row and re-evaluates the same incomplete verdicts.
            assert(m1 == mid);
            assert(m1.pulls == m.pulls);
            assert(pull_index(m1, num) == pull_index(m, num));
            assert(report_applies(m1, num, sha));
            assert(pull_lane(pull_of(m1, num)) == Some(lane));
            let row1 = BuildResModel {
                repo: m1.repo,
                num,
                builder,
                res: outcome,
                url,
                merge_sha: sha,
            };
            assert(row1 == row);
            let j = res_index(rs2, num, builder);
            assert(rs2[j] == row);
            assert(0 <= j < rs2.len() && rs2[j].num == num && rs2[j].builder == builder);
            let rs3 = upsert_res(rs2, row);
            assert(res_index(rs2, row.num, row.builder) == j) by {
                lemma_res_index_is(rs2, j);
            }
            assert(rs3 =~= rs2);
            assert(attempt_done(rs3, num, sha, bs) == attempt_done(rs2, num, sha, bs));
            assert(report_effect(m1, num, builder, sha, outcome, url) == (StateModel {
                results: rs3,
                ..m1
            }));
            assert(report_effect(m1, num, builder, sha, outcome, url) =~= m1);
        }
    }
}

} // verus!
