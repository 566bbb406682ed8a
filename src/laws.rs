//! Properties that relate the operations of the funding system, proved over
//! the same models their contracts are stated in.

use crate::error::{kind_of, ErrorKind, QfError};
use crate::isqrt::{floor_sqrt, lemma_floor_sqrt};
use crate::ledger::{
    for_project, for_round, group_sum, lemma_push, lemma_sum_sqrt_by_totals, lemma_sum_sqrt_split,
    sum_sqrt, without, Contribution, Identity,
};
use crate::matching::{
    any_contribution, ideal_match, lemma_matches_within_pool, matches_of, round_ideals, seq_sum,
};
use crate::model::{
    contribute_outcome, finalize_outcome, live_view, round_alpha, view_result, RoundData,
    SystemView,
};
use vstd::prelude::*;

verus! {

/// The floor root never decreases as its argument grows.
pub proof fn lemma_floor_sqrt_monotone(a: nat, b: nat)
    requires
        a <= b,
    ensures
        floor_sqrt(a) <= floor_sqrt(b),
{
    lemma_floor_sqrt(a);
    lemma_floor_sqrt(b);
    let fa = floor_sqrt(a) as int;
    let fb = floor_sqrt(b) as int;
    if fa > fb {
        assert(fa * fa >= (fb + 1) * (fb + 1)) by (nonlinear_arith)
            requires
                fa >= fb + 1,
                fb >= 0,
        ;
    }
}

/// One more contribution never lowers the root sum.
pub proof fn lemma_sum_sqrt_push(s: Seq<Contribution>, c: Contribution)
    ensures
        sum_sqrt(s) <= sum_sqrt(s.push(c)),
{
    let w = c.contributor;
    let t = s.push(c);
    lemma_push(s, c);
    lemma_sum_sqrt_split(s, w);
    lemma_sum_sqrt_split(t, w);
    assert(without(t, w) == without(s, w));
    assert(group_sum(t, w) == group_sum(s, w) + c.amount);
    lemma_floor_sqrt_monotone(group_sum(s, w), group_sum(t, w));
}

/// Under the computed scaling factor, the matches of every round, live or
/// fixed at finalization, sum to at most its pool.
pub proof fn lemma_round_within_pool(s: SystemView, rid: u32)
    requires
        s.wf(),
        s.has_round(rid),
    ensures
        ({
            let r = s.round(rid);
            let rcs = for_round(s.contributions, rid);
            let ideals = round_ideals(rcs, r.eligible_projects);
            &&& round_alpha(r, rcs) is Ok ==> seq_sum(
                matches_of(round_alpha(r, rcs)->Ok_0 as nat, ideals),
            ) <= r.matching_pool
            &&& r.is_finalized ==> seq_sum(matches_of(r.final_alpha.unwrap() as nat, ideals))
                <= r.matching_pool
        }),
{
    let r = s.round(rid);
    let rcs = for_round(s.contributions, rid);
    let el = r.eligible_projects;
    let ideals = round_ideals(rcs, el);
    assert(s.round_wf(s.rounds[rid - 1]));
    lemma_matches_within_pool(r.matching_pool as nat, ideals, any_contribution(rcs, el));
    crate::matching::lemma_alpha_at_most_one(
        r.matching_pool as nat,
        ideals,
        any_contribution(rcs, el),
    );
}

/// The live view of a round is a function of the state alone: asking twice
/// with nothing recorded in between gives the same answer.
pub proof fn lemma_round_view_repeatable(
    s: SystemView,
    rid: u32,
    first: Result<RoundData, QfError>,
    second: Result<RoundData, QfError>,
)
    requires
        view_result(first) == live_view(s, rid),
        view_result(second) == live_view(s, rid),
    ensures
        view_result(first) == view_result(second),
{
}

/// An accepted contribution never lowers its project's total, its number of
/// contributors, or its ideal match in any round.
pub proof fn lemma_contribution_monotone(
    s: SystemView,
    caller: Identity,
    rid: u32,
    pid: u32,
    amount_unscaled: u128,
    now: u64,
)
    requires
        s.wf(),
        contribute_outcome(s, caller, rid, pid, amount_unscaled, now).0 is Ok,
    ensures
        ({
            let post = contribute_outcome(s, caller, rid, pid, amount_unscaled, now).1;
            &&& post.project(pid).total_contributions >= s.project(pid).total_contributions
            &&& post.project(pid).contributor_count >= s.project(pid).contributor_count
            &&& forall|r: u32|
                #![trigger for_round(post.contributions, r)]
                ideal_match(for_project(for_round(post.contributions, r), pid)) >= ideal_match(
                    for_project(for_round(s.contributions, r), pid),
                )
        }),
{
    let post = contribute_outcome(s, caller, rid, pid, amount_unscaled, now).1;
    let c = Contribution {
        amount: (amount_unscaled / crate::model::STORAGE_SCALE) as u128,
        contributor: caller,
        project_id: pid,
        round_id: rid,
        timestamp: now,
    };
    assert(post.contributions == s.contributions.push(c));
    assert forall|r: u32|
        #![trigger for_round(post.contributions, r)]
        ideal_match(for_project(for_round(post.contributions, r), pid)) >= ideal_match(
            for_project(for_round(s.contributions, r), pid),
        ) by {
        let a = for_round(s.contributions, r);
        lemma_push(s.contributions, c);
        lemma_push(a, c);
        let x = for_project(a, pid);
        lemma_push(x, c);
        lemma_sum_sqrt_push(x, c);
        let u = sum_sqrt(x);
        let v = sum_sqrt(x.push(c));
        assert(u * u <= v * v) by (nonlinear_arith)
            requires
                u <= v,
        ;
    }
}

/// Contributions of `a` and then `b` from one contributor to one project in
/// one round give every project, in every round, the same ideal match as a
/// single contribution of `a + b`.
pub proof fn lemma_grouping(ledger: Seq<Contribution>, c1: Contribution, c2: Contribution, c: Contribution)
    requires
        c1.contributor == c2.contributor && c2.contributor == c.contributor,
        c1.project_id == c2.project_id && c2.project_id == c.project_id,
        c1.round_id == c2.round_id && c2.round_id == c.round_id,
        c.amount == c1.amount + c2.amount,
    ensures
        forall|rid: u32, pid: u32|
            #![trigger for_project(for_round(ledger.push(c1).push(c2), rid), pid)]
            ideal_match(for_project(for_round(ledger.push(c1).push(c2), rid), pid)) == ideal_match(
                for_project(for_round(ledger.push(c), rid), pid),
            ),
{
    let two = ledger.push(c1).push(c2);
    let one = ledger.push(c);
    assert forall|rid: u32, pid: u32|
        #![trigger for_project(for_round(ledger.push(c1).push(c2), rid), pid)]
        ideal_match(for_project(for_round(two, rid), pid)) == ideal_match(
            for_project(for_round(one, rid), pid),
        ) by {
        lemma_push(ledger, c1);
        lemma_push(ledger.push(c1), c2);
        lemma_push(ledger, c);
        let a = for_round(ledger, rid);
        lemma_push(a, c1);
        lemma_push(a.push(c1), c2);
        lemma_push(a, c);
        let x = for_project(a, pid);
        lemma_push(x, c1);
        lemma_push(x.push(c1), c2);
        lemma_push(x, c);
        if c.round_id == rid && c.project_id == pid {
            assert(for_round(ledger.push(c1), rid) == a.push(c1));
            assert(for_round(two, rid) == a.push(c1).push(c2));
            assert(for_project(a.push(c1), pid) == x.push(c1));
            assert(for_project(for_round(two, rid), pid) == x.push(c1).push(c2));
            assert(for_project(for_round(one, rid), pid) == x.push(c));
            assert forall|w: Identity| group_sum(x.push(c1).push(c2), w) == group_sum(x.push(c), w) by {
                assert(group_sum(x.push(c1), w) == group_sum(x, w) + if c1.contributor == w {
                    c1.amount as int
                } else {
                    0
                });
            }
            lemma_sum_sqrt_by_totals(x.push(c1).push(c2), x.push(c));
        } else if c.round_id != rid {
            assert(for_round(ledger.push(c1), rid) == a);
            assert(for_round(two, rid) == a);
            assert(for_round(one, rid) == a);
        } else {
            assert(for_round(ledger.push(c1), rid) == a.push(c1));
            assert(for_round(two, rid) == a.push(c1).push(c2));
            assert(for_project(a.push(c1), pid) == x);
            assert(for_project(for_round(two, rid), pid) == x);
            assert(for_project(for_round(one, rid), pid) == x);
        }
    }
}

/// After a successful finalization, finalizing the same round again fails
/// and changes nothing, so the fixed scaling factor stays; for the
/// administrator the failure is a state error.
pub proof fn lemma_finalize_once(s: SystemView, caller: Identity, rid: u32, again: Identity)
    requires
        s.wf(),
        finalize_outcome(s, caller, rid).0 is Ok,
    ensures
        ({
            let (r1, s1) = finalize_outcome(s, caller, rid);
            let (r2, s2) = finalize_outcome(s1, again, rid);
            &&& s1.round(rid).final_alpha == Some(r1->Ok_0)
            &&& r2 is Err
            &&& s2 == s1
            &&& again == s.admin ==> r2 == Err::<u32, QfError>(QfError::AlreadyFinalized)
                && kind_of(r2->Err_0) == ErrorKind::State
        }),
{
}

} // verus!
