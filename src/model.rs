//! The state of the funding system as mathematics: the records it keeps,
//! the conditions that tie them together, and what each operation yields.

use crate::error::QfError;
use crate::ledger::{
    amount_sum, backers, first_seen, for_project, for_round, from_contributor, group_sum,
    project_ids, round_ids, Contribution, Identity,
};
use crate::matching::{alpha_outcome, any_contribution, matches_of, round_ideals, seq_sum};
use vstd::prelude::*;

verus! {

/// Divisor from base currency units to ledger units.
pub const STORAGE_SCALE: u128 = 1_000_000;

/// Largest single contribution accepted, in base currency units.
pub const MAX_CONTRIBUTION: u128 = 1_000_000_000_000_000_000;

/// Milliseconds in an hour: round durations are given in hours, times in milliseconds.
pub const MS_PER_HOUR: u64 = 3_600_000;

/// A project that can receive contributions and matching funds.
#[derive(Clone, Copy, Debug, PartialEq, Eq)]
pub struct Project {
    pub project_id: u32,
    pub wallet_address: Identity,
    /// Sum of all contributions to the project, in ledger units.
    pub total_contributions: u128,
    /// Number of distinct contributors to the project.
    pub contributor_count: u32,
}

/// A funding round with a fixed matching pool and set of eligible projects.
#[derive(Clone, Debug, PartialEq, Eq)]
pub struct Round {
    pub round_id: u32,
    /// The matching budget, in ledger units.
    pub matching_pool: u128,
    pub eligible_projects: Vec<u32>,
    pub start_time: u64,
    pub end_time: u64,
    /// True until the matching funds have been distributed.
    pub active: bool,
    /// The scaling factor fixed at finalization (over `ALPHA_ONE`).
    pub final_alpha: Option<u32>,
    pub is_finalized: bool,
}

/// A project of a round with its computed matching.
#[derive(Clone, Copy, Debug, PartialEq, Eq)]
pub struct ProjectWithMatching {
    pub project: Project,
    /// The unconstrained quadratic-funding match.
    pub ideal_match: u128,
    /// The match after scaling to fit the pool.
    pub scaled_match: u128,
    /// Contributions plus scaled match.
    pub total_funding: u128,
}

/// A round with the live matching computed from the ledger as it stands.
#[derive(Clone, Debug, PartialEq, Eq)]
pub struct RoundData {
    pub round_info: Round,
    pub projects: Vec<ProjectWithMatching>,
    /// The contributions made in the round, in order.
    pub contributions: Vec<Contribution>,
    /// The scaling factor under the current contributions (over `ALPHA_ONE`).
    pub current_alpha: u32,
    /// The part of the pool the matches leave over.
    pub total_matching_available: u128,
}

/// The mathematical content of a `RoundData`.
pub struct RoundDataView {
    pub round_info: RoundView,
    pub projects: Seq<ProjectWithMatching>,
    pub contributions: Seq<Contribution>,
    pub current_alpha: u32,
    pub total_matching_available: u128,
}

impl View for RoundData {
    type V = RoundDataView;

    open spec fn view(&self) -> RoundDataView {
        RoundDataView {
            round_info: self.round_info@,
            projects: self.projects@,
            contributions: self.contributions@,
            current_alpha: self.current_alpha,
            total_matching_available: self.total_matching_available,
        }
    }
}

/// A transfer of matching funds: `amount` base units to `wallet_address`.
#[derive(Clone, Copy, Debug, PartialEq, Eq)]
pub struct Payout {
    pub wallet_address: Identity,
    pub amount: u128,
}

/// The mathematical content of a `Round`.
pub struct RoundView {
    pub round_id: u32,
    pub matching_pool: u128,
    pub eligible_projects: Seq<u32>,
    pub start_time: u64,
    pub end_time: u64,
    pub active: bool,
    pub final_alpha: Option<u32>,
    pub is_finalized: bool,
}

impl View for Round {
    type V = RoundView;

    open spec fn view(&self) -> RoundView {
        RoundView {
            round_id: self.round_id,
            matching_pool: self.matching_pool,
            eligible_projects: self.eligible_projects@,
            start_time: self.start_time,
            end_time: self.end_time,
            active: self.active,
            final_alpha: self.final_alpha,
            is_finalized: self.is_finalized,
        }
    }
}

/// The state of the whole system: registries, ledger and configuration.
pub struct SystemView {
    pub admin: Identity,
    pub projects: Seq<Project>,
    pub rounds: Seq<RoundView>,
    pub contributions: Seq<Contribution>,
    /// Smallest accepted contribution, in ledger units.
    pub min_contribution: u128,
}

/// The scaling factor of a round given the contributions made in it: an
/// error where a project's ideal match or their total does not fit in 128 bits.
pub open spec fn round_alpha(r: RoundView, round_cs: Seq<Contribution>) -> Result<u32, QfError> {
    let ideals = round_ideals(round_cs, r.eligible_projects);
    if exists|i: int| 0 <= i < ideals.len() && #[trigger] ideals[i] > u128::MAX {
        Err(QfError::Overflow)
    } else {
        alpha_outcome(
            r.matching_pool as nat,
            ideals,
            any_contribution(round_cs, r.eligible_projects),
        )
    }
}

/// The ids of `s` are distinct.
pub open spec fn distinct_ids(s: Seq<u32>) -> bool {
    forall|i: int, j: int| 0 <= i < j < s.len() ==> s[i] != s[j]
}

impl SystemView {
    pub open spec fn has_project(self, pid: u32) -> bool {
        1 <= pid <= self.projects.len()
    }

    pub open spec fn project(self, pid: u32) -> Project {
        self.projects[pid - 1]
    }

    pub open spec fn has_round(self, rid: u32) -> bool {
        1 <= rid <= self.rounds.len()
    }

    pub open spec fn round(self, rid: u32) -> RoundView {
        self.rounds[rid - 1]
    }

    /// The registries and the ledger agree.
    pub open spec fn wf(self) -> bool {
        &&& self.projects.len() < u32::MAX
        &&& self.rounds.len() < u32::MAX
        &&& forall|i: int| 0 <= i < self.projects.len() ==> #[trigger] self.projects[i].project_id == i + 1
        &&& forall|i: int| 0 <= i < self.rounds.len() ==> #[trigger] self.rounds[i].round_id == i + 1
        &&& forall|i: int| 0 <= i < self.rounds.len() ==> self.round_wf(#[trigger] self.rounds[i])
        &&& forall|k: int| 0 <= k < self.contributions.len() ==> {
            &&& self.has_project(#[trigger] self.contributions[k].project_id)
            &&& self.has_round(self.contributions[k].round_id)
        }
        &&& forall|i: int| 0 <= i < self.projects.len() ==> self.project_tallies_wf(#[trigger] self.projects[i])
    }

    /// A round names existing, distinct projects and is finalized exactly
    /// when it has a scaling factor.
    pub open spec fn round_wf(self, r: RoundView) -> bool {
        &&& distinct_ids(r.eligible_projects)
        &&& forall|j: int| 0 <= j < r.eligible_projects.len() ==> self.has_project(#[trigger] r.eligible_projects[j])
        &&& r.final_alpha.is_some() == r.is_finalized
        &&& r.is_finalized ==> round_alpha(r, for_round(self.contributions, r.round_id)) == Ok::<
            u32,
            QfError,
        >(r.final_alpha.unwrap())
    }

    /// A project's tallies are those of the ledger.
    pub open spec fn project_tallies_wf(self, p: Project) -> bool {
        &&& p.total_contributions == amount_sum(for_project(self.contributions, p.project_id))
        &&& p.contributor_count == backers(self.contributions, p.project_id).len()
    }
}

/// What adding a project yields: its id, assigned sequentially, and the new state.
pub open spec fn add_project_outcome(s: SystemView, caller: Identity, wallet: Identity) -> (
    Result<u32, QfError>,
    SystemView,
) {
    if caller != s.admin {
        (Err(QfError::NotAdmin), s)
    } else if s.projects.len() + 2 > u32::MAX {
        (Err(QfError::Overflow), s)
    } else {
        let id = (s.projects.len() + 1) as u32;
        let p = Project {
            project_id: id,
            wallet_address: wallet,
            total_contributions: 0,
            contributor_count: 0,
        };
        (Ok(id), SystemView { projects: s.projects.push(p), ..s })
    }
}

/// The round that `create_round` records.
pub open spec fn new_round(
    id: u32,
    pool: u128,
    eligible: Seq<u32>,
    start: u64,
    end: u64,
) -> RoundView {
    RoundView {
        round_id: id,
        matching_pool: pool,
        eligible_projects: eligible,
        start_time: start,
        end_time: end,
        active: true,
        final_alpha: None,
        is_finalized: false,
    }
}

/// What creating a round yields: its id and the new state. The pool is given
/// in base units; the round opens at `now` and lasts `hours`.
pub open spec fn create_round_outcome(
    s: SystemView,
    caller: Identity,
    pool_unscaled: u128,
    eligible: Seq<u32>,
    hours: u64,
    now: u64,
) -> (Result<u32, QfError>, SystemView) {
    if caller != s.admin {
        (Err(QfError::NotAdmin), s)
    } else if exists|j: int| 0 <= j < eligible.len() && !s.has_project(#[trigger] eligible[j]) {
        (Err(QfError::ProjectNotFound), s)
    } else if !distinct_ids(eligible) {
        (Err(QfError::DuplicateProject), s)
    } else if now + hours * MS_PER_HOUR > u64::MAX {
        (Err(QfError::Overflow), s)
    } else if s.rounds.len() + 2 > u32::MAX {
        (Err(QfError::Overflow), s)
    } else {
        let id = (s.rounds.len() + 1) as u32;
        let r = new_round(
            id,
            (pool_unscaled / STORAGE_SCALE) as u128,
            eligible,
            now,
            (now + hours * MS_PER_HOUR) as u64,
        );
        (Ok(id), SystemView { rounds: s.rounds.push(r), ..s })
    }
}

/// Whether a contribution of `amount_unscaled` base units from `caller` to
/// project `pid` in round `rid` at time `now` is accepted; if so, the wallet
/// the contributed funds go to.
pub open spec fn contribution_outcome(
    s: SystemView,
    caller: Identity,
    rid: u32,
    pid: u32,
    amount_unscaled: u128,
    now: u64,
) -> Result<Identity, QfError> {
    let amount = amount_unscaled / STORAGE_SCALE;
    if amount_unscaled > MAX_CONTRIBUTION {
        Err(QfError::AboveCeiling)
    } else if amount < s.min_contribution {
        Err(QfError::BelowMinimum)
    } else if !s.has_round(rid) {
        Err(QfError::RoundNotFound)
    } else if !s.round(rid).active {
        Err(QfError::RoundInactive)
    } else if s.round(rid).is_finalized {
        Err(QfError::AlreadyFinalized)
    } else if now < s.round(rid).start_time || now > s.round(rid).end_time {
        Err(QfError::OutsideWindow)
    } else if !s.round(rid).eligible_projects.contains(pid) {
        Err(QfError::NotEligible)
    } else if !s.has_project(pid) {
        Err(QfError::ProjectNotFound)
    } else if s.project(pid).total_contributions + amount > u128::MAX {
        Err(QfError::Overflow)
    } else if !backers(s.contributions, pid).contains(caller) && s.project(pid).contributor_count
        == u32::MAX {
        Err(QfError::Overflow)
    } else {
        Ok(s.project(pid).wallet_address)
    }
}

/// The state after recording `c`: the ledger grows by it, and its project's
/// total by its amount and its contributor count by one for a new contributor.
pub open spec fn record_contribution(s: SystemView, c: Contribution) -> SystemView {
    let p = s.project(c.project_id);
    let count = if backers(s.contributions, c.project_id).contains(c.contributor) {
        p.contributor_count
    } else {
        (p.contributor_count + 1) as u32
    };
    let p2 = Project {
        total_contributions: (p.total_contributions + c.amount) as u128,
        contributor_count: count,
        ..p
    };
    SystemView {
        projects: s.projects.update(c.project_id - 1, p2),
        contributions: s.contributions.push(c),
        ..s
    }
}

/// What contributing yields: the contribution is recorded exactly when it is accepted.
pub open spec fn contribute_outcome(
    s: SystemView,
    caller: Identity,
    rid: u32,
    pid: u32,
    amount_unscaled: u128,
    now: u64,
) -> (Result<(), QfError>, SystemView) {
    match contribution_outcome(s, caller, rid, pid, amount_unscaled, now) {
        Err(e) => (Err(e), s),
        Ok(_) => (
            Ok(()),
            record_contribution(
                s,
                Contribution {
                    amount: (amount_unscaled / STORAGE_SCALE) as u128,
                    contributor: caller,
                    project_id: pid,
                    round_id: rid,
                    timestamp: now,
                },
            ),
        ),
    }
}

/// The projects `el` of a round with their ideal matches and matches.
pub open spec fn live_projects(
    s: SystemView,
    el: Seq<u32>,
    ideals: Seq<nat>,
    matches: Seq<nat>,
) -> Seq<ProjectWithMatching> {
    Seq::new(
        el.len(),
        |i: int|
            ProjectWithMatching {
                project: s.project(el[i]),
                ideal_match: ideals[i] as u128,
                scaled_match: matches[i] as u128,
                total_funding: (s.project(el[i]).total_contributions + matches[i]) as u128,
            },
    )
}

/// The live matching of round `rid` under the ledger as it stands: every
/// eligible project's ideal match, the shared scaling factor, each project's
/// match and total funding, and what is left of the pool.
pub open spec fn live_view(s: SystemView, rid: u32) -> Result<RoundDataView, QfError> {
    if !s.has_round(rid) {
        Err(QfError::RoundNotFound)
    } else {
        let r = s.round(rid);
        let rcs = for_round(s.contributions, rid);
        let el = r.eligible_projects;
        match round_alpha(r, rcs) {
            Err(e) => Err(e),
            Ok(alpha) => {
                let ideals = round_ideals(rcs, el);
                let matches = matches_of(alpha as nat, ideals);
                if exists|i: int|
                    0 <= i < el.len() && #[trigger] s.project(el[i]).total_contributions
                        + matches[i] > u128::MAX {
                    Err(QfError::Overflow)
                } else {
                    Ok(
                        RoundDataView {
                            round_info: r,
                            projects: live_projects(s, el, ideals, matches),
                            contributions: rcs,
                            current_alpha: alpha,
                            total_matching_available: (r.matching_pool - seq_sum(matches)) as u128,
                        },
                    )
                }
            },
        }
    }
}

/// The view of a computed round, or its error.
pub open spec fn view_result(r: Result<RoundData, QfError>) -> Result<RoundDataView, QfError> {
    match r {
        Ok(d) => Ok(d@),
        Err(e) => Err(e),
    }
}

/// What finalizing round `rid` yields: the scaling factor fixed for good.
pub open spec fn finalize_outcome(s: SystemView, caller: Identity, rid: u32) -> (
    Result<u32, QfError>,
    SystemView,
) {
    if caller != s.admin {
        (Err(QfError::NotAdmin), s)
    } else if !s.has_round(rid) {
        (Err(QfError::RoundNotFound), s)
    } else if s.round(rid).is_finalized {
        (Err(QfError::AlreadyFinalized), s)
    } else {
        let r = s.round(rid);
        match round_alpha(r, for_round(s.contributions, rid)) {
            Err(e) => (Err(e), s),
            Ok(a) => (
                Ok(a),
                SystemView {
                    rounds: s.rounds.update(
                        rid - 1,
                        RoundView { final_alpha: Some(a), is_finalized: true, ..r },
                    ),
                    ..s
                },
            ),
        }
    }
}

/// The transfers for the first `n` projects of `el`: one for each positive
/// match, of the match in base units, to the project's wallet.
pub open spec fn payouts_upto(s: SystemView, el: Seq<u32>, matches: Seq<nat>, n: nat) -> Seq<
    Payout,
>
    decreases n,
{
    if n == 0 {
        Seq::empty()
    } else {
        let rest = payouts_upto(s, el, matches, (n - 1) as nat);
        let m = matches[n - 1];
        if m > 0 {
            rest.push(
                Payout {
                    wallet_address: s.project(el[n - 1]).wallet_address,
                    amount: (m * STORAGE_SCALE) as u128,
                },
            )
        } else {
            rest
        }
    }
}

/// Whether the matching funds of round `rid` may be distributed, given
/// `sent_unscaled` base units for the pool; if so, the transfers to make,
/// from the scaling factor fixed at finalization.
pub open spec fn distribution_outcome(
    s: SystemView,
    caller: Identity,
    rid: u32,
    sent_unscaled: u128,
) -> Result<Seq<Payout>, QfError> {
    if caller != s.admin {
        Err(QfError::NotAdmin)
    } else if !s.has_round(rid) {
        Err(QfError::RoundNotFound)
    } else if !s.round(rid).is_finalized {
        Err(QfError::NotFinalized)
    } else if !s.round(rid).active {
        Err(QfError::AlreadyDistributed)
    } else if sent_unscaled / STORAGE_SCALE != s.round(rid).matching_pool {
        Err(QfError::WrongPoolAmount)
    } else {
        let r = s.round(rid);
        let el = r.eligible_projects;
        let ideals = round_ideals(for_round(s.contributions, rid), el);
        Ok(payouts_upto(s, el, matches_of(r.final_alpha.unwrap() as nat, ideals), el.len()))
    }
}

/// What distributing yields: the round closes exactly when distribution is allowed.
pub open spec fn distribute_outcome(
    s: SystemView,
    caller: Identity,
    rid: u32,
    sent_unscaled: u128,
) -> (Result<(), QfError>, SystemView) {
    match distribution_outcome(s, caller, rid, sent_unscaled) {
        Err(e) => (Err(e), s),
        Ok(_) => (
            Ok(()),
            SystemView {
                rounds: s.rounds.update(rid - 1, RoundView { active: false, ..s.round(rid) }),
                ..s
            },
        ),
    }
}

/// A contributor's statistics: the sum of its contributions, the number of
/// distinct projects it supported, and the rounds it took part in, in order of
/// first participation; an error where a number does not fit its width.
pub open spec fn stats_outcome(s: SystemView, w: Identity) -> Result<(u128, u32, Seq<u32>), QfError> {
    let mine = from_contributor(s.contributions, w);
    let total = group_sum(s.contributions, w);
    let n_projects = first_seen(project_ids(mine)).len();
    if total > u128::MAX || n_projects > u32::MAX {
        Err(QfError::Overflow)
    } else {
        Ok((total as u128, n_projects as u32, first_seen(round_ids(mine))))
    }
}

/// A round accepts contributions at `now`: it is active, not finalized, and
/// `now` lies within its window.
pub open spec fn is_open(r: RoundView, now: u64) -> bool {
    r.active && !r.is_finalized && r.start_time <= now <= r.end_time
}

/// The ids of the rounds of `rs` open at `now`, in increasing order.
pub open spec fn open_round_ids(rs: Seq<RoundView>, now: u64) -> Seq<u32>
    decreases rs.len(),
{
    if rs.len() == 0 {
        Seq::empty()
    } else if is_open(rs.last(), now) {
        open_round_ids(rs.drop_last(), now).push(rs.last().round_id)
    } else {
        open_round_ids(rs.drop_last(), now)
    }
}

} // verus!
