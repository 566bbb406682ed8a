//! The funding system: project and round registries over the contribution
//! ledger, and the round lifecycle from creation through contribution and
//! finalization to distribution.
//!
//! The host supplies what lies outside: the calling identity, the current
//! time, and the movement of funds. Operations that precede a transfer come
//! in two steps: a read-only check that names the transfer, and the state
//! change, to be applied once the transfer has succeeded.

use crate::error::QfError;
use crate::ledger::{
    backers, contributions_for_project, contributions_for_round, first_seen, for_project,
    for_round, from_contributor, group_sum, lemma_backers_finite, lemma_backers_member,
    lemma_for_project_absent, lemma_group_sum_prefix, lemma_push, lemma_round_project_le,
    project_ids, round_ids, Contribution, Identity,
};
use crate::matching::{
    alpha_for, any_contribution, as_nats, calculate_project_ideal_match,
    calculate_project_match, find_optimal_alpha, lemma_alpha_at_most_one,
    lemma_matches_within_pool, lemma_seq_sum_prefix, matches_of, round_ideals, seq_sum,
};
use crate::model::{
    add_project_outcome, contribute_outcome, contribution_outcome, create_round_outcome,
    distribute_outcome, distinct_ids, distribution_outcome, finalize_outcome, live_projects,
    live_view, open_round_ids, payouts_upto, record_contribution, round_alpha, stats_outcome,
    view_result, Payout, Project, ProjectWithMatching, Round, RoundData, RoundView, SystemView,
    MAX_CONTRIBUTION, MS_PER_HOUR, STORAGE_SCALE,
};
use vstd::prelude::*;

verus! {

/// Whether `pid` is among `el`.
fn contains_id(el: &Vec<u32>, pid: u32) -> (b: bool)
    ensures
        b == el@.contains(pid),
{
    let mut i: usize = 0;
    while i < el.len()
        invariant
            i <= el@.len(),
            forall|k: int| 0 <= k < i ==> el@[k] != pid,
        decreases el.len() - i,
    {
        if el[i] == pid {
            proof {
                assert(el@[i as int] == pid);
            }
            return true;
        }
        i = i + 1;
    }
    false
}

/// The system: administrator, registries and ledger.
pub struct QfSystem {
    admin: Identity,
    projects: Vec<Project>,
    rounds: Vec<Round>,
    contributions: Vec<Contribution>,
    next_project_id: u32,
    next_round_id: u32,
    min_contribution: u128,
}

impl View for QfSystem {
    type V = SystemView;

    closed spec fn view(&self) -> SystemView {
        SystemView {
            admin: self.admin,
            projects: self.projects@,
            rounds: self.rounds@.map_values(|r: Round| r@),
            contributions: self.contributions@,
            min_contribution: self.min_contribution,
        }
    }
}

/// A copy of a round.
fn copy_round(r: &Round) -> (c: Round)
    ensures
        c@ == r@,
{
    let mut el: Vec<u32> = Vec::new();
    let mut i: usize = 0;
    while i < r.eligible_projects.len()
        invariant
            i <= r.eligible_projects@.len(),
            el@ == r.eligible_projects@.subrange(0, i as int),
        decreases r.eligible_projects.len() - i,
    {
        el.push(r.eligible_projects[i]);
        i = i + 1;
        proof {
            assert(el@ =~= r.eligible_projects@.subrange(0, i as int));
        }
    }
    proof {
        assert(el@ =~= r.eligible_projects@);
    }
    Round {
        round_id: r.round_id,
        matching_pool: r.matching_pool,
        eligible_projects: el,
        start_time: r.start_time,
        end_time: r.end_time,
        active: r.active,
        final_alpha: r.final_alpha,
        is_finalized: r.is_finalized,
    }
}

impl QfSystem {
    /// The registries agree with the ledger and the id counters.
    pub closed spec fn wf(&self) -> bool {
        &&& self@.wf()
        &&& self.next_project_id == self.projects@.len() + 1
        &&& self.next_round_id == self.rounds@.len() + 1
    }

    /// An empty system administered by `admin`, accepting contributions of at
    /// least `min_contribution_unscaled` base units.
    pub fn new(admin: Identity, min_contribution_unscaled: u128) -> (s: Self)
        ensures
            s.wf(),
            s@ == (SystemView {
                admin,
                projects: Seq::empty(),
                rounds: Seq::empty(),
                contributions: Seq::empty(),
                min_contribution: (min_contribution_unscaled / STORAGE_SCALE) as u128,
            }),
    {
        let s = QfSystem {
            admin,
            projects: Vec::new(),
            rounds: Vec::new(),
            contributions: Vec::new(),
            next_project_id: 1,
            next_round_id: 1,
            min_contribution: min_contribution_unscaled / STORAGE_SCALE,
        };
        proof {
            assert(s@.rounds =~= Seq::<RoundView>::empty());
        }
        s
    }

    /// Registers a project paying out to `wallet`; only the administrator may.
    pub fn add_project(&mut self, caller: Identity, wallet: Identity) -> (r: Result<u32, QfError>)
        requires
            old(self).wf(),
        ensures
            final(self).wf(),
            (r, final(self)@) == add_project_outcome(old(self)@, caller, wallet),
    {
        if !caller.same(&self.admin) {
            return Err(QfError::NotAdmin);
        }
        if self.next_project_id == u32::MAX {
            return Err(QfError::Overflow);
        }
        let project_id = self.next_project_id;
        let project = Project {
            project_id,
            wallet_address: wallet,
            total_contributions: 0,
            contributor_count: 0,
        };
        let ghost pre = self@;
        self.projects.push(project);
        self.next_project_id = self.next_project_id + 1;
        proof {
            let post = self@;
            assert(post == SystemView { projects: pre.projects.push(project), ..pre });
            lemma_for_project_absent(pre.contributions, project_id);
            assert(post.projects[post.projects.len() - 1] == project);
            assert(backers(pre.contributions, project_id).len() == 0);
            assert(post.project_tallies_wf(project));
            assert forall|k: int| 0 <= k < post.contributions.len() implies {
                &&& post.has_project(#[trigger] post.contributions[k].project_id)
                &&& post.has_round(post.contributions[k].round_id)
            } by {
                assert(pre.has_project(pre.contributions[k].project_id));
            }
            assert forall|i: int| 0 <= i < post.projects.len() implies #[trigger] post.projects[i].project_id == i + 1 by {
                if i < pre.projects.len() {
                    assert(post.projects[i] == pre.projects[i]);
                }
            }
            assert forall|i: int| 0 <= i < post.rounds.len() implies post.round_wf(#[trigger] post.rounds[i]) by {
                assert(pre.round_wf(pre.rounds[i]));
            }
            assert forall|i: int| 0 <= i < post.projects.len() implies post.project_tallies_wf(#[trigger] post.projects[i]) by {
                if i < pre.projects.len() {
                    assert(pre.project_tallies_wf(pre.projects[i]));
                }
            }
        }
        Ok(project_id)
    }

    /// Opens a round at `now` for `duration_hours` over the projects
    /// `eligible_projects`, with a pool of `matching_pool_unscaled` base units;
    /// only the administrator may.
    pub fn create_round(
        &mut self,
        caller: Identity,
        matching_pool_unscaled: u128,
        eligible_projects: Vec<u32>,
        duration_hours: u64,
        now: u64,
    ) -> (r: Result<u32, QfError>)
        requires
            old(self).wf(),
        ensures
            final(self).wf(),
            (r, final(self)@) == create_round_outcome(
                old(self)@,
                caller,
                matching_pool_unscaled,
                eligible_projects@,
                duration_hours,
                now,
            ),
    {
        if !caller.same(&self.admin) {
            return Err(QfError::NotAdmin);
        }
        let ghost el = eligible_projects@;
        let mut i: usize = 0;
        while i < eligible_projects.len()
            invariant
                i <= el.len(),
                el == eligible_projects@,
                self.wf(),
                self@ == old(self)@,
                caller == self@.admin,
                forall|j: int| 0 <= j < i ==> self@.has_project(#[trigger] el[j]),
            decreases eligible_projects.len() - i,
        {
            let pid = eligible_projects[i];
            if !(1 <= pid && pid < self.next_project_id) {
                proof {
                    assert(!self@.has_project(el[i as int]));
                }
                return Err(QfError::ProjectNotFound);
            }
            i = i + 1;
        }
        let mut i: usize = 0;
        while i < eligible_projects.len()
            invariant
                i <= el.len(),
                el == eligible_projects@,
                self.wf(),
                self@ == old(self)@,
                caller == self@.admin,
                forall|j: int| 0 <= j < el.len() ==> self@.has_project(#[trigger] el[j]),
                distinct_ids(el.subrange(0, i as int)),
            decreases eligible_projects.len() - i,
        {
            let pid = eligible_projects[i];
            let mut j: usize = 0;
            while j < i
                invariant
                    j <= i < el.len(),
                    el == eligible_projects@,
                    pid == el[i as int],
                    forall|k: int| 0 <= k < j ==> el[k] != pid,
                    self.wf(),
                    self@ == old(self)@,
                    caller == self@.admin,
                    forall|j: int| 0 <= j < el.len() ==> self@.has_project(#[trigger] el[j]),
                decreases i - j,
            {
                if eligible_projects[j] == pid {
                    proof {
                        assert(!distinct_ids(el));
                    }
                    return Err(QfError::DuplicateProject);
                }
                j = j + 1;
            }
            i = i + 1;
            proof {
                let sub = el.subrange(0, i as int);
                assert forall|a: int, b: int| 0 <= a < b < sub.len() implies sub[a] != sub[b] by {
                    if b < i - 1 {
                        assert(el.subrange(0, i - 1)[a] == sub[a]);
                        assert(el.subrange(0, i - 1)[b] == sub[b]);
                    }
                }
            }
        }
        proof {
            assert(el.subrange(0, el.len() as int) =~= el);
        }
        let end_time = match duration_hours.checked_mul(MS_PER_HOUR) {
            Some(ms) => match now.checked_add(ms) {
                Some(t) => t,
                None => {
                    return Err(QfError::Overflow);
                },
            },
            None => {
                proof {
                    assert(duration_hours * MS_PER_HOUR > u64::MAX);
                    assert(now + duration_hours * MS_PER_HOUR > u64::MAX);
                }
                return Err(QfError::Overflow);
            },
        };
        if self.next_round_id == u32::MAX {
            return Err(QfError::Overflow);
        }
        let round_id = self.next_round_id;
        let round = Round {
            round_id,
            matching_pool: matching_pool_unscaled / STORAGE_SCALE,
            eligible_projects,
            start_time: now,
            end_time,
            active: true,
            final_alpha: None,
            is_finalized: false,
        };
        let ghost pre = self@;
        self.rounds.push(round);
        self.next_round_id = self.next_round_id + 1;
        proof {
            let post = self@;
            assert(post.rounds =~= pre.rounds.push(round@));
            assert(post == SystemView { rounds: pre.rounds.push(round@), ..pre });
            assert(post.rounds[post.rounds.len() - 1] == round@);
            assert forall|i: int| 0 <= i < post.rounds.len() implies post.round_wf(#[trigger] post.rounds[i]) by {
                if i < pre.rounds.len() {
                    assert(pre.round_wf(pre.rounds[i]));
                }
            }
            assert forall|i: int| 0 <= i < post.projects.len() implies post.project_tallies_wf(#[trigger] post.projects[i]) by {
                assert(pre.project_tallies_wf(pre.projects[i]));
            }
        }
        Ok(round_id)
    }

    /// Whether `w` has contributed to project `pid` before.
    fn has_backed(&self, w: Identity, pid: u32) -> (b: bool)
        ensures
            b == backers(self@.contributions, pid).contains(w),
    {
        proof {
            lemma_backers_member(self@.contributions, pid, w);
        }
        let mut k: usize = 0;
        while k < self.contributions.len()
            invariant
                k <= self.contributions@.len(),
                forall|j: int|
                    0 <= j < k ==> !(#[trigger] self.contributions@[j].contributor == w
                        && self.contributions@[j].project_id == pid),
            decreases self.contributions.len() - k,
        {
            let c = &self.contributions[k];
            if c.contributor.same(&w) && c.project_id == pid {
                proof {
                    lemma_backers_member(self@.contributions, pid, w);
                    assert(self@.contributions[k as int].contributor == w);
                }
                return true;
            }
            k = k + 1;
        }
        false
    }

    /// Checks a contribution of `amount_unscaled` base units from `caller` to
    /// project `project_id` in round `round_id` at time `now`, without
    /// recording it; on acceptance, the wallet the funds are to be sent to.
    pub fn check_contribution(
        &self,
        caller: Identity,
        round_id: u32,
        project_id: u32,
        amount_unscaled: u128,
        now: u64,
    ) -> (r: Result<Identity, QfError>)
        requires
            self.wf(),
        ensures
            r == contribution_outcome(self@, caller, round_id, project_id, amount_unscaled, now),
    {
        let amount = amount_unscaled / STORAGE_SCALE;
        if amount_unscaled > MAX_CONTRIBUTION {
            return Err(QfError::AboveCeiling);
        }
        if amount < self.min_contribution {
            return Err(QfError::BelowMinimum);
        }
        if !(1 <= round_id && round_id < self.next_round_id) {
            return Err(QfError::RoundNotFound);
        }
        let round = &self.rounds[(round_id - 1) as usize];
        assert(round@ == self@.round(round_id));
        if !round.active {
            return Err(QfError::RoundInactive);
        }
        if round.is_finalized {
            return Err(QfError::AlreadyFinalized);
        }
        if now < round.start_time || now > round.end_time {
            return Err(QfError::OutsideWindow);
        }
        if !contains_id(&round.eligible_projects, project_id) {
            return Err(QfError::NotEligible);
        }
        if !(1 <= project_id && project_id < self.next_project_id) {
            return Err(QfError::ProjectNotFound);
        }
        let project = self.projects[(project_id - 1) as usize];
        if project.total_contributions > u128::MAX - amount {
            return Err(QfError::Overflow);
        }
        if !self.has_backed(caller, project_id) && project.contributor_count == u32::MAX {
            return Err(QfError::Overflow);
        }
        Ok(project.wallet_address)
    }

    /// Records a contribution of `amount_unscaled` base units from `caller` to
    /// project `project_id` in round `round_id` at time `now`, once its funds
    /// have been sent to the wallet that `check_contribution` names. Fails,
    /// changing nothing, exactly where `check_contribution` fails.
    pub fn contribute(
        &mut self,
        caller: Identity,
        round_id: u32,
        project_id: u32,
        amount_unscaled: u128,
        now: u64,
    ) -> (r: Result<(), QfError>)
        requires
            old(self).wf(),
        ensures
            final(self).wf(),
            (r, final(self)@) == contribute_outcome(
                old(self)@,
                caller,
                round_id,
                project_id,
                amount_unscaled,
                now,
            ),
    {
        match self.check_contribution(caller, round_id, project_id, amount_unscaled, now) {
            Err(e) => {
                return Err(e);
            },
            Ok(_) => {},
        }
        let amount = amount_unscaled / STORAGE_SCALE;
        let is_new = !self.has_backed(caller, project_id);
        let idx = (project_id - 1) as usize;
        let mut project = self.projects[idx];
        if is_new {
            project.contributor_count = project.contributor_count + 1;
        }
        project.total_contributions = project.total_contributions + amount;
        let c = Contribution {
            amount,
            contributor: caller,
            project_id,
            round_id,
            timestamp: now,
        };
        let ghost pre = self@;
        self.projects.set(idx, project);
        self.contributions.push(c);
        proof {
            let post = self@;
            assert(post.rounds =~= pre.rounds);
            assert(post == record_contribution(pre, c));
            lemma_contribution_keeps_wf(pre, c);
        }
        Ok(())
    }

    /// The round with id `rid`, which must exist.
    fn round_ref(&self, rid: u32) -> (r: &Round)
        requires
            self.wf(),
            self@.has_round(rid),
        ensures
            r@ == self@.round(rid),
            self@.round_wf(r@),
            r.round_id == rid,
    {
        let r = &self.rounds[(rid - 1) as usize];
        proof {
            assert(self@.rounds[rid - 1] == r@);
        }
        r
    }

    /// The ideal match of every eligible project of `round`, given the
    /// contributions `round_cs` made in it, and whether any was made to one.
    fn compute_ideals(&self, round: &Round, round_cs: &Vec<Contribution>) -> (r: Result<
        (Vec<u128>, bool),
        QfError,
    >)
        requires
            self.wf(),
            self@.round_wf(round@),
            round_cs@ == for_round(self@.contributions, round.round_id),
        ensures
            match r {
                Ok((v, any)) => {
                    &&& as_nats(v@) == round_ideals(round_cs@, round@.eligible_projects)
                    &&& any == any_contribution(round_cs@, round@.eligible_projects)
                },
                Err(e) => {
                    &&& e == QfError::Overflow
                    &&& exists|i: int|
                        0 <= i < round@.eligible_projects.len() && #[trigger] round_ideals(
                            round_cs@,
                            round@.eligible_projects,
                        )[i] > u128::MAX
                },
            },
    {
        let el = &round.eligible_projects;
        let ghost ideals = round_ideals(round_cs@, el@);
        let mut v: Vec<u128> = Vec::new();
        let mut any = false;
        let mut i: usize = 0;
        while i < el.len()
            invariant
                self.wf(),
                self@.round_wf(round@),
                el@ == round@.eligible_projects,
                round_cs@ == for_round(self@.contributions, round.round_id),
                ideals == round_ideals(round_cs@, el@),
                i <= el@.len(),
                v@.len() == i,
                forall|k: int| 0 <= k < i ==> v@[k] as nat == #[trigger] ideals[k],
                any == exists|k: int|
                    0 <= k < i && #[trigger] for_project(round_cs@, el@[k]).len() > 0,
            decreases el.len() - i,
        {
            let pid = el[i];
            assert(self@.has_project(el@[i as int]));
            let p_cs = contributions_for_project(round_cs, pid);
            proof {
                let p = self@.projects[pid - 1];
                assert(self@.project_tallies_wf(p));
                lemma_round_project_le(self@.contributions, round.round_id, pid);
            }
            match calculate_project_ideal_match(&p_cs) {
                Ok(ideal) => {
                    v.push(ideal);
                },
                Err(e) => {
                    assert(ideals[i as int] > u128::MAX);
                    return Err(e);
                },
            }
            if p_cs.len() > 0 {
                any = true;
            }
            i = i + 1;
        }
        proof {
            assert(as_nats(v@) =~= ideals);
        }
        Ok((v, any))
    }

    /// The ideal matches of `round`'s projects and its scaling factor, as
    /// `round_alpha` gives it.
    fn round_alpha_exec(&self, round: &Round, round_cs: &Vec<Contribution>) -> (r: Result<
        (Vec<u128>, u32),
        QfError,
    >)
        requires
            self.wf(),
            self@.round_wf(round@),
            round_cs@ == for_round(self@.contributions, round.round_id),
        ensures
            match r {
                Ok((v, a)) => {
                    &&& round_alpha(round@, round_cs@) == Ok::<u32, QfError>(a)
                    &&& as_nats(v@) == round_ideals(round_cs@, round@.eligible_projects)
                    &&& a == alpha_for(
                        round.matching_pool as nat,
                        as_nats(v@),
                        any_contribution(round_cs@, round@.eligible_projects),
                    )
                    &&& a <= crate::matching::ALPHA_ONE
                },
                Err(e) => round_alpha(round@, round_cs@) == Err::<u32, QfError>(e),
            },
    {
        let (v, any) = match self.compute_ideals(round, round_cs) {
            Ok(x) => x,
            Err(e) => {
                return Err(e);
            },
        };
        proof {
            lemma_alpha_at_most_one(round.matching_pool as nat, as_nats(v@), any);
            let ideals = as_nats(v@);
            assert forall|i: int| 0 <= i < ideals.len() implies !(#[trigger] ideals[i] > u128::MAX) by {
                assert(ideals[i] == v@[i] as nat);
            }
        }
        match find_optimal_alpha(&v, any, round.matching_pool) {
            Ok(a) => Ok((v, a)),
            Err(e) => Err(e),
        }
    }

    /// The live matching of `round` from the contributions `round_cs` made in it:
    /// each eligible project with its matching, the scaling factor, and what is
    /// left of the pool.
    fn calculate_live_qf_distribution(&self, round: &Round, round_cs: &Vec<Contribution>) -> (r:
        Result<(Vec<ProjectWithMatching>, u32, u128), QfError>)
        requires
            self.wf(),
            self@.round_wf(round@),
            self@.has_round(round.round_id),
            self@.round(round.round_id) == round@,
            round_cs@ == for_round(self@.contributions, round.round_id),
        ensures
            match (r, live_view(self@, round.round_id)) {
                (Ok((ps, a, left)), Ok(d)) => ps@ == d.projects && a == d.current_alpha && left
                    == d.total_matching_available,
                (Err(e), Err(f)) => e == f,
                _ => false,
            },
    {
        let (ideals, alpha) = match self.round_alpha_exec(round, round_cs) {
            Ok(x) => x,
            Err(e) => {
                return Err(e);
            },
        };
        let el = &round.eligible_projects;
        let ghost gi = as_nats(ideals@);
        let ghost matches = matches_of(alpha as nat, gi);
        let ghost any = any_contribution(round_cs@, el@);
        proof {
            lemma_matches_within_pool(round.matching_pool as nat, gi, any);
        }
        let mut ps: Vec<ProjectWithMatching> = Vec::new();
        let mut used: u128 = 0;
        let mut i: usize = 0;
        while i < el.len()
            invariant
                self.wf(),
                self@.round_wf(round@),
                el@ == round@.eligible_projects,
                ideals@.len() == el@.len(),
                gi == as_nats(ideals@),
                alpha <= crate::matching::ALPHA_ONE,
                matches == matches_of(alpha as nat, gi),
                seq_sum(matches) <= round.matching_pool,
                gi == round_ideals(round_cs@, el@),
                round_alpha(round@, round_cs@) == Ok::<u32, QfError>(alpha),
                round_cs@ == for_round(self@.contributions, round.round_id),
                self@.has_round(round.round_id),
                self@.round(round.round_id) == round@,
                i <= el@.len(),
                used == seq_sum(matches.subrange(0, i as int)),
                ps@ == live_projects(self@, el@, gi, matches).subrange(0, i as int),
                forall|k: int|
                    0 <= k < i ==> #[trigger] self@.project(el@[k]).total_contributions
                        + matches[k] <= u128::MAX,
            decreases el.len() - i,
        {
            let pid = el[i];
            assert(self@.has_project(el@[i as int]));
            let project = self.projects[(pid - 1) as usize];
            let m = calculate_project_match(ideals[i], alpha);
            assert(m == matches[i as int]);
            let total_funding = match project.total_contributions.checked_add(m) {
                Some(t) => t,
                None => {
                    proof {
                        assert(project == self@.project(el@[i as int]));
                        assert(self@.project(el@[i as int]).total_contributions + matches[i as int]
                            > u128::MAX);
                        assert(round_ideals(round_cs@, el@) == gi);
                    }
                    return Err(QfError::Overflow);
                },
            };
            proof {
                assert(matches.subrange(0, i + 1).drop_last() =~= matches.subrange(0, i as int));
                lemma_seq_sum_prefix(matches, i + 1);
            }
            used = used + m;
            ps.push(
                ProjectWithMatching { project, ideal_match: ideals[i], scaled_match: m, total_funding },
            );
            i = i + 1;
            proof {
                assert(ps@ =~= live_projects(self@, el@, gi, matches).subrange(0, i as int));
            }
        }
        proof {
            assert(matches.subrange(0, el@.len() as int) =~= matches);
            assert(ps@ =~= live_projects(self@, el@, gi, matches));
        }
        Ok((ps, alpha, round.matching_pool - used))
    }

    /// The live matching of round `round_id` under the ledger as it stands.
    /// Read-only: it may be asked any number of times.
    pub fn get_round_data(&self, round_id: u32) -> (r: Result<RoundData, QfError>)
        requires
            self.wf(),
        ensures
            view_result(r) == live_view(self@, round_id),
    {
        if !(1 <= round_id && round_id < self.next_round_id) {
            return Err(QfError::RoundNotFound);
        }
        let round = self.round_ref(round_id);
        let contributions = contributions_for_round(&self.contributions, round_id);
        match self.calculate_live_qf_distribution(round, &contributions) {
            Ok((projects, current_alpha, total_matching_available)) => {
                let d = RoundData {
                    round_info: copy_round(round),
                    projects,
                    contributions,
                    current_alpha,
                    total_matching_available,
                };
                Ok(d)
            },
            Err(e) => Err(e),
        }
    }

    /// Fixes the scaling factor of round `round_id` from its final
    /// contributions; only the administrator may, and only once.
    pub fn finalize_round(&mut self, caller: Identity, round_id: u32) -> (r: Result<u32, QfError>)
        requires
            old(self).wf(),
        ensures
            final(self).wf(),
            (r, final(self)@) == finalize_outcome(old(self)@, caller, round_id),
    {
        if !caller.same(&self.admin) {
            return Err(QfError::NotAdmin);
        }
        if !(1 <= round_id && round_id < self.next_round_id) {
            return Err(QfError::RoundNotFound);
        }
        let round = self.round_ref(round_id);
        if round.is_finalized {
            return Err(QfError::AlreadyFinalized);
        }
        let round_cs = contributions_for_round(&self.contributions, round_id);
        let alpha = match self.round_alpha_exec(round, &round_cs) {
            Ok((_, a)) => a,
            Err(e) => {
                return Err(e);
            },
        };
        let mut updated = copy_round(round);
        updated.final_alpha = Some(alpha);
        updated.is_finalized = true;
        let ghost pre = self@;
        self.rounds.set((round_id - 1) as usize, updated);
        proof {
            let post = self@;
            assert(post.rounds =~= pre.rounds.update(round_id - 1, updated@));
            lemma_round_update_keeps_wf(pre, round_id, updated@);
        }
        Ok(alpha)
    }

    /// The transfers that distributing the matching funds of round
    /// `round_id` takes, given `sent_unscaled` base units for the pool, without
    /// distributing; only the administrator may ask.
    pub fn matching_payouts(&self, caller: Identity, round_id: u32, sent_unscaled: u128) -> (r:
        Result<Vec<Payout>, QfError>)
        requires
            self.wf(),
        ensures
            match r {
                Ok(v) => distribution_outcome(self@, caller, round_id, sent_unscaled) == Ok::<
                    Seq<Payout>,
                    QfError,
                >(v@),
                Err(e) => distribution_outcome(self@, caller, round_id, sent_unscaled) == Err::<
                    Seq<Payout>,
                    QfError,
                >(e),
            },
    {
        if !caller.same(&self.admin) {
            return Err(QfError::NotAdmin);
        }
        if !(1 <= round_id && round_id < self.next_round_id) {
            return Err(QfError::RoundNotFound);
        }
        let round = self.round_ref(round_id);
        if !round.is_finalized {
            return Err(QfError::NotFinalized);
        }
        if !round.active {
            return Err(QfError::AlreadyDistributed);
        }
        if sent_unscaled / STORAGE_SCALE != round.matching_pool {
            return Err(QfError::WrongPoolAmount);
        }
        let round_cs = contributions_for_round(&self.contributions, round_id);
        let (ideals, alpha) = match self.round_alpha_exec(round, &round_cs) {
            Ok(x) => x,
            Err(e) => {
                return Err(e);
            },
        };
        let el = &round.eligible_projects;
        let ghost gi = as_nats(ideals@);
        let ghost matches = matches_of(alpha as nat, gi);
        proof {
            lemma_matches_within_pool(
                round.matching_pool as nat,
                gi,
                any_contribution(round_cs@, el@),
            );
        }
        let mut out: Vec<Payout> = Vec::new();
        let mut i: usize = 0;
        while i < el.len()
            invariant
                self.wf(),
                self@.round_wf(round@),
                el@ == round@.eligible_projects,
                ideals@.len() == el@.len(),
                gi == as_nats(ideals@),
                alpha <= crate::matching::ALPHA_ONE,
                matches == matches_of(alpha as nat, gi),
                seq_sum(matches) <= round.matching_pool,
                round.matching_pool == sent_unscaled / STORAGE_SCALE,
                i <= el@.len(),
                out@ == payouts_upto(self@, el@, matches, i as nat),
            decreases el.len() - i,
        {
            let pid = el[i];
            assert(self@.has_project(el@[i as int]));
            let m = calculate_project_match(ideals[i], alpha);
            assert(m == matches[i as int]);
            if m > 0 {
                proof {
                    assert(matches.subrange(0, i + 1).drop_last() =~= matches.subrange(0, i as int));
                    lemma_seq_sum_prefix(matches, i + 1);
                    assert(m * STORAGE_SCALE <= sent_unscaled) by (nonlinear_arith)
                        requires
                            m <= sent_unscaled / STORAGE_SCALE,
                    ;
                }
                let project = self.projects[(pid - 1) as usize];
                out.push(Payout { wallet_address: project.wallet_address, amount: m * STORAGE_SCALE });
            }
            i = i + 1;
        }
        Ok(out)
    }

    /// Closes round `round_id` once its matching funds, as `matching_payouts`
    /// names them, have been sent. Fails, changing nothing, exactly where
    /// `matching_payouts` fails.
    pub fn distribute_matching_funds(&mut self, caller: Identity, round_id: u32, sent_unscaled: u128) -> (r:
        Result<(), QfError>)
        requires
            old(self).wf(),
        ensures
            final(self).wf(),
            (r, final(self)@) == distribute_outcome(old(self)@, caller, round_id, sent_unscaled),
    {
        match self.matching_payouts(caller, round_id, sent_unscaled) {
            Err(e) => {
                return Err(e);
            },
            Ok(_) => {},
        }
        let round = self.round_ref(round_id);
        let mut updated = copy_round(round);
        updated.active = false;
        let ghost pre = self@;
        self.rounds.set((round_id - 1) as usize, updated);
        proof {
            let post = self@;
            assert(post.rounds =~= pre.rounds.update(round_id - 1, updated@));
            lemma_round_update_keeps_wf(pre, round_id, updated@);
        }
        Ok(())
    }

    /// The statistics of contributor `caller`: the sum of its contributions
    /// in ledger units, the number of distinct projects it supported, and the
    /// rounds it took part in, in order of first participation.
    pub fn get_my_stats(&self, caller: Identity) -> (r: Result<(u128, u32, Vec<u32>), QfError>)
        ensures
            match r {
                Ok((total, n, rounds)) => stats_outcome(self@, caller) == Ok::<
                    (u128, u32, Seq<u32>),
                    QfError,
                >((total, n, rounds@)),
                Err(e) => stats_outcome(self@, caller) == Err::<(u128, u32, Seq<u32>), QfError>(e),
            },
    {
        let ghost cs = self@.contributions;
        let mut total: u128 = 0;
        let mut projects_supported: Vec<u32> = Vec::new();
        let mut rounds_participated: Vec<u32> = Vec::new();
        let mut k: usize = 0;
        while k < self.contributions.len()
            invariant
                cs == self@.contributions,
                k <= cs.len(),
                total == group_sum(cs.subrange(0, k as int), caller),
                projects_supported@ == first_seen(
                    project_ids(from_contributor(cs.subrange(0, k as int), caller)),
                ),
                rounds_participated@ == first_seen(
                    round_ids(from_contributor(cs.subrange(0, k as int), caller)),
                ),
            decreases self.contributions.len() - k,
        {
            let c = self.contributions[k];
            let ghost p = cs.subrange(0, k as int);
            let ghost q = cs.subrange(0, k + 1);
            proof {
                assert(q =~= p.push(c));
                lemma_push(p, c);
                let m = from_contributor(p, caller);
                lemma_push(m, c);
                assert(project_ids(m.push(c)) =~= project_ids(m).push(c.project_id));
                assert(round_ids(m.push(c)) =~= round_ids(m).push(c.round_id));
                lemma_first_seen_push(project_ids(m), c.project_id);
                lemma_first_seen_push(round_ids(m), c.round_id);
            }
            if c.contributor.same(&caller) {
                match total.checked_add(c.amount) {
                    Some(t) => {
                        total = t;
                    },
                    None => {
                        proof {
                            lemma_group_sum_prefix(cs, caller, k + 1);
                        }
                        return Err(QfError::Overflow);
                    },
                }
                if !contains_id(&projects_supported, c.project_id) {
                    projects_supported.push(c.project_id);
                }
                if !contains_id(&rounds_participated, c.round_id) {
                    rounds_participated.push(c.round_id);
                }
            }
            k = k + 1;
        }
        proof {
            assert(cs.subrange(0, cs.len() as int) =~= cs);
        }
        if projects_supported.len() > u32::MAX as usize {
            return Err(QfError::Overflow);
        }
        Ok((total, projects_supported.len() as u32, rounds_participated))
    }

    /// The ids of the rounds open for contributions at `now`, in increasing order.
    pub fn get_active_rounds(&self, now: u64) -> (r: Vec<u32>)
        ensures
            r@ == open_round_ids(self@.rounds, now),
    {
        let ghost rs = self@.rounds;
        let mut out: Vec<u32> = Vec::new();
        let mut i: usize = 0;
        while i < self.rounds.len()
            invariant
                rs == self@.rounds,
                i <= rs.len(),
                out@ == open_round_ids(rs.subrange(0, i as int), now),
            decreases self.rounds.len() - i,
        {
            let round = &self.rounds[i];
            proof {
                assert(rs[i as int] == round@);
                assert(rs.subrange(0, i + 1).drop_last() =~= rs.subrange(0, i as int));
            }
            if round.active && !round.is_finalized && round.start_time <= now && now <= round.end_time {
                out.push(round.round_id);
            }
            i = i + 1;
        }
        proof {
            assert(rs.subrange(0, rs.len() as int) =~= rs);
        }
        out
    }

    /// `scaled_amount` ledger units in base units; `None` where that does not
    /// fit in 128 bits.
    pub fn scale_up_amount(&self, scaled_amount: u128) -> (r: Option<u128>)
        ensures
            r == if scaled_amount * STORAGE_SCALE <= u128::MAX {
                Some((scaled_amount * STORAGE_SCALE) as u128)
            } else {
                None::<u128>
            },
    {
        scaled_amount.checked_mul(STORAGE_SCALE)
    }

    /// `amount_unscaled` base units in ledger units, rounded down.
    pub fn scale_down_amount(&self, amount_unscaled: u128) -> (r: u128)
        ensures
            r == amount_unscaled / STORAGE_SCALE,
    {
        amount_unscaled / STORAGE_SCALE
    }

    /// The divisor from base units to ledger units.
    pub fn get_storage_scale(&self) -> (r: u128)
        ensures
            r == STORAGE_SCALE,
    {
        STORAGE_SCALE
    }

    /// The administrator.
    pub fn admin(&self) -> (a: Identity)
        ensures
            a == self@.admin,
    {
        self.admin
    }

    /// The smallest accepted contribution, in ledger units.
    pub fn min_contribution(&self) -> (m: u128)
        ensures
            m == self@.min_contribution,
    {
        self.min_contribution
    }

    /// The id the next project will get.
    pub fn next_project_id(&self) -> (n: u32)
        requires
            self.wf(),
        ensures
            n == self@.projects.len() + 1,
    {
        self.next_project_id
    }

    /// The id the next round will get.
    pub fn next_round_id(&self) -> (n: u32)
        requires
            self.wf(),
        ensures
            n == self@.rounds.len() + 1,
    {
        self.next_round_id
    }

    /// The project with id `pid`, if any.
    pub fn get_project(&self, pid: u32) -> (p: Option<Project>)
        requires
            self.wf(),
        ensures
            p == if self@.has_project(pid) {
                Some(self@.project(pid))
            } else {
                None::<Project>
            },
    {
        if 1 <= pid && pid < self.next_project_id {
            Some(self.projects[(pid - 1) as usize])
        } else {
            None
        }
    }

    /// The round with id `rid`, if any.
    pub fn get_round(&self, rid: u32) -> (r: Option<Round>)
        requires
            self.wf(),
        ensures
            r.is_some() == self@.has_round(rid),
            r.is_some() ==> r.unwrap()@ == self@.round(rid),
    {
        if 1 <= rid && rid < self.next_round_id {
            Some(copy_round(&self.rounds[(rid - 1) as usize]))
        } else {
            None
        }
    }

    /// The whole ledger, in order of recording.
    pub fn contributions(&self) -> (c: Vec<Contribution>)
        ensures
            c@ == self@.contributions,
    {
        self.contributions.clone()
    }
}


/// Recording an accepted contribution keeps the registries and ledger in agreement.
proof fn lemma_contribution_keeps_wf(s: SystemView, c: Contribution)
    requires
        s.wf(),
        s.has_project(c.project_id),
        s.has_round(c.round_id),
        !s.round(c.round_id).is_finalized,
        s.project(c.project_id).total_contributions + c.amount <= u128::MAX,
        !backers(s.contributions, c.project_id).contains(c.contributor) ==> s.project(
            c.project_id,
        ).contributor_count < u32::MAX,
    ensures
        record_contribution(s, c).wf(),
{
    let post = record_contribution(s, c);
    let cs = s.contributions;
    lemma_push(cs, c);
    assert forall|k: int| 0 <= k < post.contributions.len() implies {
        &&& post.has_project(#[trigger] post.contributions[k].project_id)
        &&& post.has_round(post.contributions[k].round_id)
    } by {
        if k < cs.len() {
            assert(post.contributions[k] == cs[k]);
            assert(s.has_project(cs[k].project_id));
        } else {
            assert(post.contributions[k] == c);
        }
    }
    assert forall|i: int| 0 <= i < post.projects.len() implies #[trigger] post.projects[i].project_id
        == i + 1 by {
        assert(s.projects[i].project_id == i + 1);
    }
    assert forall|i: int| 0 <= i < post.rounds.len() implies post.round_wf(#[trigger] post.rounds[i]) by {
        let r = s.rounds[i];
        assert(s.round_wf(r));
        if r.is_finalized {
            assert(r.round_id != c.round_id);
            lemma_push(for_round(cs, r.round_id), c);
            assert(for_round(post.contributions, r.round_id) == for_round(cs, r.round_id));
        }
    }
    assert forall|i: int| 0 <= i < post.projects.len() implies post.project_tallies_wf(#[trigger] post.projects[i]) by {
        let p = s.projects[i];
        assert(s.project_tallies_wf(p));
        lemma_push(for_project(cs, p.project_id), c);
        lemma_backers_finite(cs, p.project_id);
        if p.project_id == c.project_id {
            assert(backers(post.contributions, p.project_id) == backers(cs, p.project_id).insert(c.contributor));
        } else {
            assert(post.projects[i] == p);
        }
    }
}


/// Replacing a round by one with the same id, pool and projects, finalized
/// only with the factor the ledger gives, keeps the system well formed.
proof fn lemma_round_update_keeps_wf(s: SystemView, rid: u32, r: RoundView)
    requires
        s.wf(),
        s.has_round(rid),
        r.round_id == rid,
        r.matching_pool == s.round(rid).matching_pool,
        r.eligible_projects == s.round(rid).eligible_projects,
        r.final_alpha.is_some() == r.is_finalized,
        r.is_finalized ==> round_alpha(r, for_round(s.contributions, rid)) == Ok::<u32, QfError>(
            r.final_alpha.unwrap(),
        ),
    ensures
        (SystemView { rounds: s.rounds.update(rid - 1, r), ..s }).wf(),
{
    let post = SystemView { rounds: s.rounds.update(rid - 1, r), ..s };
    assert(s.round_wf(s.rounds[rid - 1]));
    assert forall|i: int| 0 <= i < post.rounds.len() implies post.round_wf(#[trigger] post.rounds[i]) by {
        assert(s.round_wf(s.rounds[i]));
    }
    assert forall|i: int| 0 <= i < post.rounds.len() implies #[trigger] post.rounds[i].round_id == i + 1 by {
        assert(s.rounds[i].round_id == i + 1);
    }
    assert forall|i: int| 0 <= i < post.projects.len() implies post.project_tallies_wf(#[trigger] post.projects[i]) by {
        assert(s.project_tallies_wf(s.projects[i]));
    }
    assert forall|k: int| 0 <= k < post.contributions.len() implies {
        &&& post.has_project(#[trigger] post.contributions[k].project_id)
        &&& post.has_round(post.contributions[k].round_id)
    } by {
        assert(s.has_project(s.contributions[k].project_id));
    }
}


/// Appending to a sequence extends its first occurrences by the new value
/// exactly when it is new.
proof fn lemma_first_seen_push(s: Seq<u32>, x: u32)
    ensures
        first_seen(s.push(x)) == if first_seen(s).contains(x) {
            first_seen(s)
        } else {
            first_seen(s).push(x)
        },
{
    assert(s.push(x).drop_last() =~= s);
}

} // verus!
