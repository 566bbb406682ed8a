//! The contribution ledger: contribution records, the filters that select
//! them, and the per-contributor aggregation that matching is computed from.

use crate::isqrt::{floor_sqrt, lemma_floor_sqrt};
use vstd::prelude::*;

verus! {

/// An opaque account identity: a 20-byte address.
#[derive(Clone, Copy, Debug, PartialEq, Eq, Hash)]
pub struct Identity {
    pub bytes: [u8; 20],
}

impl Identity {
    /// Whether two identities are the same account.
    pub fn same(&self, other: &Identity) -> (r: bool)
        ensures
            r == (*self == *other),
    {
        let mut i: usize = 0;
        while i < 20
            invariant
                0 <= i <= 20,
                forall|k: int| 0 <= k < i ==> self.bytes[k] == other.bytes[k],
            decreases 20 - i,
        {
            if self.bytes[i] != other.bytes[i] {
                return false;
            }
            i = i + 1;
        }
        proof {
            assert(self.bytes =~= other.bytes);
        }
        true
    }
}

/// One contribution: `amount` in ledger units from `contributor` to a
/// project within a round.
#[derive(Clone, Copy, Debug, PartialEq, Eq)]
pub struct Contribution {
    pub amount: u128,
    pub contributor: Identity,
    pub project_id: u32,
    pub round_id: u32,
    pub timestamp: u64,
}

/// Sum of the amounts of `s`.
pub open spec fn amount_sum(s: Seq<Contribution>) -> nat
    decreases s.len(),
{
    if s.len() == 0 {
        0
    } else {
        (amount_sum(s.drop_last()) + s.last().amount) as nat
    }
}

/// Sum of the amounts of `s` given by `w`.
pub open spec fn group_sum(s: Seq<Contribution>, w: Identity) -> nat
    decreases s.len(),
{
    if s.len() == 0 {
        0
    } else if s.last().contributor == w {
        (group_sum(s.drop_last(), w) + s.last().amount) as nat
    } else {
        group_sum(s.drop_last(), w)
    }
}

/// The contributions of `s` not given by `w`, in order.
pub open spec fn without(s: Seq<Contribution>, w: Identity) -> Seq<Contribution>
    decreases s.len(),
{
    if s.len() == 0 {
        s
    } else if s.last().contributor == w {
        without(s.drop_last(), w)
    } else {
        without(s.drop_last(), w).push(s.last())
    }
}

/// The contributions of `s` made in round `rid`, in order.
pub open spec fn for_round(s: Seq<Contribution>, rid: u32) -> Seq<Contribution>
    decreases s.len(),
{
    if s.len() == 0 {
        s
    } else if s.last().round_id == rid {
        for_round(s.drop_last(), rid).push(s.last())
    } else {
        for_round(s.drop_last(), rid)
    }
}

/// The contributions of `s` made to project `pid`, in order.
pub open spec fn for_project(s: Seq<Contribution>, pid: u32) -> Seq<Contribution>
    decreases s.len(),
{
    if s.len() == 0 {
        s
    } else if s.last().project_id == pid {
        for_project(s.drop_last(), pid).push(s.last())
    } else {
        for_project(s.drop_last(), pid)
    }
}

/// The identities that contributed to project `pid` in `s`.
pub open spec fn backers(s: Seq<Contribution>, pid: u32) -> Set<Identity>
    decreases s.len(),
{
    if s.len() == 0 {
        Set::empty()
    } else if s.last().project_id == pid {
        backers(s.drop_last(), pid).insert(s.last().contributor)
    } else {
        backers(s.drop_last(), pid)
    }
}

/// Sum over contributors of the floor root of each one's combined amount:
/// a contributor's several contributions count as one.
pub open spec fn sum_sqrt(s: Seq<Contribution>) -> nat
    decreases s.len(),
    via sum_sqrt_decreases
{
    if s.len() == 0 {
        0
    } else {
        let w = s.last().contributor;
        floor_sqrt(group_sum(s, w)) + sum_sqrt(without(s, w))
    }
}

#[via_fn]
proof fn sum_sqrt_decreases(s: Seq<Contribution>) {
    if s.len() > 0 {
        lemma_without_shorter(s, s.last().contributor);
    }
}

/// The contributor identities of `s`, in order.
pub open spec fn contributors(s: Seq<Contribution>) -> Seq<Identity> {
    s.map_values(|c: Contribution| c.contributor)
}

/// The identities of an aggregation, in order.
pub open spec fn group_ids(g: Seq<(Identity, u128)>) -> Seq<Identity> {
    g.map_values(|e: (Identity, u128)| e.0)
}

/// Sum of the floor roots of the totals of an aggregation.
pub open spec fn group_roots(g: Seq<(Identity, u128)>) -> nat
    decreases g.len(),
{
    if g.len() == 0 {
        0
    } else {
        group_roots(g.drop_last()) + floor_sqrt(g.last().1 as nat)
    }
}

/// `g` holds each contributor of `s` once, with the sum of its amounts.
pub open spec fn is_aggregation(g: Seq<(Identity, u128)>, s: Seq<Contribution>) -> bool {
    &&& forall|a: int, b: int| 0 <= a < b < g.len() ==> g[a].0 != g[b].0
    &&& forall|j: int| 0 <= j < g.len() ==> g[j].1 == group_sum(s, #[trigger] g[j].0)
    &&& forall|w: Identity| group_ids(g).contains(w) <==> contributors(s).contains(w)
}

pub proof fn lemma_without_len(s: Seq<Contribution>, w: Identity)
    ensures
        without(s, w).len() <= s.len(),
    decreases s.len(),
{
    if s.len() > 0 {
        lemma_without_len(s.drop_last(), w);
    }
}

proof fn lemma_without_shorter(s: Seq<Contribution>, w: Identity)
    requires
        s.len() > 0,
        s.last().contributor == w,
    ensures
        without(s, w).len() < s.len(),
{
    lemma_without_len(s.drop_last(), w);
}

/// Appending a contribution extends every filter and sum by it.
pub proof fn lemma_push(s: Seq<Contribution>, c: Contribution)
    ensures
        s.push(c).drop_last() == s,
        s.push(c).last() == c,
        amount_sum(s.push(c)) == amount_sum(s) + c.amount,
{
    assert(s.push(c).drop_last() =~= s);
}

/// The amounts of one contributor are part of the total.
pub proof fn lemma_group_sum_le(s: Seq<Contribution>, w: Identity)
    ensures
        group_sum(s, w) <= amount_sum(s),
        amount_sum(s) == group_sum(s, w) + amount_sum(without(s, w)),
    decreases s.len(),
{
    if s.len() > 0 {
        lemma_group_sum_le(s.drop_last(), w);
        if s.last().contributor != w {
            lemma_push(without(s.drop_last(), w), s.last());
        }
    }
}

/// Taking out `v` leaves the amounts of every other contributor as they were.
pub proof fn lemma_group_sum_without(s: Seq<Contribution>, v: Identity, w: Identity)
    ensures
        group_sum(without(s, v), w) == if w == v {
            0
        } else {
            group_sum(s, w)
        },
    decreases s.len(),
{
    if s.len() > 0 {
        lemma_group_sum_without(s.drop_last(), v, w);
        if s.last().contributor != v {
            lemma_push(without(s.drop_last(), v), s.last());
        }
    }
}

/// Taking out two contributors in either order gives the same sequence.
proof fn lemma_without_commutes(s: Seq<Contribution>, v: Identity, w: Identity)
    ensures
        without(without(s, v), w) == without(without(s, w), v),
    decreases s.len(),
{
    if s.len() > 0 {
        lemma_without_commutes(s.drop_last(), v, w);
        let c = s.last();
        if c.contributor != v {
            lemma_push(without(s.drop_last(), v), c);
        }
        if c.contributor != w {
            lemma_push(without(s.drop_last(), w), c);
        }
    }
}

/// The root sum of `s` splits into the root of any one contributor's total
/// and the root sum of everyone else.
pub proof fn lemma_sum_sqrt_split(s: Seq<Contribution>, w: Identity)
    ensures
        sum_sqrt(s) == floor_sqrt(group_sum(s, w)) + sum_sqrt(without(s, w)),
    decreases s.len(),
{
    if s.len() == 0 {
        assert(floor_sqrt(0) == 0);
    } else {
        let v = s.last().contributor;
        if v != w {
            lemma_without_shorter(s, v);
            lemma_sum_sqrt_split(without(s, v), w);
            lemma_group_sum_without(s, v, w);
            lemma_without_commutes(s, v, w);
            // without(s, w) still ends with the contribution of v
            lemma_push(without(s.drop_last(), w), s.last());
            lemma_group_sum_without(s, w, v);
            assert(without(s, w).last().contributor == v);
        }
    }
}

/// The root sum of a sequence depends only on each contributor's total.
pub proof fn lemma_sum_sqrt_by_totals(s: Seq<Contribution>, t: Seq<Contribution>)
    requires
        forall|w: Identity| group_sum(s, w) == group_sum(t, w),
    ensures
        sum_sqrt(s) == sum_sqrt(t),
    decreases s.len() + t.len(),
{
    if s.len() == 0 && t.len() == 0 {
    } else {
        let v = if s.len() > 0 {
            s.last().contributor
        } else {
            t.last().contributor
        };
        lemma_sum_sqrt_split(s, v);
        lemma_sum_sqrt_split(t, v);
        if s.len() > 0 {
            lemma_without_shorter(s, v);
        } else {
            lemma_without_shorter(t, v);
        }
        lemma_without_len(s, v);
        lemma_without_len(t, v);
        assert forall|w: Identity| group_sum(without(s, v), w) == group_sum(without(t, v), w) by {
            lemma_group_sum_without(s, v, w);
            lemma_group_sum_without(t, v, w);
        }
        lemma_sum_sqrt_by_totals(without(s, v), without(t, v));
    }
}

/// The root sum never exceeds the total amount.
pub proof fn lemma_sum_sqrt_le(s: Seq<Contribution>)
    ensures
        sum_sqrt(s) <= amount_sum(s),
    decreases s.len(),
{
    if s.len() > 0 {
        let w = s.last().contributor;
        lemma_without_shorter(s, w);
        lemma_sum_sqrt_le(without(s, w));
        lemma_group_sum_le(s, w);
        lemma_floor_sqrt(group_sum(s, w));
    }
}

/// A contributor absent from `s` has nothing in it.
proof fn lemma_absent_sum_zero(s: Seq<Contribution>, w: Identity)
    requires
        !contributors(s).contains(w),
    ensures
        group_sum(s, w) == 0,
    decreases s.len(),
{
    if s.len() > 0 {
        let d = s.drop_last();
        assert forall|i: int| 0 <= i < d.len() implies contributors(d)[i] != w by {
            assert(contributors(s)[i] == contributors(d)[i]);
        }
        assert(contributors(s)[s.len() - 1] == s.last().contributor);
        lemma_absent_sum_zero(d, w);
    }
}

/// The root sum of an aggregation equals the root sum of what it aggregates.
pub proof fn lemma_aggregation_roots(g: Seq<(Identity, u128)>, s: Seq<Contribution>)
    requires
        is_aggregation(g, s),
    ensures
        group_roots(g) == sum_sqrt(s),
    decreases g.len(),
{
    if g.len() == 0 {
        assert forall|w: Identity| group_sum(s, w) == group_sum(Seq::<Contribution>::empty(), w) by {
            if contributors(s).contains(w) {
                assert(group_ids(g).contains(w));
                let j = choose|j: int| 0 <= j < group_ids(g).len() && group_ids(g)[j] == w;
            }
            lemma_absent_sum_zero(s, w);
        }
        lemma_sum_sqrt_by_totals(s, Seq::<Contribution>::empty());
    } else {
        let v = g.last().0;
        let gd = g.drop_last();
        let sv = without(s, v);
        lemma_sum_sqrt_split(s, v);
        assert(g[g.len() - 1].1 == group_sum(s, g[g.len() - 1].0));
        assert forall|j: int| 0 <= j < gd.len() implies gd[j].1 == group_sum(sv, #[trigger] gd[j].0) by {
            assert(g[j] == gd[j]);
            assert(g[j].0 != g[g.len() - 1].0);
            lemma_group_sum_without(s, v, gd[j].0);
        }
        assert forall|w: Identity| group_ids(gd).contains(w) <==> contributors(sv).contains(w) by {
            lemma_group_sum_without(s, v, w);
            if group_ids(gd).contains(w) {
                let j = choose|j: int| 0 <= j < group_ids(gd).len() && group_ids(gd)[j] == w;
                assert(group_ids(g)[j] == w);
                assert(w != v);
                lemma_contributor_of_without(s, v, w);
            }
            if contributors(sv).contains(w) {
                lemma_contributor_of_without(s, v, w);
                assert(group_ids(g).contains(w));
                let j = choose|j: int| 0 <= j < group_ids(g).len() && group_ids(g)[j] == w;
                if j == g.len() - 1 {
                    assert(false);
                }
                assert(group_ids(gd)[j] == w);
            }
        }
        assert forall|a: int, b: int| 0 <= a < b < gd.len() implies gd[a].0 != gd[b].0 by {
            assert(g[a] == gd[a] && g[b] == gd[b]);
        }
        lemma_aggregation_roots(gd, sv);
    }
}

/// `w` contributes to `without(s, v)` exactly when it contributes to `s` and
/// is not `v`.
proof fn lemma_contributor_of_without(s: Seq<Contribution>, v: Identity, w: Identity)
    ensures
        contributors(without(s, v)).contains(w) <==> (w != v && contributors(s).contains(w)),
    decreases s.len(),
{
    if s.len() > 0 {
        let d = s.drop_last();
        let c = s.last();
        lemma_contributor_of_without(d, v, w);
        lemma_contributors_push(d, c, w);
        assert(s == d.push(c)) by {
            assert(s =~= d.push(c));
        }
        if c.contributor != v {
            lemma_contributors_push(without(d, v), c, w);
        }
    } else {
        assert(contributors(s).len() == 0);
    }
}

/// The contributors of `s.push(c)` are those of `s` and `c`'s.
pub proof fn lemma_contributors_push(s: Seq<Contribution>, c: Contribution, w: Identity)
    ensures
        contributors(s.push(c)).contains(w) <==> (contributors(s).contains(w) || c.contributor
            == w),
{
    let a = contributors(s);
    let b = contributors(s.push(c));
    assert(b =~= a.push(c.contributor));
    if a.contains(w) {
        let i = choose|i: int| 0 <= i < a.len() && a[i] == w;
        assert(b[i] == w);
    }
    if b.contains(w) {
        let i = choose|i: int| 0 <= i < b.len() && b[i] == w;
        if i < a.len() {
            assert(a[i] == w);
        }
    }
    if c.contributor == w {
        assert(b[a.len() as int] == w);
    }
}


/// Selecting a round keeps at most the whole amount.
pub proof fn lemma_for_round_le(s: Seq<Contribution>, rid: u32)
    ensures
        amount_sum(for_round(s, rid)) <= amount_sum(s),
    decreases s.len(),
{
    if s.len() > 0 {
        lemma_for_round_le(s.drop_last(), rid);
        lemma_push(for_round(s.drop_last(), rid), s.last());
    }
}

/// Selecting by round and by project commute.
pub proof fn lemma_filters_commute(s: Seq<Contribution>, rid: u32, pid: u32)
    ensures
        for_project(for_round(s, rid), pid) == for_round(for_project(s, pid), rid),
    decreases s.len(),
{
    if s.len() > 0 {
        let d = s.drop_last();
        let c = s.last();
        lemma_filters_commute(d, rid, pid);
        lemma_push(for_round(d, rid), c);
        lemma_push(for_project(d, pid), c);
        lemma_push(for_project(for_round(d, rid), pid), c);
        lemma_push(for_round(for_project(d, pid), rid), c);
    }
}

/// What a round holds for a project is part of what the project holds.
pub proof fn lemma_round_project_le(s: Seq<Contribution>, rid: u32, pid: u32)
    ensures
        amount_sum(for_project(for_round(s, rid), pid)) <= amount_sum(for_project(s, pid)),
{
    lemma_filters_commute(s, rid, pid);
    lemma_for_round_le(for_project(s, pid), rid);
}

/// The contributions of `ledger` made in round `rid`, in order.
pub fn contributions_for_round(ledger: &Vec<Contribution>, rid: u32) -> (r: Vec<Contribution>)
    ensures
        r@ == for_round(ledger@, rid),
{
    let mut r: Vec<Contribution> = Vec::new();
    let mut i: usize = 0;
    while i < ledger.len()
        invariant
            i <= ledger@.len(),
            r@ == for_round(ledger@.subrange(0, i as int), rid),
        decreases ledger.len() - i,
    {
        let c = ledger[i];
        proof {
            lemma_push(ledger@.subrange(0, i as int), c);
            assert(ledger@.subrange(0, i + 1) =~= ledger@.subrange(0, i as int).push(c));
        }
        if c.round_id == rid {
            r.push(c);
        }
        i = i + 1;
    }
    proof {
        assert(ledger@.subrange(0, ledger@.len() as int) =~= ledger@);
    }
    r
}

/// The contributions of `cs` made to project `pid`, in order.
pub fn contributions_for_project(cs: &Vec<Contribution>, pid: u32) -> (r: Vec<Contribution>)
    ensures
        r@ == for_project(cs@, pid),
{
    let mut r: Vec<Contribution> = Vec::new();
    let mut i: usize = 0;
    while i < cs.len()
        invariant
            i <= cs@.len(),
            r@ == for_project(cs@.subrange(0, i as int), pid),
        decreases cs.len() - i,
    {
        let c = cs[i];
        proof {
            lemma_push(cs@.subrange(0, i as int), c);
            assert(cs@.subrange(0, i + 1) =~= cs@.subrange(0, i as int).push(c));
        }
        if c.project_id == pid {
            r.push(c);
        }
        i = i + 1;
    }
    proof {
        assert(cs@.subrange(0, cs@.len() as int) =~= cs@);
    }
    r
}

/// Groups `cs` by contributor: one entry per contributor, in order of first
/// appearance, holding the sum of that contributor's amounts.
pub fn aggregate_by_contributor(cs: &Vec<Contribution>) -> (g: Vec<(Identity, u128)>)
    requires
        amount_sum(cs@) <= u128::MAX,
    ensures
        is_aggregation(g@, cs@),
{
    let mut g: Vec<(Identity, u128)> = Vec::new();
    let mut i: usize = 0;
    while i < cs.len()
        invariant
            i <= cs@.len(),
            amount_sum(cs@) <= u128::MAX,
            is_aggregation(g@, cs@.subrange(0, i as int)),
        decreases cs.len() - i,
    {
        let c = cs[i];
        let ghost p = cs@.subrange(0, i as int);
        let ghost q = cs@.subrange(0, i + 1);
        proof {
            assert(q =~= p.push(c));
            lemma_push(p, c);
            lemma_prefix_sum_le(cs@, i + 1);
            lemma_group_sum_le(q, c.contributor);
        }
        let mut j: usize = 0;
        while j < g.len() && !g[j].0.same(&c.contributor)
            invariant
                j <= g@.len(),
                forall|k: int| 0 <= k < j ==> g@[k].0 != c.contributor,
            decreases g.len() - j,
        {
            j = j + 1;
        }
        let found = j < g.len();
        proof {
            if found {
                assert(g@[j as int].1 == group_sum(p, g@[j as int].0));
            }
        }
        let ghost old_g = g@;
        if found {
            let t = g[j].1;
            g.set(j, (c.contributor, t + c.amount));
        } else {
            g.push((c.contributor, c.amount));
        }
        proof {
            assert forall|w: Identity| group_ids(g@).contains(w) <==> contributors(q).contains(w) by {
                lemma_contributors_push(p, c, w);
                if group_ids(g@).contains(w) {
                    let k = choose|k: int| 0 <= k < group_ids(g@).len() && group_ids(g@)[k] == w;
                    if k < old_g.len() {
                        assert(group_ids(old_g)[k] == w);
                    }
                }
                if group_ids(old_g).contains(w) {
                    let k = choose|k: int| 0 <= k < group_ids(old_g).len() && group_ids(old_g)[k] == w;
                    assert(group_ids(g@)[k] == w);
                }
                if c.contributor == w {
                    if found {
                        assert(group_ids(g@)[j as int] == w);
                    } else {
                        assert(group_ids(g@)[old_g.len() as int] == w);
                    }
                }
            }
            if !found {
                assert(!group_ids(old_g).contains(c.contributor)) by {
                    if group_ids(old_g).contains(c.contributor) {
                        let k = choose|k: int| 0 <= k < group_ids(old_g).len() && group_ids(old_g)[k] == c.contributor;
                        assert(old_g[k].0 == c.contributor);
                    }
                }
                assert(!contributors(p).contains(c.contributor));
                lemma_absent_sum_zero(p, c.contributor);
            }
        }
        i = i + 1;
    }
    proof {
        assert(cs@.subrange(0, cs@.len() as int) =~= cs@);
    }
    g
}

/// A prefix holds at most the whole amount.
proof fn lemma_prefix_sum_le(s: Seq<Contribution>, n: int)
    requires
        0 <= n <= s.len(),
    ensures
        amount_sum(s.subrange(0, n)) <= amount_sum(s),
    decreases s.len(),
{
    if n < s.len() {
        assert(s.drop_last() =~= s.subrange(0, s.len() - 1));
        assert(s.drop_last().subrange(0, n) =~= s.subrange(0, n));
        lemma_prefix_sum_le(s.drop_last(), n);
    } else {
        assert(s.subrange(0, n) =~= s);
    }
}


/// A project with no contribution in `s` has nothing recorded there.
pub proof fn lemma_for_project_absent(s: Seq<Contribution>, pid: u32)
    requires
        forall|k: int| 0 <= k < s.len() ==> #[trigger] s[k].project_id != pid,
    ensures
        for_project(s, pid).len() == 0,
        amount_sum(for_project(s, pid)) == 0,
        backers(s, pid) == Set::<Identity>::empty(),
    decreases s.len(),
{
    if s.len() > 0 {
        let d = s.drop_last();
        assert forall|k: int| 0 <= k < d.len() implies #[trigger] d[k].project_id != pid by {
            assert(d[k] == s[k]);
        }
        assert(s[s.len() - 1] == s.last());
        lemma_for_project_absent(d, pid);
    }
}

/// The backers of a project form a finite set.
pub proof fn lemma_backers_finite(s: Seq<Contribution>, pid: u32)
    ensures
        backers(s, pid).finite(),
    decreases s.len(),
{
    if s.len() > 0 {
        lemma_backers_finite(s.drop_last(), pid);
    }
}

/// `w` backs `pid` in `s` exactly when some contribution of `s` is from `w` to `pid`.
pub proof fn lemma_backers_member(s: Seq<Contribution>, pid: u32, w: Identity)
    ensures
        backers(s, pid).contains(w) <==> exists|k: int|
            0 <= k < s.len() && #[trigger] s[k].contributor == w && s[k].project_id == pid,
    decreases s.len(),
{
    if s.len() > 0 {
        let d = s.drop_last();
        lemma_backers_member(d, pid, w);
        if exists|k: int| 0 <= k < d.len() && #[trigger] d[k].contributor == w && d[k].project_id == pid {
            let k = choose|k: int| 0 <= k < d.len() && #[trigger] d[k].contributor == w && d[k].project_id == pid;
            assert(s[k] == d[k]);
        }
        if exists|k: int| 0 <= k < s.len() && #[trigger] s[k].contributor == w && s[k].project_id == pid {
            let k = choose|k: int| 0 <= k < s.len() && #[trigger] s[k].contributor == w && s[k].project_id == pid;
            if k < d.len() {
                assert(d[k] == s[k]);
            }
        }
        assert(s[s.len() - 1] == s.last());
    }
}


/// The contributions of `s` given by `w`, in order.
pub open spec fn from_contributor(s: Seq<Contribution>, w: Identity) -> Seq<Contribution>
    decreases s.len(),
{
    if s.len() == 0 {
        s
    } else if s.last().contributor == w {
        from_contributor(s.drop_last(), w).push(s.last())
    } else {
        from_contributor(s.drop_last(), w)
    }
}

/// The distinct values of `s`, each where it first occurs.
pub open spec fn first_seen(s: Seq<u32>) -> Seq<u32>
    decreases s.len(),
{
    if s.len() == 0 {
        s
    } else {
        let f = first_seen(s.drop_last());
        if f.contains(s.last()) {
            f
        } else {
            f.push(s.last())
        }
    }
}

/// The project ids of `s`, in order.
pub open spec fn project_ids(s: Seq<Contribution>) -> Seq<u32> {
    s.map_values(|c: Contribution| c.project_id)
}

/// The round ids of `s`, in order.
pub open spec fn round_ids(s: Seq<Contribution>) -> Seq<u32> {
    s.map_values(|c: Contribution| c.round_id)
}

/// A prefix holds at most a contributor's whole amount.
pub proof fn lemma_group_sum_prefix(s: Seq<Contribution>, w: Identity, n: int)
    requires
        0 <= n <= s.len(),
    ensures
        group_sum(s.subrange(0, n), w) <= group_sum(s, w),
    decreases s.len(),
{
    if n < s.len() {
        assert(s.drop_last() =~= s.subrange(0, s.len() - 1));
        assert(s.drop_last().subrange(0, n) =~= s.subrange(0, n));
        lemma_group_sum_prefix(s.drop_last(), w, n);
    } else {
        assert(s.subrange(0, n) =~= s);
    }
}

} // verus!
