//! The scheduling engine: domain store, balance tracker and the greedy
//! single-pass assignment algorithm.

use vstd::prelude::*;

use crate::entity::Constraint;
use crate::entity::Match;
use crate::entity::MatchView;
use crate::entity::Team;
use crate::entity::TeamView;
use crate::entity::accepts_all;

verus! {

/// Number of group numbers in the default configuration; groups run 1..=4.
pub const GROUP_COUNT: u8 = 4;

/// The views of a fixture list, in commit order.
pub open spec fn fixture_views(s: Seq<Match>) -> Seq<MatchView> {
    s.map_values(|m: Match| m@)
}

/// A fixture counts toward competitor `c` and group `g` when `c` plays in it
/// against an opponent from group `g`, on either side.
pub open spec fn involves(m: MatchView, c: TeamView, g: u8) -> bool {
    (m.home == c && m.away.group == g) || (m.away == c && m.home.group == g)
}

/// How many fixtures of `s` involve competitor `c` against group `g`.
pub open spec fn count_involving(s: Seq<MatchView>, c: TeamView, g: u8) -> nat
    decreases s.len(),
{
    if s.len() == 0 {
        0
    } else {
        count_involving(s.drop_last(), c, g) + if involves(s.last(), c, g) {
            1nat
        } else {
            0nat
        }
    }
}

/// Fixtures come in two-leg pairs: the fixture after each forward fixture is
/// its return fixture, with home and away swapped.
pub open spec fn two_leg(s: Seq<MatchView>) -> bool {
    &&& s.len() % 2 == 0
    &&& forall|k: int|
        0 <= k < s.len() && k % 2 == 0 ==> (#[trigger] s[k]).away == s[k + 1].home && s[k].home
            == s[k + 1].away
}

/// Every forward fixture (the first leg of each pair) was accepted by the
/// whole rule list.
pub open spec fn forwards_accepted(s: Seq<MatchView>, cs: Seq<Constraint>) -> bool {
    forall|k: int|
        0 <= k < s.len() && k % 2 == 0 ==> accepts_all(cs, (#[trigger] s[k]).home, s[k].away)
}

proof fn lemma_views_push(s: Seq<Match>, m: Match)
    ensures
        fixture_views(s.push(m)) == fixture_views(s).push(m@),
{
    assert(fixture_views(s.push(m)) =~= fixture_views(s).push(m@));
}

proof fn lemma_count_push(s: Seq<MatchView>, m: MatchView, c: TeamView, g: u8)
    ensures
        count_involving(s.push(m), c, g) == count_involving(s, c, g) + (if involves(m, c, g) {
            1nat
        } else {
            0nat
        }),
{
    assert(s.push(m).drop_last() =~= s);
    assert(s.push(m).last() == m);
}

proof fn lemma_count_le_len(s: Seq<MatchView>, c: TeamView, g: u8)
    ensures
        count_involving(s, c, g) <= s.len(),
    decreases s.len(),
{
    if s.len() > 0 {
        lemma_count_le_len(s.drop_last(), c, g);
    }
}

/// How many fixtures of `s` have `c` at home against an opponent of group `g`.
pub open spec fn count_home(s: Seq<MatchView>, c: TeamView, g: u8) -> nat
    decreases s.len(),
{
    if s.len() == 0 {
        0
    } else {
        count_home(s.drop_last(), c, g) + if s.last().home == c && s.last().away.group == g {
            1nat
        } else {
            0nat
        }
    }
}

/// How many fixtures of `s` have `c` away against an opponent of group `g`.
pub open spec fn count_away(s: Seq<MatchView>, c: TeamView, g: u8) -> nat
    decreases s.len(),
{
    if s.len() == 0 {
        0
    } else {
        count_away(s.drop_last(), c, g) + if s.last().away == c && s.last().home.group == g {
            1nat
        } else {
            0nat
        }
    }
}

proof fn lemma_count_home_push(s: Seq<MatchView>, m: MatchView, c: TeamView, g: u8)
    ensures
        count_home(s.push(m), c, g) == count_home(s, c, g) + (if m.home == c && m.away.group == g {
            1nat
        } else {
            0nat
        }),
{
    assert(s.push(m).drop_last() =~= s);
    assert(s.push(m).last() == m);
}

proof fn lemma_count_away_push(s: Seq<MatchView>, m: MatchView, c: TeamView, g: u8)
    ensures
        count_away(s.push(m), c, g) == count_away(s, c, g) + (if m.away == c && m.home.group == g {
            1nat
        } else {
            0nat
        }),
{
    assert(s.push(m).drop_last() =~= s);
    assert(s.push(m).last() == m);
}

/// The domain table as a mathematical matrix of candidacy flags.
pub open spec fn dom_mat(d: Seq<Vec<bool>>) -> Seq<Seq<bool>> {
    d.map_values(|r: Vec<bool>| r@)
}

/// The position of the first candidate at or after `j` that is still in
/// `t`'s domain and that the rule list accepts.
pub open spec fn first_candidate_from(
    doms: Seq<Seq<bool>>,
    teams: Seq<Team>,
    cs: Seq<Constraint>,
    t: int,
    j: int,
) -> Option<int>
    decreases teams.len() - j,
{
    if j < 0 || j >= teams.len() {
        Option::None
    } else if doms[t][j] && accepts_all(cs, teams[t]@, teams[j]@) {
        Option::Some(j)
    } else {
        first_candidate_from(doms, teams, cs, t, j + 1)
    }
}

/// One engine step: competitor `t` commits a two-leg pairing with its first
/// accepted candidate and the pair leaves each other's domains, or — with no
/// acceptable candidate — the state is left unchanged.
pub open spec fn pass_step(
    doms: Seq<Seq<bool>>,
    fixtures: Seq<MatchView>,
    teams: Seq<Team>,
    cs: Seq<Constraint>,
    t: int,
) -> (Seq<Seq<bool>>, Seq<MatchView>) {
    match first_candidate_from(doms, teams, cs, t, 0) {
        Option::None => (doms, fixtures),
        Option::Some(j) => {
            let d1 = doms.update(t, doms[t].update(j, false));
            let d2 = d1.update(j, d1[j].update(t, false));
            let f2 = fixtures.push(MatchView { home: teams[t]@, away: teams[j]@ }).push(
                MatchView { home: teams[j]@, away: teams[t]@ },
            );
            (d2, f2)
        },
    }
}

/// The greedy pass from competitor `t` on: what the domain table and the
/// fixture list become once every remaining competitor has taken its turn.
pub open spec fn run_from(
    doms: Seq<Seq<bool>>,
    fixtures: Seq<MatchView>,
    teams: Seq<Team>,
    cs: Seq<Constraint>,
    t: int,
) -> (Seq<Seq<bool>>, Seq<MatchView>)
    decreases teams.len() - t,
{
    if t < 0 || t >= teams.len() {
        (doms, fixtures)
    } else {
        let stepped = pass_step(doms, fixtures, teams, cs, t);
        run_from(stepped.0, stepped.1, teams, cs, t + 1)
    }
}

proof fn lemma_first_candidate_some(
    doms: Seq<Seq<bool>>,
    teams: Seq<Team>,
    cs: Seq<Constraint>,
    t: int,
    lo: int,
    j: int,
)
    requires
        0 <= lo <= j < teams.len(),
        doms[t][j],
        accepts_all(cs, teams[t]@, teams[j]@),
        forall|j2: int|
            lo <= j2 < j ==> !((#[trigger] doms[t][j2]) && accepts_all(cs, teams[t]@, teams[j2]@)),
    ensures
        first_candidate_from(doms, teams, cs, t, lo) == Option::Some(j),
    decreases j - lo,
{
    if lo < j {
        lemma_first_candidate_some(doms, teams, cs, t, lo + 1, j);
    }
}

proof fn lemma_first_candidate_none(
    doms: Seq<Seq<bool>>,
    teams: Seq<Team>,
    cs: Seq<Constraint>,
    t: int,
    lo: int,
)
    requires
        0 <= lo,
        forall|j2: int|
            lo <= j2 < teams.len() ==> !((#[trigger] doms[t][j2]) && accepts_all(
                cs,
                teams[t]@,
                teams[j2]@,
            )),
    ensures
        first_candidate_from(doms, teams, cs, t, lo) == Option::<int>::None,
    decreases teams.len() - lo,
{
    if lo < teams.len() {
        lemma_first_candidate_none(doms, teams, cs, t, lo + 1);
    }
}

/// Roster well-formedness: every group number lies in 1..=group_count, names
/// are non-empty, and the name identifies the competitor uniquely.
pub open spec fn roster_ok(s: Seq<Team>, group_count: u8) -> bool {
    &&& forall|i: int| 0 <= i < s.len() ==> 1 <= (#[trigger] s[i])@.group <= group_count
    &&& forall|i: int| 0 <= i < s.len() ==> (#[trigger] s[i])@.name.len() > 0
    &&& forall|i: int, j: int|
        0 <= i < s.len() && 0 <= j < s.len() && i != j ==> (#[trigger] s[i])@.name != (
        #[trigger] s[j])@.name
}

/// Constraint invariant: whenever the different-country rule is among the
/// rules, every committed fixture — forward and return leg alike — pairs
/// competitors from different countries, and never a competitor with itself.
pub proof fn lemma_fixtures_different_country(s: Seq<MatchView>, cs: Seq<Constraint>)
    requires
        two_leg(s),
        forwards_accepted(s, cs),
        cs.contains(Constraint::DifferentCountry),
    ensures
        forall|k: int| 0 <= k < s.len() ==> (#[trigger] s[k]).home.country != s[k].away.country,
        forall|k: int| 0 <= k < s.len() ==> (#[trigger] s[k]).home != s[k].away,
{
    let ci = choose|ci: int| 0 <= ci < cs.len() && cs[ci] == Constraint::DifferentCountry;
    assert forall|k: int| 0 <= k < s.len() implies (#[trigger] s[k]).home.country
        != s[k].away.country by {
        if k % 2 == 0 {
            assert(accepts_all(cs, s[k].home, s[k].away));
            assert(crate::entity::constraint_holds(cs[ci], s[k].home, s[k].away));
        } else {
            let k0 = k - 1;
            assert(0 <= k0 < s.len() && k0 % 2 == 0);
            assert(s[k0].away == s[k0 + 1].home && s[k0].home == s[k0 + 1].away);
            assert(accepts_all(cs, s[k0].home, s[k0].away));
            assert(crate::entity::constraint_holds(cs[ci], s[k0].home, s[k0].away));
        }
    }
}

/// Domain monotonicity: every engine step only shrinks domains pointwise,
/// so a candidate pair absent before a step is still absent after it.
pub proof fn lemma_domain_monotonic(before: CSPMatches, after: CSPMatches, a: int, b: int)
    requires
        0 <= a < before.n(),
        0 <= b < before.n(),
        after.n() == before.n(),
        forall|i: int, j: int|
            0 <= i < after.n() && 0 <= j < after.n() && (#[trigger] after.domains@[i]@[j])
                ==> before.domains@[i]@[j],
        !before.domains@[a]@[b],
        !before.domains@[b]@[a],
    ensures
        !after.domains@[a]@[b],
        !after.domains@[b]@[a],
{
}

/// The scheduling engine for one run: the roster, the per-competitor
/// candidate domains, the rule list, the committed fixtures and the
/// per-group balance counters.
///
/// Domains and counters are stored arena-style, keyed by roster position:
/// `domains[i][j]` says whether the competitor at position `j` is still a
/// candidate opponent for the one at position `i`, and
/// `group_requirements[i][g - 1]` is the (home, away) counter of competitor
/// `i` against group `g`.
pub struct CSPMatches {
    pub teams: Vec<Team>,
    pub domains: Vec<Vec<bool>>,
    pub constraints: Vec<Constraint>,
    pub scheduled_matches: Vec<Match>,
    pub group_requirements: Vec<Vec<(u64, u64)>>,
    pub group_count: u8,
    pub completed: bool,
}

impl CSPMatches {
    /// Roster size.
    pub open spec fn n(self) -> int {
        self.teams@.len() as int
    }

    /// The domain table is square and no competitor is its own candidate.
    pub open spec fn domains_wf(self) -> bool {
        &&& self.domains@.len() == self.n()
        &&& forall|i: int| 0 <= i < self.n() ==> (#[trigger] self.domains@[i])@.len() == self.n()
        &&& forall|i: int| 0 <= i < self.n() ==> !(#[trigger] self.domains@[i])@[i]
    }

    /// The balance table has one row per competitor and one cell per group.
    pub open spec fn tracker_wf(self) -> bool {
        &&& self.group_requirements@.len() == self.n()
        &&& forall|i: int|
            0 <= i < self.n() ==> (#[trigger] self.group_requirements@[i])@.len()
                == self.group_count as int
    }

    /// Well-formedness of the whole engine state.
    pub open spec fn wf(self) -> bool {
        &&& self.group_count >= 1
        &&& roster_ok(self.teams@, self.group_count)
        &&& self.domains_wf()
        &&& self.tracker_wf()
    }

    /// The balance cell of competitor `i` against group `g`.
    pub open spec fn balance(self, i: int, g: u8) -> (u64, u64) {
        self.group_requirements@[i]@[g - 1]
    }

    /// Balance consistency: each competitor's home and away counts against a
    /// group sum to the number of committed fixtures that involve it against
    /// that group.
    pub open spec fn balanced(self) -> bool {
        forall|i: int, g: u8|
            0 <= i < self.n() && 1 <= g <= self.group_count ==> (#[trigger] self.balance(i, g)).0
                + self.balance(i, g).1 == count_involving(
                fixture_views(self.scheduled_matches@),
                self.teams@[i]@,
                g,
            )
    }

    /// The counters are exactly the per-group home and away fixture counts
    /// of the committed list.
    pub open spec fn counters_exact(self) -> bool {
        forall|i: int, g: u8|
            0 <= i < self.n() && 1 <= g <= self.group_count ==> (#[trigger] self.balance(i, g)).0
                == count_home(fixture_views(self.scheduled_matches@), self.teams@[i]@, g)
                && self.balance(i, g).1 == count_away(
                fixture_views(self.scheduled_matches@),
                self.teams@[i]@,
                g,
            )
    }

    /// All counters zeroed, as after initialization.
    pub open spec fn counters_zero(self) -> bool {
        forall|i: int, k: int|
            0 <= i < self.n() && 0 <= k < self.group_count ==> (
            #[trigger] self.group_requirements@[i]@[k]) == (0u64, 0u64)
    }

    /// Build the initial domain table: every competitor starts with every
    /// other competitor as a candidate opponent.
    pub fn initialize_domains(teams: &Vec<Team>) -> (d: Vec<Vec<bool>>)
        ensures
            d@.len() == teams@.len(),
            forall|i: int| 0 <= i < teams@.len() ==> (#[trigger] d@[i])@.len() == teams@.len(),
            forall|i: int, j: int|
                0 <= i < teams@.len() && 0 <= j < teams@.len() ==> (#[trigger] d@[i]@[j]) == (i
                    != j),
    {
        let n = teams.len();
        let mut d: Vec<Vec<bool>> = Vec::new();
        for i in 0..n
            invariant
                n == teams@.len(),
                d@.len() == i,
                forall|i2: int| 0 <= i2 < i ==> (#[trigger] d@[i2])@.len() == n,
                forall|i2: int, j: int|
                    0 <= i2 < i && 0 <= j < n ==> (#[trigger] d@[i2]@[j]) == (i2 != j),
        {
            let mut row: Vec<bool> = Vec::new();
            for j in 0..n
                invariant
                    row@.len() == j,
                    forall|j2: int| 0 <= j2 < j ==> (#[trigger] row@[j2]) == (i as int != j2),
            {
                row.push(i != j);
            }
            d.push(row);
        }
        d
    }

    /// Build the initial balance table: a zeroed (home, away) counter for
    /// every competitor and every group number in 1..=group_count.
    pub fn initialize_group_requirements(teams: &Vec<Team>, group_count: u8) -> (r: Vec<
        Vec<(u64, u64)>,
    >)
        ensures
            r@.len() == teams@.len(),
            forall|i: int|
                0 <= i < teams@.len() ==> (#[trigger] r@[i])@.len() == group_count as int,
            forall|i: int, k: int|
                0 <= i < teams@.len() && 0 <= k < group_count ==> (#[trigger] r@[i]@[k]) == (
                0u64,
                0u64,
            ),
    {
        let n = teams.len();
        let gc = group_count as usize;
        let mut r: Vec<Vec<(u64, u64)>> = Vec::new();
        for i in 0..n
            invariant
                gc == group_count as int,
                r@.len() == i,
                forall|i2: int| 0 <= i2 < i ==> (#[trigger] r@[i2])@.len() == group_count as int,
                forall|i2: int, k: int|
                    0 <= i2 < i && 0 <= k < group_count ==> (#[trigger] r@[i2]@[k]) == (0u64, 0u64),
        {
            let mut row: Vec<(u64, u64)> = Vec::new();
            for k in 0..gc
                invariant
                    row@.len() == k,
                    forall|k2: int| 0 <= k2 < k ==> (#[trigger] row@[k2]) == (0u64, 0u64),
            {
                row.push((0u64, 0u64));
            }
            r.push(row);
        }
        r
    }

    /// Set up an engine in the pending state for the given roster, with the
    /// built-in rule list and the default group range.
    pub fn new(teams: Vec<Team>) -> (r: CSPMatches)
        ensures
            r.teams == teams,
            r.group_count == GROUP_COUNT,
            r.constraints@.len() == 1,
            r.constraints@[0] == Constraint::DifferentCountry,
            r.scheduled_matches@.len() == 0,
            !r.completed,
            forall|i: int, j: int|
                0 <= i < r.n() && 0 <= j < r.n() ==> (#[trigger] r.domains@[i]@[j]) == (i != j),
            r.counters_zero(),
            r.domains_wf(),
            r.tracker_wf(),
            roster_ok(teams@, GROUP_COUNT) ==> r.wf(),
            r.balanced(),
            two_leg(fixture_views(r.scheduled_matches@)),
            forwards_accepted(fixture_views(r.scheduled_matches@), r.constraints@),
    {
        let domains = CSPMatches::initialize_domains(&teams);
        let group_requirements = CSPMatches::initialize_group_requirements(&teams, GROUP_COUNT);
        let mut constraints: Vec<Constraint> = Vec::new();
        constraints.push(Constraint::DifferentCountry);
        let r = CSPMatches {
            teams,
            domains,
            constraints,
            scheduled_matches: Vec::new(),
            group_requirements,
            group_count: GROUP_COUNT,
            completed: false,
        };
        proof {
            assert(fixture_views(r.scheduled_matches@) =~= Seq::<MatchView>::empty());
        }
        r
    }

    /// Evaluate the whole rule list on a candidate pairing, left to right,
    /// stopping at the first rule that fails.
    pub fn satisfies_constraints(&self, team1: &Team, team2: &Team) -> (r: bool)
        ensures
            r == accepts_all(self.constraints@, team1@, team2@),
    {
        for i in 0..self.constraints.len()
            invariant
                forall|k: int|
                    0 <= k < i ==> crate::entity::constraint_holds(
                        #[trigger] self.constraints@[k],
                        team1@,
                        team2@,
                    ),
        {
            if !self.constraints[i].accepts(team1, team2) {
                return false;
            }
        }
        true
    }

    /// The candidate opponents still in competitor `t`'s domain, as roster
    /// positions in roster order (the engine's documented iteration order).
    pub fn candidates_of(&self, t: usize) -> (r: Vec<usize>)
        requires
            self.domains_wf(),
            t < self.teams@.len(),
        ensures
            forall|k: int|
                0 <= k < r@.len() ==> (#[trigger] r@[k]) < self.n() && self.domains@[
                t as int]@[r@[k] as int],
            forall|k1: int, k2: int| 0 <= k1 < k2 < r@.len() ==> r@[k1] < r@[k2],
            forall|j: usize|
                j < self.n() && (#[trigger] self.domains@[t as int]@[j as int]) ==> r@.contains(j),
    {
        let n = self.teams.len();
        let mut r: Vec<usize> = Vec::new();
        for j in 0..n
            invariant
                n == self.teams@.len(),
                self.domains_wf(),
                t < n,
                forall|k: int|
                    0 <= k < r@.len() ==> (#[trigger] r@[k]) < j && self.domains@[
                    t as int]@[r@[k] as int],
                forall|k1: int, k2: int| 0 <= k1 < k2 < r@.len() ==> r@[k1] < r@[k2],
                forall|j2: usize|
                    j2 < j && (#[trigger] self.domains@[t as int]@[j2 as int]) ==> r@.contains(j2),
        {
            if self.domains[t][j] {
                let ghost old_r = r@;
                r.push(j);
                proof {
                    assert forall|j2: usize| old_r.contains(j2) implies r@.contains(j2) by {
                        let k = choose|k: int| 0 <= k < old_r.len() && old_r[k] == j2;
                        assert(r@[k] == j2);
                    }
                    assert(r@[r@.len() - 1] == j);
                    assert(r@.contains(j));
                }
            }
        }
        r
    }

    /// Remove each of the two competitors from the other's domain, for the
    /// rest of the run. Removing an absent candidate is a no-op.
    pub fn remove_mutual(&mut self, a: usize, b: usize)
        requires
            old(self).domains_wf(),
            a < old(self).teams@.len(),
            b < old(self).teams@.len(),
        ensures
            final(self).domains_wf(),
            final(self).domains@.len() == old(self).domains@.len(),
            forall|i: int|
                0 <= i < final(self).n() ==> (#[trigger] final(self).domains@[i])@.len() == old(
                    self,
                ).domains@[i]@.len(),
            forall|i: int, j: int|
                0 <= i < final(self).n() && 0 <= j < final(self).n() ==> (
                #[trigger] final(self).domains@[i]@[j]) == (old(self).domains@[i]@[j] && !(i
                    == a && j == b) && !(i == b && j == a)),
            final(self).teams == old(self).teams,
            final(self).constraints == old(self).constraints,
            final(self).scheduled_matches == old(self).scheduled_matches,
            final(self).group_requirements == old(self).group_requirements,
            final(self).group_count == old(self).group_count,
            final(self).completed == old(self).completed,
    {
        self.domains[a][b] = false;
        self.domains[b][a] = false;
    }

    /// Record one committed fixture in the balance tracker: the home side
    /// gains a home fixture against the away side's group, and the away side
    /// gains an away fixture against the home side's group.
    pub fn update_group_tracking(&mut self, home_idx: usize, away_idx: usize)
        requires
            old(self).wf(),
            home_idx < old(self).teams@.len(),
            away_idx < old(self).teams@.len(),
            home_idx != away_idx,
            old(self).balance(home_idx as int, old(self).teams@[away_idx as int]@.group).0
                < u64::MAX,
            old(self).balance(away_idx as int, old(self).teams@[home_idx as int]@.group).1
                < u64::MAX,
        ensures
            final(self).wf(),
            final(self).balance(home_idx as int, old(self).teams@[away_idx as int]@.group).0 == old(
                self,
            ).balance(home_idx as int, old(self).teams@[away_idx as int]@.group).0 + 1,
            final(self).balance(home_idx as int, old(self).teams@[away_idx as int]@.group).1 == old(
                self,
            ).balance(home_idx as int, old(self).teams@[away_idx as int]@.group).1,
            final(self).balance(away_idx as int, old(self).teams@[home_idx as int]@.group).1 == old(
                self,
            ).balance(away_idx as int, old(self).teams@[home_idx as int]@.group).1 + 1,
            final(self).balance(away_idx as int, old(self).teams@[home_idx as int]@.group).0 == old(
                self,
            ).balance(away_idx as int, old(self).teams@[home_idx as int]@.group).0,
            forall|i: int, k: int|
                0 <= i < final(self).n() && 0 <= k < final(self).group_count && !(i == home_idx && k
                    == old(self).teams@[away_idx as int]@.group - 1) && !(i == away_idx && k == old(
                    self,
                ).teams@[home_idx as int]@.group - 1) ==> (
                #[trigger] final(self).group_requirements@[i]@[k]) == old(
                    self,
                ).group_requirements@[i]@[k],
            final(self).teams == old(self).teams,
            final(self).constraints == old(self).constraints,
            final(self).scheduled_matches == old(self).scheduled_matches,
            final(self).domains == old(self).domains,
            final(self).group_count == old(self).group_count,
            final(self).completed == old(self).completed,
    {
        let away_group = self.teams[away_idx].group;
        let home_group = self.teams[home_idx].group;
        let ka = (away_group - 1) as usize;
        let kh = (home_group - 1) as usize;
        let cell = self.group_requirements[home_idx][ka];
        self.group_requirements[home_idx][ka] = (cell.0 + 1, cell.1);
        let cell2 = self.group_requirements[away_idx][kh];
        self.group_requirements[away_idx][kh] = (cell2.0, cell2.1 + 1);
    }

    /// First-fit search: the first candidate in `t`'s domain, in roster
    /// order, that the rule list accepts.
    fn find_candidate(&self, t: usize) -> (r: Option<usize>)
        requires
            self.domains_wf(),
            t < self.teams@.len(),
        ensures
            match r {
                Option::Some(j) => {
                    &&& j < self.teams@.len()
                    &&& self.domains@[t as int]@[j as int]
                    &&& accepts_all(
                        self.constraints@,
                        self.teams@[t as int]@,
                        self.teams@[j as int]@,
                    )
                    &&& forall|j2: int|
                        0 <= j2 < j ==> !((#[trigger] self.domains@[t as int]@[j2]) && accepts_all(
                            self.constraints@,
                            self.teams@[t as int]@,
                            self.teams@[j2]@,
                        ))
                },
                Option::None => forall|j2: int|
                    0 <= j2 < self.n() ==> !((#[trigger] self.domains@[t as int]@[j2])
                        && accepts_all(
                        self.constraints@,
                        self.teams@[t as int]@,
                        self.teams@[j2]@,
                    )),
            },
    {
        let n = self.teams.len();
        for j in 0..n
            invariant
                n == self.teams@.len(),
                self.domains_wf(),
                t < n,
                forall|j2: int|
                    0 <= j2 < j ==> !((#[trigger] self.domains@[t as int]@[j2]) && accepts_all(
                        self.constraints@,
                        self.teams@[t as int]@,
                        self.teams@[j2]@,
                    )),
        {
            if self.domains[t][j] {
                if self.satisfies_constraints(&self.teams[t], &self.teams[j]) {
                    return Option::Some(j);
                }
            }
        }
        Option::None
    }

    /// Run the single greedy pass: for each competitor in roster order, take
    /// the first acceptable candidate still in its domain, commit the
    /// forward and the return fixture, record both in the balance tracker
    /// and remove the pair from each other's domains. The engine ends in
    /// the completed state; domains only ever shrink, fixtures come in
    /// two-leg pairs whose forward leg passed every rule, and the balance
    /// counters match the committed fixture list.
    pub fn schedule_matches(&mut self)
        requires
            old(self).wf(),
            !old(self).completed,
            old(self).scheduled_matches@.len() == 0,
            old(self).counters_zero(),
        ensures
            final(self).wf(),
            final(self).completed,
            final(self).teams == old(self).teams,
            final(self).constraints == old(self).constraints,
            final(self).group_count == old(self).group_count,
            forall|i: int, j: int|
                0 <= i < final(self).n() && 0 <= j < final(self).n() && (
                #[trigger] final(self).domains@[i]@[j]) ==> old(self).domains@[i]@[j],
            two_leg(fixture_views(final(self).scheduled_matches@)),
            forwards_accepted(fixture_views(final(self).scheduled_matches@), old(self).constraints@),
            final(self).balanced(),
            final(self).counters_exact(),
            (dom_mat(final(self).domains@), fixture_views(final(self).scheduled_matches@))
                == run_from(
                dom_mat(old(self).domains@),
                Seq::<MatchView>::empty(),
                old(self).teams@,
                old(self).constraints@,
                0,
            ),
    {
        let n = self.teams.len();
        let ghost target = run_from(
            dom_mat(self.domains@),
            Seq::<MatchView>::empty(),
            self.teams@,
            self.constraints@,
            0,
        );
        proof {
            assert(fixture_views(self.scheduled_matches@) =~= Seq::<MatchView>::empty());
        }
        for t in 0..n
            invariant
                n == self.teams@.len(),
                self.wf(),
                self.teams == old(self).teams,
                self.constraints == old(self).constraints,
                self.group_count == old(self).group_count,
                self.completed == old(self).completed,
                forall|i: int, j: int|
                    0 <= i < self.n() && 0 <= j < self.n() && (#[trigger] self.domains@[i]@[j])
                        ==> old(self).domains@[i]@[j],
                two_leg(fixture_views(self.scheduled_matches@)),
                forwards_accepted(fixture_views(self.scheduled_matches@), self.constraints@),
                self.balanced(),
                self.counters_exact(),
                run_from(
                    dom_mat(self.domains@),
                    fixture_views(self.scheduled_matches@),
                    self.teams@,
                    self.constraints@,
                    t as int,
                ) == target,
                target == run_from(
                    dom_mat(old(self).domains@),
                    Seq::<MatchView>::empty(),
                    old(self).teams@,
                    old(self).constraints@,
                    0,
                ),
        {
            let found = self.find_candidate(t);
            if let Option::Some(j) = found {
                let ghost pre = *self;
                let ghost tv = pre.teams@[t as int]@;
                let ghost jv = pre.teams@[j as int]@;
                let ghost s0 = fixture_views(pre.scheduled_matches@);
                let ghost pd = dom_mat(pre.domains@);
                proof {
                    assert(j != t);
                    assert(tv.name != jv.name);
                    assert forall|j2: int| 0 <= j2 < j implies !((#[trigger] pd[t as int][j2])
                        && accepts_all(
                        pre.constraints@,
                        pre.teams@[t as int]@,
                        pre.teams@[j2]@,
                    )) by {
                        assert(pd[t as int] == pre.domains@[t as int]@);
                    }
                    assert(pd[t as int] == pre.domains@[t as int]@);
                    lemma_first_candidate_some(
                        pd,
                        pre.teams@,
                        pre.constraints@,
                        t as int,
                        0,
                        j as int,
                    );
                }
                let home = self.teams[t].clone();
                let away = self.teams[j].clone();
                let m1 = Match::new(home, away);
                self.scheduled_matches.push(m1);
                let len1 = self.scheduled_matches.len();
                proof {
                    lemma_views_push(pre.scheduled_matches@, m1);
                    assert(m1@ == (MatchView { home: tv, away: jv }));
                    lemma_count_le_len(s0, tv, jv.group);
                    lemma_count_le_len(s0, jv, tv.group);
                    assert(s0.len() == len1 - 1);
                    assert(pre.balance(t as int, jv.group).0 <= len1 - 1);
                    assert(pre.balance(j as int, tv.group).1 <= len1 - 1);
                }
                self.update_group_tracking(t, j);
                let ghost mid = *self;
                let ghost m1v = MatchView { home: tv, away: jv };
                let ghost s1 = s0.push(m1v);
                proof {
                    assert(fixture_views(mid.scheduled_matches@) == s1);
                    assert forall|i: int, g: u8|
                        0 <= i < mid.n() && 1 <= g <= mid.group_count implies (#[trigger] mid.balance(
                        i,
                        g,
                    )).0 + mid.balance(i, g).1 == count_involving(
                        s1,
                        mid.teams@[i]@,
                        g,
                    ) by {
                        let civ = mid.teams@[i]@;
                        lemma_count_push(s0, m1v, civ, g);
                        assert(pre.balance(i, g).0 + pre.balance(i, g).1 == count_involving(
                            s0,
                            civ,
                            g,
                        ));
                        if i != t {
                            assert(civ.name != tv.name);
                            assert(civ != tv);
                        }
                        if i != j {
                            assert(civ.name != jv.name);
                            assert(civ != jv);
                        }
                        if i == t && g == jv.group {
                            assert(involves(m1v, civ, g));
                            assert(mid.balance(i, g).0 == pre.balance(i, g).0 + 1);
                            assert(mid.balance(i, g).1 == pre.balance(i, g).1);
                        } else if i == j && g == tv.group {
                            assert(involves(m1v, civ, g));
                            assert(mid.balance(i, g).1 == pre.balance(i, g).1 + 1);
                            assert(mid.balance(i, g).0 == pre.balance(i, g).0);
                        } else {
                            assert(!involves(m1v, civ, g));
                            assert(mid.group_requirements@[i]@[g - 1]
                                == pre.group_requirements@[i]@[g - 1]);
                        }
                    }
                    assert(mid.balanced());
                    assert forall|i: int, g: u8|
                        0 <= i < mid.n() && 1 <= g <= mid.group_count implies (#[trigger] mid.balance(
                        i,
                        g,
                    )).0 == count_home(s1, mid.teams@[i]@, g) && mid.balance(i, g).1 == count_away(
                        s1,
                        mid.teams@[i]@,
                        g,
                    ) by {
                        let civ = mid.teams@[i]@;
                        lemma_count_home_push(s0, m1v, civ, g);
                        lemma_count_away_push(s0, m1v, civ, g);
                        assert(pre.balance(i, g).0 == count_home(s0, civ, g) && pre.balance(
                            i,
                            g,
                        ).1 == count_away(s0, civ, g));
                        if i != t {
                            assert(civ.name != tv.name);
                            assert(civ != tv);
                        }
                        if i != j {
                            assert(civ.name != jv.name);
                            assert(civ != jv);
                        }
                        if i == t && g == jv.group {
                            assert(m1v.home == civ && m1v.away.group == g);
                            assert(!(m1v.away == civ));
                            assert(mid.balance(i, g).0 == pre.balance(i, g).0 + 1);
                            assert(mid.balance(i, g).1 == pre.balance(i, g).1);
                        } else if i == j && g == tv.group {
                            assert(m1v.away == civ && m1v.home.group == g);
                            assert(!(m1v.home == civ));
                            assert(mid.balance(i, g).1 == pre.balance(i, g).1 + 1);
                            assert(mid.balance(i, g).0 == pre.balance(i, g).0);
                        } else {
                            assert(!(m1v.home == civ && m1v.away.group == g));
                            assert(!(m1v.away == civ && m1v.home.group == g));
                            assert(mid.group_requirements@[i]@[g - 1]
                                == pre.group_requirements@[i]@[g - 1]);
                        }
                    }
                    assert(mid.counters_exact());
                }
                let home2 = self.teams[j].clone();
                let away2 = self.teams[t].clone();
                let m2 = Match::new(home2, away2);
                self.scheduled_matches.push(m2);
                let len2 = self.scheduled_matches.len();
                proof {
                    lemma_views_push(mid.scheduled_matches@, m2);
                    assert(m2@ == (MatchView { home: jv, away: tv }));
                    lemma_count_le_len(s1, jv, tv.group);
                    lemma_count_le_len(s1, tv, jv.group);
                    assert(s1.len() == len2 - 1);
                    assert(mid.balance(j as int, tv.group).0 <= len2 - 1);
                    assert(mid.balance(t as int, jv.group).1 <= len2 - 1);
                }
                self.update_group_tracking(j, t);
                let ghost fin = *self;
                let ghost m2v = MatchView { home: jv, away: tv };
                let ghost s2 = s1.push(m2v);
                proof {
                    assert(fixture_views(fin.scheduled_matches@) == s2);
                    assert forall|i: int, g: u8|
                        0 <= i < fin.n() && 1 <= g <= fin.group_count implies (#[trigger] fin.balance(
                        i,
                        g,
                    )).0 + fin.balance(i, g).1 == count_involving(
                        s2,
                        fin.teams@[i]@,
                        g,
                    ) by {
                        let civ = fin.teams@[i]@;
                        lemma_count_push(s1, m2v, civ, g);
                        assert(mid.balance(i, g).0 + mid.balance(i, g).1 == count_involving(
                            s1,
                            civ,
                            g,
                        ));
                        if i != t {
                            assert(civ.name != tv.name);
                            assert(civ != tv);
                        }
                        if i != j {
                            assert(civ.name != jv.name);
                            assert(civ != jv);
                        }
                        if i == j && g == tv.group {
                            assert(involves(m2v, civ, g));
                            assert(fin.balance(i, g).0 == mid.balance(i, g).0 + 1);
                            assert(fin.balance(i, g).1 == mid.balance(i, g).1);
                        } else if i == t && g == jv.group {
                            assert(involves(m2v, civ, g));
                            assert(fin.balance(i, g).1 == mid.balance(i, g).1 + 1);
                            assert(fin.balance(i, g).0 == mid.balance(i, g).0);
                        } else {
                            assert(!involves(m2v, civ, g));
                            assert(fin.group_requirements@[i]@[g - 1]
                                == mid.group_requirements@[i]@[g - 1]);
                        }
                    }
                    assert(fin.balanced());
                    assert forall|i: int, g: u8|
                        0 <= i < fin.n() && 1 <= g <= fin.group_count implies (#[trigger] fin.balance(
                        i,
                        g,
                    )).0 == count_home(s2, fin.teams@[i]@, g) && fin.balance(i, g).1 == count_away(
                        s2,
                        fin.teams@[i]@,
                        g,
                    ) by {
                        let civ = fin.teams@[i]@;
                        lemma_count_home_push(s1, m2v, civ, g);
                        lemma_count_away_push(s1, m2v, civ, g);
                        assert(mid.balance(i, g).0 == count_home(s1, civ, g) && mid.balance(
                            i,
                            g,
                        ).1 == count_away(s1, civ, g));
                        if i != t {
                            assert(civ.name != tv.name);
                            assert(civ != tv);
                        }
                        if i != j {
                            assert(civ.name != jv.name);
                            assert(civ != jv);
                        }
                        if i == j && g == tv.group {
                            assert(m2v.home == civ && m2v.away.group == g);
                            assert(!(m2v.away == civ));
                            assert(fin.balance(i, g).0 == mid.balance(i, g).0 + 1);
                            assert(fin.balance(i, g).1 == mid.balance(i, g).1);
                        } else if i == t && g == jv.group {
                            assert(m2v.away == civ && m2v.home.group == g);
                            assert(!(m2v.home == civ));
                            assert(fin.balance(i, g).1 == mid.balance(i, g).1 + 1);
                            assert(fin.balance(i, g).0 == mid.balance(i, g).0);
                        } else {
                            assert(!(m2v.home == civ && m2v.away.group == g));
                            assert(!(m2v.away == civ && m2v.home.group == g));
                            assert(fin.group_requirements@[i]@[g - 1]
                                == mid.group_requirements@[i]@[g - 1]);
                        }
                    }
                    assert(fin.counters_exact());
                    // the appended pair keeps the two-leg shape and its
                    // forward leg was accepted
                    assert(s2 == s0.push(m1v).push(m2v));
                    assert forall|k: int| 0 <= k < s2.len() && k % 2 == 0 implies (
                    #[trigger] s2[k]).away == s2[k + 1].home && s2[k].home == s2[k + 1].away by {
                        if k < s0.len() {
                            assert(s2[k] == s0[k]);
                            assert(s2[k + 1] == s0[k + 1]);
                        } else {
                            assert(k == s0.len());
                        }
                    }
                    assert forall|k: int| 0 <= k < s2.len() && k % 2 == 0 implies accepts_all(
                        fin.constraints@,
                        (#[trigger] s2[k]).home,
                        s2[k].away,
                    ) by {
                        if k < s0.len() {
                            assert(s2[k] == s0[k]);
                        } else {
                            assert(k == s0.len());
                            assert(s2[k] == (MatchView { home: tv, away: jv }));
                        }
                    }
                }
                self.remove_mutual(t, j);
                proof {
                    assert(fixture_views(self.scheduled_matches@) == s2);
                    assert forall|i: int, g: u8|
                        0 <= i < self.n() && 1 <= g <= self.group_count implies (
                    #[trigger] self.balance(i, g)).0 + self.balance(i, g).1 == count_involving(
                        s2,
                        self.teams@[i]@,
                        g,
                    ) by {
                        assert(self.balance(i, g) == fin.balance(i, g));
                        assert(fin.balance(i, g).0 + fin.balance(i, g).1 == count_involving(
                            s2,
                            fin.teams@[i]@,
                            g,
                        ));
                    }
                    assert(self.balanced());
                    assert forall|i: int, g: u8|
                        0 <= i < self.n() && 1 <= g <= self.group_count implies (
                    #[trigger] self.balance(i, g)).0 == count_home(s2, self.teams@[i]@, g)
                        && self.balance(i, g).1 == count_away(s2, self.teams@[i]@, g) by {
                        assert(self.balance(i, g) == fin.balance(i, g));
                        assert(fin.balance(i, g).0 == count_home(s2, fin.teams@[i]@, g)
                            && fin.balance(i, g).1 == count_away(s2, fin.teams@[i]@, g));
                    }
                    assert(self.counters_exact());
                    // the step taken is exactly the model's step for `t`
                    let d1 = pd.update(t as int, pd[t as int].update(j as int, false));
                    let d2 = d1.update(j as int, d1[j as int].update(t as int, false));
                    assert(first_candidate_from(pd, pre.teams@, pre.constraints@, t as int, 0)
                        == Option::Some(j as int));
                    assert(pass_step(pd, s0, pre.teams@, pre.constraints@, t as int) == (
                        d2,
                        s0.push(m1v).push(m2v),
                    ));
                    assert(dom_mat(self.domains@) =~~= d2);
                    assert(s2 == s0.push(m1v).push(m2v));
                    assert(run_from(pd, s0, pre.teams@, pre.constraints@, t as int) == run_from(
                        d2,
                        s2,
                        pre.teams@,
                        pre.constraints@,
                        t as int + 1,
                    ));
                    assert(run_from(
                        dom_mat(self.domains@),
                        fixture_views(self.scheduled_matches@),
                        self.teams@,
                        self.constraints@,
                        t as int + 1,
                    ) == target);
                }
            } else {
                proof {
                    let cd = dom_mat(self.domains@);
                    assert forall|j2: int|
                        0 <= j2 < self.teams@.len() implies !((#[trigger] cd[t as int][j2])
                        && accepts_all(
                        self.constraints@,
                        self.teams@[t as int]@,
                        self.teams@[j2]@,
                    )) by {
                        assert(cd[t as int] == self.domains@[t as int]@);
                    }
                    lemma_first_candidate_none(cd, self.teams@, self.constraints@, t as int, 0);
                    assert(pass_step(
                        cd,
                        fixture_views(self.scheduled_matches@),
                        self.teams@,
                        self.constraints@,
                        t as int,
                    ) == (cd, fixture_views(self.scheduled_matches@)));
                    assert(run_from(
                        cd,
                        fixture_views(self.scheduled_matches@),
                        self.teams@,
                        self.constraints@,
                        t as int + 1,
                    ) == target);
                }
            }
        }
        let ghost done = *self;
        self.completed = true;
        proof {
            assert forall|i: int, g: u8|
                0 <= i < self.n() && 1 <= g <= self.group_count implies (#[trigger] self.balance(
                i,
                g,
            )).0 + self.balance(i, g).1 == count_involving(
                fixture_views(self.scheduled_matches@),
                self.teams@[i]@,
                g,
            ) by {
                assert(self.balance(i, g) == done.balance(i, g));
                assert(done.balance(i, g).0 + done.balance(i, g).1 == count_involving(
                    fixture_views(done.scheduled_matches@),
                    done.teams@[i]@,
                    g,
                ));
            }
            assert(self.balanced());
            assert forall|i: int, g: u8|
                0 <= i < self.n() && 1 <= g <= self.group_count implies (#[trigger] self.balance(
                i,
                g,
            )).0 == count_home(fixture_views(self.scheduled_matches@), self.teams@[i]@, g)
                && self.balance(i, g).1 == count_away(
                fixture_views(self.scheduled_matches@),
                self.teams@[i]@,
                g,
            ) by {
                assert(self.balance(i, g) == done.balance(i, g));
                assert(done.balance(i, g).0 == count_home(
                    fixture_views(done.scheduled_matches@),
                    done.teams@[i]@,
                    g,
                ) && done.balance(i, g).1 == count_away(
                    fixture_views(done.scheduled_matches@),
                    done.teams@[i]@,
                    g,
                ));
            }
            assert(self.counters_exact());
            assert(run_from(
                dom_mat(done.domains@),
                fixture_views(done.scheduled_matches@),
                done.teams@,
                done.constraints@,
                done.teams@.len() as int,
            ) == (dom_mat(done.domains@), fixture_views(done.scheduled_matches@)));
        }
    }
}

} // verus!
