//! Competitors, fixtures and pairing rules.

use vstd::prelude::*;

verus! {

/// Mathematical view of a competitor: name and country as character
/// sequences, group as the raw group number.
#[verifier::ext_equal]
pub ghost struct TeamView {
    pub name: Seq<char>,
    pub country: Seq<char>,
    pub group: u8,
}

/// A competitor. Identity is the full (name, country, group) triple; the
/// name is the unique identifier within a roster.
pub struct Team {
    pub name: String,
    pub country: String,
    pub group: u8,
}

impl View for Team {
    type V = TeamView;

    open spec fn view(&self) -> TeamView {
        TeamView { name: self.name@, country: self.country@, group: self.group }
    }
}

impl Clone for Team {
    fn clone(&self) -> (r: Team)
        ensures
            r == *self,
    {
        Team { name: self.name.clone(), country: self.country.clone(), group: self.group }
    }
}

impl Team {
    /// Construction never fails; inputs are assumed validated upstream.
    pub fn new(name: String, country: String, group: u8) -> (t: Team)
        ensures
            t@ == (TeamView { name: name@, country: country@, group: group }),
    {
        Team { name, country, group }
    }
}

/// Mathematical view of a fixture: the two competitors, home side first.
#[verifier::ext_equal]
pub ghost struct MatchView {
    pub home: TeamView,
    pub away: TeamView,
}

/// One directed home/away fixture. Direction is meaningful: (a home, b away)
/// and (b home, a away) are distinct fixtures.
pub struct Match {
    pub home_team: Team,
    pub away_team: Team,
}

impl View for Match {
    type V = MatchView;

    open spec fn view(&self) -> MatchView {
        MatchView { home: self.home_team@, away: self.away_team@ }
    }
}

impl Clone for Match {
    fn clone(&self) -> (r: Match)
        ensures
            r == *self,
    {
        Match { home_team: self.home_team.clone(), away_team: self.away_team.clone() }
    }
}

impl Match {
    /// A fixture never pairs an entity with itself; callers establish that.
    pub fn new(home_team: Team, away_team: Team) -> (m: Match)
        requires
            home_team@ != away_team@,
        ensures
            m@ == (MatchView { home: home_team@, away: away_team@ }),
            m.home_team == home_team,
            m.away_team == away_team,
    {
        Match { home_team, away_team }
    }
}

/// The built-in pairing rule: two competitors from the same country never meet.
pub fn constraint_different_country(team1: &Team, team2: &Team) -> (r: bool)
    ensures
        r == (team1@.country != team2@.country),
{
    !(team1.country == team2.country)
}

/// A pairing rule. The only built-in rule forbids same-country pairings;
/// further rules compose by adding variants and listing them in the
/// evaluator's rule list.
#[derive(Clone, Copy)]
pub enum Constraint {
    DifferentCountry,
}

/// What one rule demands of a candidate pairing.
pub open spec fn constraint_holds(c: Constraint, a: TeamView, b: TeamView) -> bool {
    match c {
        Constraint::DifferentCountry => a.country != b.country,
    }
}

/// A candidate pairing is accepted only if every rule in the list holds.
pub open spec fn accepts_all(cs: Seq<Constraint>, a: TeamView, b: TeamView) -> bool {
    forall|i: int| 0 <= i < cs.len() ==> constraint_holds(#[trigger] cs[i], a, b)
}

impl Constraint {
    /// Evaluate one rule on a candidate pairing.
    pub fn accepts(&self, team1: &Team, team2: &Team) -> (r: bool)
        ensures
            r == constraint_holds(*self, team1@, team2@),
    {
        match self {
            Constraint::DifferentCountry => constraint_different_country(team1, team2),
        }
    }
}

} // verus!
