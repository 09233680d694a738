use vstd::prelude::*;
use vstd::multiset::Multiset;
use vstd::string::StringExecFns;
use vstd::arithmetic::div_mod::{lemma_fundamental_div_mod, lemma_mod_pos_bound, lemma_div_non_zero};
use crate::names::{
    names,
    is_sorted,
    sort_names,
    lemma_no_duplicates_kept,
    lemma_sorted_unique,
    decimal,
    decimal_text,
};
use crate::prefs::{PrefGrid, likes_in};
use crate::random::{random_below, shuffle_names};

verus! {

/// What an assignment is, as mathematics: the project labels in display order, and for each
/// label the team of people working on it, in the team's internal order.
pub struct Assignment {
    pub projects: Seq<Seq<char>>,
    pub teams: Seq<Seq<Seq<char>>>,
}

/// Everyone in the first `i` teams, counted with multiplicity.
pub open spec fn members_upto(teams: Seq<Seq<Seq<char>>>, i: int) -> Multiset<Seq<char>>
    decreases i,
{
    if i <= 0 {
        Multiset::empty()
    } else {
        members_upto(teams, i - 1).add(teams[i - 1].to_multiset())
    }
}

/// Everyone in some team, counted with multiplicity.
pub open spec fn members_of(teams: Seq<Seq<Seq<char>>>) -> Multiset<Seq<char>> {
    members_upto(teams, teams.len() as int)
}

/// Size of team `i` when `n` people are split into `k` teams as evenly as possible, the first
/// `n % k` teams taking one extra member.
pub open spec fn team_size(n: int, k: int, i: int) -> int {
    n / k + if i < n % k { 1int } else { 0int }
}

/// How many people the teams before team `i` take together.
pub open spec fn team_start(n: int, k: int, i: int) -> int {
    i * (n / k) + if i < n % k { i } else { n % k }
}

impl Assignment {
    /// Each of `people` is in exactly as many teams as it occurs in `people`.
    pub open spec fn is_partition_of(self, people: Seq<Seq<char>>) -> bool {
        members_of(self.teams) == people.to_multiset()
    }

    /// Team sizes are as even as possible for `n` people.
    pub open spec fn is_balanced(self, n: int) -> bool {
        forall|i: int|
            0 <= i < self.teams.len() ==> #[trigger] self.teams[i].len() == team_size(
                n,
                self.teams.len() as int,
                i,
            )
    }

    /// A valid assignment of `people` to `k` projects.
    pub open spec fn is_assignment_of(self, people: Seq<Seq<char>>, k: int) -> bool {
        &&& self.projects.len() == k
        &&& self.teams.len() == k
        &&& self.is_partition_of(people)
        &&& self.is_balanced(people.len() as int)
        &&& forall|i: int| 0 <= i < k ==> people.contains(#[trigger] self.projects[i])
        &&& people.no_duplicates() ==> self.projects.no_duplicates()
    }
}

impl Assignment {
    /// Every team has at least one member.
    pub open spec fn teams_nonempty(self) -> bool {
        forall|i: int| 0 <= i < self.teams.len() ==> #[trigger] self.teams[i].len() > 0
    }

    /// Every team member is a known person.
    pub open spec fn members_known(self, likes: Map<Seq<char>, Set<Seq<char>>>) -> bool {
        forall|p: Seq<char>| #[trigger] members_of(self.teams).count(p) > 0 ==> likes.contains_key(p)
    }

    /// Same projects, same team sizes and the same people in the teams.
    pub open spec fn same_shape(self, other: Assignment) -> bool {
        &&& self.projects == other.projects
        &&& self.teams.len() == other.teams.len()
        &&& forall|i: int|
            0 <= i < self.teams.len() ==> #[trigger] self.teams[i].len() == other.teams[i].len()
        &&& members_of(self.teams) == members_of(other.teams)
    }

    /// The sum, over all teams, of the members who like the team's project.
    pub open spec fn score(self, likes: Map<Seq<char>, Set<Seq<char>>>) -> int {
        score_upto(likes, self.projects, self.teams, self.teams.len() as int)
    }
}

/// How many members of `team` like `project`.
pub open spec fn team_score(
    likes: Map<Seq<char>, Set<Seq<char>>>,
    team: Seq<Seq<char>>,
    project: Seq<char>,
) -> int
    decreases team.len(),
{
    if team.len() == 0 {
        0
    } else {
        team_score(likes, team.drop_last(), project) + if likes_in(likes, team.last(), project) {
            1int
        } else {
            0int
        }
    }
}

/// The score of the first `i` teams.
pub open spec fn score_upto(
    likes: Map<Seq<char>, Set<Seq<char>>>,
    projects: Seq<Seq<char>>,
    teams: Seq<Seq<Seq<char>>>,
    i: int,
) -> int
    decreases i,
{
    if i <= 0 {
        0
    } else {
        score_upto(likes, projects, teams, i - 1) + team_score(likes, teams[i - 1], projects[i - 1])
    }
}

/// The assignment after the last members of teams `one` and `two` trade places.
pub open spec fn swapped(m: Assignment, one: int, two: int) -> Assignment {
    if one == two {
        m
    } else {
        Assignment {
            projects: m.projects,
            teams: m.teams.update(one, m.teams[one].drop_last().push(m.teams[two].last())).update(
                two,
                m.teams[two].drop_last().push(m.teams[one].last()),
            ),
        }
    }
}

/// `m` is what construction makes of two orders of the people: the projects are the first
/// `k` names of `project_order`, sorted; team `i` holds `team_size(n, k, i)` people, taken one
/// by one from the back of `member_order` after the earlier teams' share.
pub open spec fn built_from(
    m: Assignment,
    project_order: Seq<Seq<char>>,
    member_order: Seq<Seq<char>>,
    k: int,
) -> bool {
    let n = member_order.len() as int;
    &&& m.projects.to_multiset() == project_order.take(k).to_multiset()
    &&& is_sorted(m.projects)
    &&& m.projects.len() == k
    &&& m.teams.len() == k
    &&& forall|i: int| 0 <= i < k ==> #[trigger] m.teams[i].len() == team_size(n, k, i)
    &&& forall|i: int, j: int|
        0 <= i < k && 0 <= j < m.teams[i].len() ==> #[trigger] m.teams[i][j] == member_order[n - 1
            - (team_start(n, k, i) + j)]
}

/// `m` is what construction makes of some two arrangements of `people` (see `built_from`).
pub open spec fn is_fresh_build(m: Assignment, people: Seq<Seq<char>>, k: int) -> bool {
    exists|project_order: Seq<Seq<char>>, member_order: Seq<Seq<char>>|
        project_order.to_multiset() == people.to_multiset() && member_order.to_multiset()
            == people.to_multiset() && #[trigger] built_from(m, project_order, member_order, k)
}

/// Construction is a function of the two orders: the same orders give the same assignment, so
/// a random source that repeats its draws repeats the candidate.
pub proof fn lemma_construction_deterministic(
    a: Assignment,
    b: Assignment,
    project_order: Seq<Seq<char>>,
    member_order: Seq<Seq<char>>,
    k: int,
)
    requires
        built_from(a, project_order, member_order, k),
        built_from(b, project_order, member_order, k),
    ensures
        a == b,
{
    lemma_sorted_unique(a.projects, b.projects);
    assert forall|i: int| 0 <= i < k implies #[trigger] a.teams[i] == b.teams[i] by {
        assert(a.teams[i] =~= b.teams[i]);
    }
    assert(a.teams =~= b.teams);
}

/// In a balanced assignment of `n` people to `k` teams, sizes differ by at most one, and the
/// larger teams are exactly the first `n % k`.
pub proof fn lemma_balanced_sizes(m: Assignment, n: int)
    requires
        m.teams.len() >= 1,
        n >= 0,
        m.is_balanced(n),
    ensures
        forall|i: int, j: int|
            0 <= i < m.teams.len() && 0 <= j < m.teams.len() ==> #[trigger] m.teams[i].len()
                <= #[trigger] m.teams[j].len() + 1,
        forall|i: int|
            0 <= i < m.teams.len() ==> (#[trigger] m.teams[i].len() == n / (m.teams.len() as int) + 1
                <==> i < n % (m.teams.len() as int)),
{
    let k = m.teams.len() as int;
    assert forall|i: int, j: int|
        0 <= i < k && 0 <= j < k implies #[trigger] m.teams[i].len() <= #[trigger] m.teams[j].len()
            + 1 by {
        assert(m.teams[i].len() == team_size(n, k, i));
        assert(m.teams[j].len() == team_size(n, k, j));
    }
    assert forall|i: int| 0 <= i < k implies (#[trigger] m.teams[i].len() == n / k + 1 <==> i < n
        % k) by {
        assert(m.teams[i].len() == team_size(n, k, i));
    }
}

/// Arithmetic of the even split: consecutive teams, together taking all `n` people.
pub proof fn lemma_split(n: int, k: int, i: int)
    requires
        1 <= k <= n,
        0 <= i < k,
    ensures
        team_start(n, k, 0) == 0,
        team_start(n, k, i + 1) == team_start(n, k, i) + team_size(n, k, i),
        0 <= team_start(n, k, i),
        team_start(n, k, i + 1) <= n,
        team_start(n, k, k) == n,
        team_size(n, k, i) >= 1,
{
    lemma_fundamental_div_mod(n, k);
    lemma_mod_pos_bound(n, k);
    lemma_div_non_zero(n, k);
    let b = n / k;
    assert((i + 1) * b == i * b + b) by (nonlinear_arith);
    assert(0 <= i * b) by (nonlinear_arith)
        requires
            0 <= i,
            0 <= b,
    ;
    assert((i + 1) * b <= k * b) by (nonlinear_arith)
        requires
            i + 1 <= k,
            0 <= b,
    ;
    assert(k * b == b * k) by (nonlinear_arith);
}

/// Only the first `i` teams count towards `members_upto`.
proof fn lemma_members_prefix(s: Seq<Seq<Seq<char>>>, t: Seq<Seq<Seq<char>>>, i: int)
    requires
        0 <= i <= s.len(),
        i <= t.len(),
        forall|l: int| 0 <= l < i ==> s[l] == t[l],
    ensures
        members_upto(s, i) == members_upto(t, i),
    decreases i,
{
    if i > 0 {
        lemma_members_prefix(s, t, i - 1);
    }
}

/// Replacing one team changes the members by what left and what came.
proof fn lemma_members_update(
    teams: Seq<Seq<Seq<char>>>,
    i: int,
    t: Seq<Seq<char>>,
    n: int,
)
    requires
        0 <= i < teams.len(),
        0 <= n <= teams.len(),
    ensures
        i < n ==> members_upto(teams.update(i, t), n).add(teams[i].to_multiset()) =~= members_upto(
            teams,
            n,
        ).add(t.to_multiset()),
        i >= n ==> members_upto(teams.update(i, t), n) == members_upto(teams, n),
    decreases n,
{
    if n > 0 {
        lemma_members_update(teams, i, t, n - 1);
        let u = teams.update(i, t);
        assert(members_upto(u, n) == members_upto(u, n - 1).add(u[n - 1].to_multiset()));
        if i < n - 1 {
            assert(u[n - 1] == teams[n - 1]);
            assert(members_upto(u, n).add(teams[i].to_multiset()) =~= members_upto(u, n - 1).add(
                teams[i].to_multiset(),
            ).add(teams[n - 1].to_multiset()));
        }
    }
}

/// Replacing one team changes the score by the difference of the two teams' scores.
proof fn lemma_score_update(
    likes: Map<Seq<char>, Set<Seq<char>>>,
    projects: Seq<Seq<char>>,
    teams: Seq<Seq<Seq<char>>>,
    i: int,
    t: Seq<Seq<char>>,
    n: int,
)
    requires
        0 <= i < teams.len(),
        0 <= n <= teams.len(),
    ensures
        score_upto(likes, projects, teams.update(i, t), n) == score_upto(likes, projects, teams, n)
            + if i < n {
            team_score(likes, t, projects[i]) - team_score(likes, teams[i], projects[i])
        } else {
            0
        },
    decreases n,
{
    if n > 0 {
        lemma_score_update(likes, projects, teams, i, t, n - 1);
    }
}

/// Replacing the last member of a team changes its score by at most one.
proof fn lemma_team_score_replace_last(
    likes: Map<Seq<char>, Set<Seq<char>>>,
    team: Seq<Seq<char>>,
    x: Seq<char>,
    project: Seq<char>,
)
    requires
        team.len() > 0,
    ensures
        -1 <= team_score(likes, team.drop_last().push(x), project) - team_score(likes, team, project)
            <= 1,
{
    assert(team.drop_last().push(x).drop_last() =~= team.drop_last());
}

/// A team's score is between zero and its size.
proof fn lemma_team_score_bound(
    likes: Map<Seq<char>, Set<Seq<char>>>,
    team: Seq<Seq<char>>,
    project: Seq<char>,
)
    ensures
        0 <= team_score(likes, team, project) <= team.len(),
    decreases team.len(),
{
    if team.len() > 0 {
        lemma_team_score_bound(likes, team.drop_last(), project);
    }
}

/// The score of the first `i` teams is at most their head count, which grows with `i`.
proof fn lemma_score_bound(
    likes: Map<Seq<char>, Set<Seq<char>>>,
    projects: Seq<Seq<char>>,
    teams: Seq<Seq<Seq<char>>>,
    i: int,
)
    requires
        0 <= i <= teams.len(),
    ensures
        0 <= score_upto(likes, projects, teams, i) <= members_upto(teams, i).len(),
        members_upto(teams, i).len() <= members_of(teams).len(),
        i < teams.len() ==> members_upto(teams, i + 1).len() == members_upto(teams, i).len()
            + teams[i].len(),
    decreases teams.len() - i,
{
    if i < teams.len() {
        teams[i].to_multiset_ensures();
        lemma_score_bound(likes, projects, teams, i + 1);
    }
    lemma_score_prefix_bound(likes, projects, teams, i);
}

proof fn lemma_score_prefix_bound(
    likes: Map<Seq<char>, Set<Seq<char>>>,
    projects: Seq<Seq<char>>,
    teams: Seq<Seq<Seq<char>>>,
    i: int,
)
    requires
        0 <= i <= teams.len(),
    ensures
        0 <= score_upto(likes, projects, teams, i) <= members_upto(teams, i).len(),
    decreases i,
{
    if i > 0 {
        lemma_score_prefix_bound(likes, projects, teams, i - 1);
        lemma_team_score_bound(likes, teams[i - 1], projects[i - 1]);
        teams[i - 1].to_multiset_ensures();
    }
}

/// Trading the last members of two teams keeps the projects, every team's size and the people
/// in the teams.
pub proof fn lemma_swap_keeps_members(m: Assignment, one: int, two: int)
    requires
        0 <= one < m.teams.len(),
        0 <= two < m.teams.len(),
        m.teams[one].len() > 0,
        m.teams[two].len() > 0,
    ensures
        swapped(m, one, two).projects == m.projects,
        swapped(m, one, two).teams.len() == m.teams.len(),
        forall|i: int|
            0 <= i < m.teams.len() ==> #[trigger] swapped(m, one, two).teams[i].len()
                == m.teams[i].len(),
        members_of(swapped(m, one, two).teams) == members_of(m.teams),
        swapped(m, one, two).same_shape(m),
{
    if one != two {
        let t1 = m.teams[one];
        let t2 = m.teams[two];
        let a = t1.last();
        let b = t2.last();
        let n1 = t1.drop_last().push(b);
        let n2 = t2.drop_last().push(a);
        let s1 = m.teams.update(one, n1);
        let s2 = s1.update(two, n2);
        let len = m.teams.len() as int;
        lemma_members_update(m.teams, one, n1, len);
        lemma_members_update(s1, two, n2, len);
        assert(s1[two] == t2);
        assert(t1 =~= t1.drop_last().push(a));
        assert(t2 =~= t2.drop_last().push(b));
        vstd::seq_lib::to_multiset_build(t1.drop_last(), a);
        vstd::seq_lib::to_multiset_build(t1.drop_last(), b);
        vstd::seq_lib::to_multiset_build(t2.drop_last(), a);
        vstd::seq_lib::to_multiset_build(t2.drop_last(), b);
        let d1 = t1.drop_last();
        let d2 = t2.drop_last();
        assert forall|x: Seq<char>| #[trigger] members_of(s2).count(x) == members_of(
            m.teams,
        ).count(x) by {
            assert(members_of(s1).add(t1.to_multiset()).count(x) == members_of(m.teams).add(
                n1.to_multiset(),
            ).count(x));
            assert(members_of(s2).add(t2.to_multiset()).count(x) == members_of(s1).add(
                n2.to_multiset(),
            ).count(x));
            assert(t1.to_multiset() == d1.to_multiset().insert(a));
            assert(n1.to_multiset() == d1.to_multiset().insert(b));
            assert(t2.to_multiset() == d2.to_multiset().insert(b));
            assert(n2.to_multiset() == d2.to_multiset().insert(a));
        }
        assert(members_of(s2) =~= members_of(m.teams));
    }
}

/// A mutation that trades the last members of two distinct teams changes the score by at most
/// two: each of the two people can only stop or start liking their project.
pub proof fn lemma_mutation_score_delta(
    m: Assignment,
    one: int,
    two: int,
    likes: Map<Seq<char>, Set<Seq<char>>>,
)
    requires
        m.projects.len() == m.teams.len(),
        0 <= one < m.teams.len(),
        0 <= two < m.teams.len(),
        m.teams[one].len() > 0,
        m.teams[two].len() > 0,
    ensures
        -2 <= swapped(m, one, two).score(likes) - m.score(likes) <= 2,
{
    if one != two {
        let t1 = m.teams[one];
        let t2 = m.teams[two];
        let n1 = t1.drop_last().push(t2.last());
        let n2 = t2.drop_last().push(t1.last());
        let s1 = m.teams.update(one, n1);
        let len = m.teams.len() as int;
        lemma_score_update(likes, m.projects, m.teams, one, n1, len);
        lemma_score_update(likes, m.projects, s1, two, n2, len);
        assert(s1[two] == t2);
        lemma_team_score_replace_last(likes, t1, t2.last(), m.projects[one]);
        lemma_team_score_replace_last(likes, t2, t1.last(), m.projects[two]);
    }
}

/// Everyone in a team is counted among the members.
proof fn lemma_member_counted(teams: Seq<Seq<Seq<char>>>, i: int, j: int, n: int)
    requires
        0 <= i < n <= teams.len(),
        0 <= j < teams[i].len(),
    ensures
        members_upto(teams, n).count(teams[i][j]) > 0,
    decreases n,
{
    teams[n - 1].to_multiset_ensures();
    if i < n - 1 {
        lemma_member_counted(teams, i, j, n - 1);
    } else {
        assert(teams[i].contains(teams[i][j]));
    }
}

/// A partition of known people has only known members.
pub proof fn lemma_partition_members_known(
    m: Assignment,
    people: Seq<Seq<char>>,
    likes: Map<Seq<char>, Set<Seq<char>>>,
)
    requires
        m.is_partition_of(people),
        forall|p: Seq<char>| people.contains(p) ==> likes.contains_key(p),
    ensures
        m.members_known(likes),
{
    people.to_multiset_ensures();
}

/// Two assignments of the same shape are assignments of the same people, to the same projects.
pub proof fn lemma_same_shape_keeps_assignment(a: Assignment, b: Assignment, people: Seq<Seq<char>>, k: int)
    requires
        a.is_assignment_of(people, k),
        b.same_shape(a),
    ensures
        b.is_assignment_of(people, k),
        a.teams_nonempty() ==> b.teams_nonempty(),
{
    assert forall|i: int| 0 <= i < b.teams.len() implies #[trigger] b.teams[i].len()
        == team_size(people.len() as int, b.teams.len() as int, i) by {
        assert(a.teams[i].len() == team_size(people.len() as int, a.teams.len() as int, i));
    }
    if a.teams_nonempty() {
        assert forall|i: int| 0 <= i < b.teams.len() implies #[trigger] b.teams[i].len() > 0 by {
            assert(a.teams[i].len() > 0);
        }
    }
}

/// Trading the last members of two teams keeps an assignment valid, with no team left empty.
pub proof fn lemma_swap_keeps_assignment(
    m: Assignment,
    people: Seq<Seq<char>>,
    k: int,
    one: int,
    two: int,
)
    requires
        m.is_assignment_of(people, k),
        m.teams_nonempty(),
        0 <= one < k,
        0 <= two < k,
    ensures
        swapped(m, one, two).is_assignment_of(people, k),
        swapped(m, one, two).teams_nonempty(),
{
    lemma_swap_keeps_members(m, one, two);
    lemma_same_shape_keeps_assignment(m, swapped(m, one, two), people, k);
}

/// One line of the report: the project, a colon, then each member after a space.
pub open spec fn team_line(project: Seq<char>, team: Seq<Seq<char>>) -> Seq<char>
    decreases team.len(),
{
    if team.len() == 0 {
        project.push(':')
    } else {
        team_line(project, team.drop_last()).push(' ') + team.last()
    }
}

/// The report lines of the first `i` teams, each ended by a newline.
pub open spec fn lines_upto(projects: Seq<Seq<char>>, teams: Seq<Seq<Seq<char>>>, i: int) -> Seq<
    char,
>
    decreases i,
{
    if i <= 0 {
        Seq::empty()
    } else {
        lines_upto(projects, teams, i - 1) + team_line(projects[i - 1], teams[i - 1]).push('\n')
    }
}

/// The full report: one line per project, then the score.
pub open spec fn report_text(m: Assignment, likes: Map<Seq<char>, Set<Seq<char>>>) -> Seq<char> {
    lines_upto(m.projects, m.teams, m.teams.len() as int) + seq!['S', 'c', 'o', 'r', 'e', ':', ' ']
        + decimal(m.score(likes) as nat)
}

/// A copy of a list of strings.
fn copy_all(v: &Vec<String>) -> (r: Vec<String>)
    ensures
        r@ == v@,
{
    let mut r: Vec<String> = Vec::new();
    let mut i: usize = 0;
    while i < v.len()
        invariant
            i <= v@.len(),
            r@ == v@.take(i as int),
        decreases v@.len() - i,
    {
        r.push(v[i].clone());
        i = i + 1;
        assert(r@ =~= v@.take(i as int));
    }
    assert(r@ =~= v@);
    r
}

/// A candidate solution: distinct project labels, and one team of people for each.
#[derive(Clone, Debug)]
pub struct Candidate {
    projects: Vec<String>,
    members: Vec<Vec<String>>,
}

impl View for Candidate {
    type V = Assignment;

    closed spec fn view(&self) -> Assignment {
        Assignment {
            projects: names(self.projects@),
            teams: self.members@.map_values(|t: Vec<String>| names(t@)),
        }
    }
}

impl Candidate {
    /// The candidate is internally consistent: one team per project, and its head count fits
    /// in a `usize`.
    pub closed spec fn wf(&self) -> bool {
        &&& self.projects@.len() == self.members@.len()
        &&& members_of(self@.teams).len() <= usize::MAX
    }

    /// A well-formed candidate has one team per project.
    pub proof fn lemma_wf_lengths(&self)
        requires
            self.wf(),
        ensures
            self@.projects.len() == self@.teams.len(),
    {
    }

    /// Builds the candidate that two given orders of the people determine. The projects are
    /// the first `num_projects` names of `project_order`, sorted. The teams are filled in turn
    /// from the back of `member_order`: team `i` takes `team_size(n, k, i)` people.
    pub fn from_orders(project_order: Vec<String>, member_order: Vec<String>, num_projects: usize) -> (r:
        Candidate)
        requires
            1 <= num_projects <= member_order@.len(),
            num_projects <= project_order@.len(),
        ensures
            r.wf(),
            built_from(r@, names(project_order@), names(member_order@), num_projects as int),
            members_of(r@.teams) == names(member_order@).to_multiset(),
    {
        broadcast use vstd::seq_lib::group_to_multiset_ensures;

        let mut projects = project_order;
        projects.truncate(num_projects);
        assert(names(projects@) =~= names(project_order@).take(num_projects as int));
        sort_names(&mut projects);
        let n = member_order.len();
        let ghost order = member_order@;
        let ghost k = num_projects as int;
        let base = n / num_projects;
        let extra = n % num_projects;
        let mut rest = member_order;
        let mut members: Vec<Vec<String>> = Vec::new();
        let mut team: usize = 0;
        proof {
            lemma_split(n as int, k, 0);
            assert(rest@ =~= order.subrange(0, n as int));
        }
        while team < num_projects
            invariant
                n == order.len(),
                1 <= k <= n,
                k == num_projects,
                base == n / num_projects,
                extra == n % num_projects,
                team <= num_projects,
                members@.len() == team,
                rest@ == order.subrange(0, n - team_start(n as int, k, team as int)),
                forall|i: int|
                    0 <= i < team ==> #[trigger] members@[i]@.len() == team_size(n as int, k, i),
                forall|i: int, j: int|
                    0 <= i < team && 0 <= j < members@[i]@.len() ==> #[trigger] members@[i]@[j]
                        == order[n - 1 - (team_start(n as int, k, i) + j)],
                members_upto(members@.map_values(|t: Vec<String>| names(t@)), team as int).add(
                    names(rest@).to_multiset(),
                ) == names(order).to_multiset(),
            decreases num_projects - team,
        {
            proof {
                lemma_split(n as int, k, team as int);
            }
            let size = if team < extra {
                base + 1
            } else {
                base
            };
            let ghost start = team_start(n as int, k, team as int);
            let ghost before = members@.map_values(|t: Vec<String>| names(t@));
            let mut t: Vec<String> = Vec::new();
            let mut j: usize = 0;
            assert(names(t@) =~= Seq::<Seq<char>>::empty());
            proof {
                names(t@).to_multiset_ensures();
                assert(names(t@).to_multiset() =~= Multiset::empty());
            }
            assert(members_upto(before, team as int).add(names(t@).to_multiset()) =~= members_upto(
                before,
                team as int,
            ));
            while j < size
                invariant
                    n == order.len(),
                    size == team_size(n as int, k, team as int),
                    start + size <= n,
                    0 <= start,
                    j <= size,
                    t@.len() == j,
                    rest@ == order.subrange(0, n - start - j),
                    forall|l: int| 0 <= l < j ==> #[trigger] t@[l] == order[n - 1 - (start + l)],
                    members_upto(before, team as int).add(names(t@).to_multiset()).add(
                        names(rest@).to_multiset(),
                    ) == names(order).to_multiset(),
                decreases size - j,
            {
                let ghost old_rest = rest@;
                let ghost old_t = t@;
                let x = rest.pop().unwrap();
                t.push(x);
                proof {
                    assert(old_rest =~= rest@.push(x));
                    assert(names(old_rest) =~= names(rest@).push(x@));
                    assert(names(t@) =~= names(old_t).push(x@));
                    vstd::seq_lib::to_multiset_build(names(old_t), x@);
                    vstd::seq_lib::to_multiset_build(names(rest@), x@);
                    assert(names(t@).to_multiset() =~= names(old_t).to_multiset().insert(x@));
                    assert(names(old_rest).to_multiset() =~= names(rest@).to_multiset().insert(
                        x@,
                    ));
                    assert(members_upto(before, team as int).add(names(t@).to_multiset()).add(
                        names(rest@).to_multiset(),
                    ) =~= members_upto(before, team as int).add(names(old_t).to_multiset()).add(
                        names(old_rest).to_multiset(),
                    ));
                }
                j = j + 1;
            }
            members.push(t);
            proof {
                let after = members@.map_values(|t: Vec<String>| names(t@));
                lemma_members_prefix(before, after, team as int);
                assert(after[team as int] == names(t@));
            }
            team = team + 1;
        }
        let r = Candidate { projects, members };
        proof {
            lemma_split(n as int, k, k - 1);
            assert(rest@.len() == 0);
            names(order).to_multiset_ensures();
            names(projects@).to_multiset_ensures();
            names(project_order@).take(k).to_multiset_ensures();
            assert(names(rest@) =~= Seq::<Seq<char>>::empty());
            assert(members_upto(r@.teams, k).add(Multiset::empty()) =~= members_upto(r@.teams, k));
            assert forall|i: int, j: int|
                0 <= i < k && 0 <= j < r@.teams[i].len() implies #[trigger] r@.teams[i][j] == names(
                order,
            )[n - 1 - (team_start(n as int, k, i) + j)] by {
                lemma_split(n as int, k, i);
                assert(r@.teams[i] == names(members@[i]@));
                assert(members@[i]@[j] == order[n - 1 - (team_start(n as int, k, i) + j)]);
            }
        }
        r
    }

    /// Builds a random candidate for `people`: the projects are `num_projects` names drawn
    /// from a random order of the people and sorted, and the teams are filled from a second,
    /// independent random order (see `from_orders`).
    pub fn new<R: rand::Rng>(people: &Vec<String>, num_projects: usize, rng: &mut R) -> (r:
        Candidate)
        requires
            1 <= num_projects <= people@.len(),
        ensures
            r.wf(),
            r@.is_assignment_of(names(people@), num_projects as int),
            is_sorted(r@.projects),
            r@.teams_nonempty(),
            is_fresh_build(r@, names(people@), num_projects as int),
    {
        let mut project_order = copy_all(people);
        shuffle_names(&mut project_order, rng);
        let mut member_order = copy_all(people);
        shuffle_names(&mut member_order, rng);
        let ghost po = names(project_order@);
        let ghost mo = names(member_order@);
        proof {
            names(people@).to_multiset_ensures();
            names(member_order@).to_multiset_ensures();
            po.to_multiset_ensures();
        }
        let r = Candidate::from_orders(project_order, member_order, num_projects);
        proof {
            let k = num_projects as int;
            let n = people@.len() as int;
            let ps = names(people@);
            assert forall|i: int| 0 <= i < k implies ps.contains(#[trigger] r@.projects[i]) by {
                let x = r@.projects[i];
                r@.projects.to_multiset_ensures();
                po.take(k).to_multiset_ensures();
                po.to_multiset_ensures();
                ps.to_multiset_ensures();
                assert(r@.projects.contains(x));
                assert(r@.projects.to_multiset().count(x) > 0);
                assert(po.take(k).to_multiset().count(x) > 0);
                assert(po.take(k).contains(x));
                let j = choose|j: int| 0 <= j < po.take(k).len() && po.take(k)[j] == x;
                assert(po[j] == x);
                assert(po.contains(x));
                assert(po.to_multiset().count(x) > 0);
                assert(ps.to_multiset().count(x) > 0);
            }
            if ps.no_duplicates() {
                lemma_no_duplicates_kept(ps, po);
                assert(po.take(k).no_duplicates());
                lemma_no_duplicates_kept(po.take(k), r@.projects);
            }
            assert forall|i: int| 0 <= i < k implies #[trigger] r@.teams[i].len() > 0 by {
                lemma_split(n, k, i);
            }
            assert(built_from(r@, po, mo, k));
        }
        r
    }

    /// The last members of teams `one` and `two` trade places; nothing happens when
    /// `one == two`.
    pub fn swap_last(&mut self, one: usize, two: usize)
        requires
            old(self).wf(),
            one < old(self)@.teams.len(),
            two < old(self)@.teams.len(),
            old(self)@.teams[one as int].len() > 0,
            old(self)@.teams[two as int].len() > 0,
        ensures
            final(self).wf(),
            final(self)@ == swapped(old(self)@, one as int, two as int),
    {
        proof {
            lemma_swap_keeps_members(self@, one as int, two as int);
        }
        if one != two {
            let ghost m = self@;
            let ghost old_members = self.members@;
            let ghost m1 = self.members@[one as int]@;
            let ghost m2 = self.members@[two as int]@;
            let a = self.members[one].pop().unwrap();
            let b = self.members[two].pop().unwrap();
            self.members[one].push(b);
            self.members[two].push(a);
            proof {
                assert(a == m1.last());
                assert(b == m2.last());
                assert(self.members@[one as int]@ =~= m1.drop_last().push(b));
                assert(self.members@[two as int]@ =~= m2.drop_last().push(a));
                assert(names(m1.drop_last().push(b)) =~= names(m1).drop_last().push(names(m2).last()));
                assert(names(m2.drop_last().push(a)) =~= names(m2).drop_last().push(names(m1).last()));
                assert forall|l: int| 0 <= l < self.members@.len() && l != one && l != two implies
                    #[trigger] self.members@[l] == old_members[l] by {}
                assert(self@.teams =~= swapped(m, one as int, two as int).teams);
                assert(self@.projects =~= m.projects);
            }
        }
    }

    /// Picks two teams at random and lets their last members trade places (nothing happens
    /// when both picks are the same team).
    pub fn mutate<R: rand::Rng>(&mut self, rng: &mut R)
        requires
            old(self).wf(),
            old(self)@.teams.len() > 0,
            old(self)@.teams_nonempty(),
        ensures
            final(self).wf(),
            exists|one: int, two: int|
                0 <= one < old(self)@.teams.len() && 0 <= two < old(self)@.teams.len()
                    && final(self)@ == swapped(old(self)@, one, two),
            final(self)@.same_shape(old(self)@),
            final(self)@.teams_nonempty(),
            final(self)@.projects.len() == final(self)@.teams.len(),
    {
        let one = random_below(rng, self.members.len());
        let two = random_below(rng, self.members.len());
        proof {
            lemma_swap_keeps_members(self@, one as int, two as int);
        }
        let ghost before = self@;
        self.swap_last(one, two);
        proof {
            assert forall|i: int| 0 <= i < self@.teams.len() implies #[trigger] self@.teams[i].len()
                > 0 by {
                assert(before.teams[i].len() > 0);
            }
        }
    }

    /// The number of team members who like their team's project.
    pub fn score(&self, prefs: &PrefGrid) -> (r: usize)
        requires
            self.wf(),
            self@.members_known(prefs@),
        ensures
            r == self@.score(prefs@),
    {
        let ghost likes = prefs@;
        let ghost ps = self@.projects;
        let ghost ts = self@.teams;
        let mut result: usize = 0;
        let mut i: usize = 0;
        while i < self.members.len()
            invariant
                self.wf(),
                self@.members_known(prefs@),
                likes == prefs@,
                ps == self@.projects,
                ts == self@.teams,
                ps.len() == ts.len(),
                i <= ts.len(),
                result == score_upto(likes, ps, ts, i as int),
            decreases ts.len() - i,
        {
            proof {
                lemma_score_bound(likes, ps, ts, i as int);
                lemma_score_bound(likes, ps, ts, i as int + 1);
            }
            let project = self.projects[i].as_str();
            let team = &self.members[i];
            let ghost t = ts[i as int];
            let mut j: usize = 0;
            assert(t.take(0) =~= Seq::<Seq<char>>::empty());
            while j < team.len()
                invariant
                    self@.members_known(prefs@),
                    likes == prefs@,
                    ts == self@.teams,
                    i < ts.len(),
                    t == ts[i as int],
                    t == names(team@),
                    project@ == ps[i as int],
                    j <= t.len(),
                    result == score_upto(likes, ps, ts, i as int) + team_score(
                        likes,
                        t.take(j as int),
                        ps[i as int],
                    ),
                    score_upto(likes, ps, ts, i as int) <= members_upto(ts, i as int).len(),
                    members_upto(ts, i as int).len() + t.len() <= usize::MAX,
                decreases t.len() - j,
            {
                proof {
                    lemma_team_score_bound(likes, t.take(j as int), ps[i as int]);
                    assert(t.take(j as int + 1).drop_last() =~= t.take(j as int));
                    lemma_member_counted(ts, i as int, j as int, ts.len() as int);
                    assert(members_of(ts).count(ts[i as int][j as int]) > 0);
                    assert(likes.contains_key(ts[i as int][j as int]));
                }
                if prefs.likes(team[j].as_str(), project) {
                    result = result + 1;
                }
                j = j + 1;
            }
            assert(t.take(j as int) =~= t);
            i = i + 1;
        }
        result
    }

    /// The report: for each project in order, a line with the project, a colon and its
    /// members each after a space; then a last line `Score: <score>` with no newline after it.
    pub fn report(&self, prefs: &PrefGrid) -> (r: String)
        requires
            self.wf(),
            self@.members_known(prefs@),
        ensures
            r@ == report_text(self@, prefs@),
    {
        let ghost ps = self@.projects;
        let ghost ts = self@.teams;
        let mut result = String::new();
        let mut i: usize = 0;
        while i < self.members.len()
            invariant
                self.wf(),
                ps == self@.projects,
                ts == self@.teams,
                ps.len() == ts.len(),
                i <= ts.len(),
                result@ == lines_upto(ps, ts, i as int),
            decreases ts.len() - i,
        {
            let ghost before = result@;
            let team = &self.members[i];
            let ghost t = ts[i as int];
            result.append(self.projects[i].as_str());
            result.append(":");
            let mut j: usize = 0;
            proof {
                reveal_strlit(":");
                assert(":"@ =~= seq![':']);
                assert(result@ =~= before + ps[i as int] + seq![':']);
            }
            assert(t.take(0) =~= Seq::<Seq<char>>::empty());
            assert(result@ =~= before + team_line(ps[i as int], t.take(0)));
            while j < team.len()
                invariant
                    t == names(team@),
                    i < ps.len(),
                    j <= t.len(),
                    result@ == before + team_line(ps[i as int], t.take(j as int)),
                decreases t.len() - j,
            {
                let ghost mid = result@;
                result.append(" ");
                result.append(team[j].as_str());
                proof {
                    reveal_strlit(" ");
                    assert(" "@ =~= seq![' ']);
                    assert(result@ =~= mid.push(' ') + t[j as int]);
                    assert(t.take(j as int + 1).last() == t[j as int]);
                    assert(t.take(j as int + 1).drop_last() =~= t.take(j as int));
                }
                j = j + 1;
                assert(result@ =~= before + team_line(ps[i as int], t.take(j as int)));
            }
            let ghost mid = result@;
            result.append("\n");
            proof {
                reveal_strlit("\n");
                assert("\n"@ =~= seq!['\n']);
                assert(result@ =~= mid.push('\n'));
            }
            assert(t.take(j as int) =~= t);
            i = i + 1;
            assert(result@ =~= lines_upto(ps, ts, i as int));
        }
        let ghost mid = result@;
        result.append("Score: ");
        proof {
            reveal_strlit("Score: ");
            assert("Score: "@ =~= seq!['S', 'c', 'o', 'r', 'e', ':', ' ']);
        }
        let total = self.score(prefs);
        let digits = decimal_text(total);
        result.append(digits.as_str());
        assert(result@ =~= report_text(self@, prefs@));
        result
    }

    /// An independent copy of the candidate.
    pub fn duplicate(&self) -> (r: Candidate)
        requires
            self.wf(),
        ensures
            r.wf(),
            r@ == self@,
    {
        let projects = copy_all(&self.projects);
        let mut members: Vec<Vec<String>> = Vec::new();
        let mut i: usize = 0;
        while i < self.members.len()
            invariant
                i <= self.members@.len(),
                members@.len() == i,
                forall|l: int| 0 <= l < i ==> #[trigger] members@[l]@ == self.members@[l]@,
            decreases self.members@.len() - i,
        {
            members.push(copy_all(&self.members[i]));
            i = i + 1;
        }
        let r = Candidate { projects, members };
        assert(r@.teams =~= self@.teams);
        r
    }
}

} // verus!
