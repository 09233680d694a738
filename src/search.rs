use vstd::prelude::*;
use crate::candidate::{
    Candidate,
    Assignment,
    report_text,
    is_fresh_build,
    lemma_partition_members_known,
    lemma_same_shape_keeps_assignment,
};
use crate::names::{names, is_sorted};
use crate::prefs::PrefGrid;

verus! {

/// Of the current candidate and a trial, the one to go on with: the trial only when it scores
/// strictly higher, so that a tie keeps the current one.
pub fn keep_better(current: Candidate, trial: Candidate, prefs: &PrefGrid) -> (r: Candidate)
    requires
        current.wf(),
        trial.wf(),
        current@.members_known(prefs@),
        trial@.members_known(prefs@),
    ensures
        r@ == (if trial@.score(prefs@) > current@.score(prefs@) {
            trial@
        } else {
            current@
        }),
        r.wf(),
        r@.score(prefs@) >= current@.score(prefs@),
        r@.score(prefs@) >= trial@.score(prefs@),
{
    if current.score(prefs) < trial.score(prefs) {
        trial
    } else {
        current
    }
}

/// One restart of the search: `num_mutations` times, mutate a copy of the current candidate
/// and keep the copy if it scores strictly higher. The running score never drops, and with no
/// mutations the start is returned as it is.
pub fn hill_climb<R: rand::Rng>(
    start: Candidate,
    prefs: &PrefGrid,
    num_mutations: usize,
    rng: &mut R,
) -> (r: Candidate)
    requires
        start.wf(),
        start@.teams.len() > 0,
        start@.teams_nonempty(),
        start@.members_known(prefs@),
    ensures
        r.wf(),
        r@.same_shape(start@),
        r@.teams_nonempty(),
        r@.members_known(prefs@),
        r@.score(prefs@) >= start@.score(prefs@),
        num_mutations == 0 ==> r@ == start@,
{
    let ghost first = start@;
    let mut c = start;
    let mut step: usize = 0;
    while step < num_mutations
        invariant
            c.wf(),
            c@.same_shape(first),
            c@.teams_nonempty(),
            c@.members_known(prefs@),
            c@.score(prefs@) >= first.score(prefs@),
            step <= num_mutations,
            step == 0 ==> c@ == first,
            first.teams.len() > 0,
        decreases num_mutations - step,
    {
        let mut trial = c.duplicate();
        trial.mutate(rng);
        c = keep_better(c, trial, prefs);
        step = step + 1;
    }
    c
}

/// `people` lists every known person once.
pub open spec fn is_roster(people: Seq<Seq<char>>, likes: Map<Seq<char>, Set<Seq<char>>>) -> bool {
    &&& people.no_duplicates()
    &&& forall|p: Seq<char>| #[trigger] people.contains(p) <==> likes.contains_key(p)
}

/// What one restart may end with: a valid assignment of `people` to `k` projects in ascending
/// order, reached from a freshly built random assignment by mutations that kept its shape and
/// never lowered its score; with no mutations, that fresh assignment itself.
pub open spec fn is_restart_result(
    m: Assignment,
    likes: Map<Seq<char>, Set<Seq<char>>>,
    people: Seq<Seq<char>>,
    k: int,
    num_mutations: int,
) -> bool {
    &&& m.is_assignment_of(people, k)
    &&& is_sorted(m.projects)
    &&& m.teams_nonempty()
    &&& m.members_known(likes)
    &&& exists|start: Assignment|
        {
            &&& #[trigger] is_fresh_build(start, people, k)
            &&& m.same_shape(start)
            &&& m.score(likes) >= start.score(likes)
            &&& num_mutations == 0 ==> m == start
        }
}

/// The views of a list of candidates.
pub open spec fn views(v: Seq<Candidate>) -> Seq<Assignment> {
    v.map_values(|c: Candidate| c@)
}

/// `i` is the earliest of the best-scoring entries of `finals`.
pub open spec fn is_earliest_best(
    finals: Seq<Assignment>,
    likes: Map<Seq<char>, Set<Seq<char>>>,
    i: int,
) -> bool {
    &&& 0 <= i < finals.len()
    &&& forall|j: int|
        0 <= j < finals.len() ==> #[trigger] finals[j].score(likes) <= finals[i].score(likes)
    &&& forall|j: int| 0 <= j < i ==> #[trigger] finals[j].score(likes) < finals[i].score(likes)
}

/// Runs `num_tries` independent restarts: each builds a random candidate for all known people
/// and improves it by `hill_climb` with `num_mutations` steps. Returns the final candidate of
/// each restart, in order.
pub fn run_restarts<R: rand::Rng>(
    prefs: &PrefGrid,
    num_projects: usize,
    num_tries: usize,
    num_mutations: usize,
    rng: &mut R,
) -> (r: Vec<Candidate>)
    requires
        1 <= num_projects <= prefs@.dom().len(),
    ensures
        r@.len() == num_tries,
        forall|t: int| 0 <= t < num_tries ==> (#[trigger] r@[t]).wf(),
        exists|people: Seq<Seq<char>>|
            {
                &&& is_roster(people, prefs@)
                &&& forall|t: int|
                    0 <= t < num_tries ==> is_restart_result(
                        #[trigger] r@[t]@,
                        prefs@,
                        people,
                        num_projects as int,
                        num_mutations as int,
                    )
            },
{
    let people = prefs.all_people();
    let ghost ps = names(people@);
    let ghost k = num_projects as int;
    let mut finals: Vec<Candidate> = Vec::new();
    let mut t: usize = 0;
    while t < num_tries
        invariant
            1 <= num_projects <= people@.len(),
            ps == names(people@),
            k == num_projects,
            is_roster(ps, prefs@),
            t <= num_tries,
            finals@.len() == t,
            forall|i: int| 0 <= i < t ==> (#[trigger] finals@[i]).wf(),
            forall|i: int|
                0 <= i < t ==> is_restart_result(
                    #[trigger] finals@[i]@,
                    prefs@,
                    ps,
                    k,
                    num_mutations as int,
                ),
        decreases num_tries - t,
    {
        let c = Candidate::new(&people, num_projects, rng);
        proof {
            lemma_partition_members_known(c@, ps, prefs@);
        }
        let climbed = hill_climb(c, prefs, num_mutations, rng);
        proof {
            lemma_same_shape_keeps_assignment(c@, climbed@, ps, k);
            assert(is_fresh_build(c@, ps, k));
        }
        finals.push(climbed);
        t = t + 1;
    }
    finals
}

/// The position of the earliest best-scoring candidate: a later candidate replaces the best so
/// far only when it scores strictly higher.
pub fn pick_best(finals: &Vec<Candidate>, prefs: &PrefGrid) -> (i: usize)
    requires
        finals@.len() > 0,
        forall|t: int|
            0 <= t < finals@.len() ==> (#[trigger] finals@[t]).wf() && finals@[t]@.members_known(
                prefs@,
            ),
    ensures
        is_earliest_best(views(finals@), prefs@, i as int),
{
    let ghost v = views(finals@);
    let mut best: usize = 0;
    let mut best_score = finals[0].score(prefs);
    let mut t: usize = 1;
    while t < finals.len()
        invariant
            v == views(finals@),
            forall|j: int|
                0 <= j < finals@.len() ==> (#[trigger] finals@[j]).wf() && finals@[j]@.members_known(
                    prefs@,
                ),
            1 <= t <= finals@.len(),
            best < t,
            best_score == v[best as int].score(prefs@),
            forall|j: int| 0 <= j < t ==> #[trigger] v[j].score(prefs@) <= v[best as int].score(prefs@),
            forall|j: int| 0 <= j < best ==> #[trigger] v[j].score(prefs@) < v[best as int].score(prefs@),
        decreases finals@.len() - t,
    {
        let s = finals[t].score(prefs);
        if best_score < s {
            best = t;
            best_score = s;
        }
        t = t + 1;
    }
    best
}

/// Searches for a good assignment of all known people to `num_projects` projects: runs
/// `num_tries` restarts (see `run_restarts`) and returns the report of the earliest one with
/// the highest score.
pub fn search<R: rand::Rng>(
    prefs: &PrefGrid,
    num_projects: usize,
    num_tries: usize,
    num_mutations: usize,
    rng: &mut R,
) -> (r: String)
    requires
        1 <= num_projects <= prefs@.dom().len(),
        1 <= num_tries,
    ensures
        exists|people: Seq<Seq<char>>, finals: Seq<Assignment>, i: int|
            {
                &&& is_roster(people, prefs@)
                &&& finals.len() == num_tries
                &&& forall|t: int|
                    0 <= t < num_tries ==> is_restart_result(
                        #[trigger] finals[t],
                        prefs@,
                        people,
                        num_projects as int,
                        num_mutations as int,
                    )
                &&& is_earliest_best(finals, prefs@, i)
                &&& r@ == report_text(finals[i], prefs@)
            },
{
    let finals = run_restarts(prefs, num_projects, num_tries, num_mutations, rng);
    let i = pick_best(&finals, prefs);
    let r = finals[i].report(prefs);
    proof {
        let v = views(finals@);
        let people = choose|people: Seq<Seq<char>>|
            {
                &&& is_roster(people, prefs@)
                &&& forall|t: int|
                    0 <= t < num_tries ==> is_restart_result(
                        #[trigger] finals@[t]@,
                        prefs@,
                        people,
                        num_projects as int,
                        num_mutations as int,
                    )
            };
        assert forall|t: int| 0 <= t < num_tries implies is_restart_result(
            #[trigger] v[t],
            prefs@,
            people,
            num_projects as int,
            num_mutations as int,
        ) by {
            assert(v[t] == finals@[t]@);
        }
        assert(v[i as int] == finals@[i as int]@);
    }
    r
}

} // verus!
