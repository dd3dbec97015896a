use vstd::prelude::*;

use crate::laws::{lemma_first_position, lemma_valid_reaches};
use crate::lp_model::{first_index, first_position};
use crate::solver::{
    collect_projects, lemma_ranked_contains, lemma_ranked_distinct, ranked_projects, strs, students_view, Student,
    StudentView,
};
use crate::teams::{projects_distinct, team_view, TeamView, Teams};

verus! {

// Where each student goes is a position among the ranked projects, or -1
// while the student has no place yet.

/// How many entries of `a` are `p`.
pub open spec fn count(a: Seq<int>, p: int) -> nat
    decreases a.len(),
{
    if a.len() == 0 {
        0
    } else {
        count(a.drop_last(), p) + (if a.last() == p { 1nat } else { 0nat })
    }
}

/// The position of the project of a student's first choice, or -1 where
/// the student ranked nothing or it is not among `projects`.
pub open spec fn first_choice_index(s: StudentView, projects: Seq<Seq<char>>) -> int {
    if s.choices.len() > 0 {
        match first_position(projects, s.choices[0]) {
            Some(p) => p,
            None => -1,
        }
    } else {
        -1
    }
}

/// Each pitcher at the project they pitched (their first choice); everyone
/// else without a place.
pub open spec fn pitch_seq(students: Seq<StudentView>, projects: Seq<Seq<char>>) -> Seq<int> {
    Seq::new(
        students.len(),
        |s: int| if students[s].is_pitcher { first_choice_index(students[s], projects) } else { -1 },
    )
}

/// The number of pitchers of each project.
pub open spec fn pitcher_counts(students: Seq<StudentView>, projects: Seq<Seq<char>>) -> Seq<int> {
    Seq::new(projects.len(), |p: int| count(pitch_seq(students, projects), p) as int)
}

/// Whether a project with `pc` pitchers may have `k` members: none, when
/// nobody pitched it, or between `min` and `max` and at least its pitchers.
pub open spec fn allowed(k: int, pc: int, min: int, max: int) -> bool {
    (k == 0 && pc == 0) || (0 < k && min <= k && k <= max && pc <= k)
}

/// Whether the first `j` projects can take exactly `t` students between
/// them, each project an allowed number.
pub open spec fn reach(pcs: Seq<int>, min: int, max: int, j: nat, t: int) -> bool
    decreases j,
{
    if j == 0 {
        t == 0
    } else {
        exists|k: int|
            0 <= k <= t && #[trigger] allowed(k, pcs[j - 1], min, max) && reach(
                pcs,
                min,
                max,
                (j - 1) as nat,
                t - k,
            )
    }
}


/// The names of the first `u` students placed at project `p`, in order.
pub open spec fn members_of(students: Seq<StudentView>, a: Seq<int>, p: int, u: nat) -> Seq<Seq<char>>
    decreases u,
{
    if u == 0 {
        Seq::empty()
    } else {
        let prev = members_of(students, a, p, (u - 1) as nat);
        if a[u - 1] == p {
            prev.push(students[u - 1].name)
        } else {
            prev
        }
    }
}

/// The teams of the first `j` projects with a size (in `caps`) above zero.
pub open spec fn teams_of(students: Seq<StudentView>, projects: Seq<Seq<char>>, caps: Seq<int>, a: Seq<int>, j: nat) -> Seq<TeamView>
    decreases j,
{
    if j == 0 {
        Seq::empty()
    } else {
        let prev = teams_of(students, projects, caps, a, (j - 1) as nat);
        if caps[j - 1] > 0 {
            prev.push((projects[j - 1], members_of(students, a, j - 1, students.len())))
        } else {
            prev
        }
    }
}

/// Student `s` ranked project `p`.
pub open spec fn ranked_by(s: StudentView, projects: Seq<Seq<char>>, p: int) -> bool {
    s.choices.contains(projects[p])
}

/// How many of the first `a.len()` students `a` places at a project they
/// did not rank.
pub open spec fn misses(students: Seq<StudentView>, projects: Seq<Seq<char>>, a: Seq<int>) -> nat
    decreases a.len(),
{
    if a.len() == 0 {
        0
    } else {
        misses(students, projects, a.drop_last()) + (if ranked_by(students[a.len() - 1], projects, a.last()) {
            0nat
        } else {
            1nat
        })
    }
}

/// How much student `s` prefers project `p`, smaller first: the rank of
/// `p` among their choices, and after all of those the projects they did
/// not rank, in order.
pub open spec fn option_key(s: StudentView, projects: Seq<Seq<char>>, p: int) -> int {
    match first_position(s.choices, projects[p]) {
        Some(k) => k,
        None => s.choices.len() + p,
    }
}

/// The preference of each student for the project `a` gives them.
pub open spec fn keys(students: Seq<StudentView>, projects: Seq<Seq<char>>, a: Seq<int>) -> Seq<int> {
    Seq::new(a.len(), |s: int| option_key(students[s], projects, a[s]))
}

/// `x` comes before `y`: they agree up to a position where `x` is smaller.
pub open spec fn lex_before(x: Seq<int>, y: Seq<int>) -> bool {
    exists|i: int| 0 <= i < x.len() && i < y.len() && x.take(i) == y.take(i) && x[i] < y[i]
}

/// `a` places each student at one of `projects`, each pitcher at the
/// project they pitched, and gives each project no members or between
/// `min` and `max`.
pub open spec fn valid_assignment(students: Seq<StudentView>, projects: Seq<Seq<char>>, min: int, max: int, a: Seq<int>) -> bool {
    &&& a.len() == students.len()
    &&& forall|s: int| 0 <= s < a.len() ==> 0 <= #[trigger] a[s] < projects.len()
    &&& forall|s: int| 0 <= s < a.len() && (#[trigger] students[s]).is_pitcher && students[s].choices.len() > 0
        ==> projects[a[s]] == students[s].choices[0]
    &&& forall|p: int| 0 <= p < projects.len() ==> #[trigger] count(a, p) == 0 || (min <= count(a, p) && count(a, p) <= max)
}

/// Some valid assignment of the students to the projects they ranked exists.
pub open spec fn feasible(students: Seq<StudentView>, min: int, max: int) -> bool {
    exists|a: Seq<int>| valid_assignment(students, ranked_projects(students), min, max, a)
}

/// `a` is the best valid assignment: no valid assignment places fewer
/// students at a project they did not rank, and among those that place as
/// few, `a` gives the earlier students the projects they prefer.
pub open spec fn is_best(students: Seq<StudentView>, min: int, max: int, a: Seq<int>) -> bool {
    let projects = ranked_projects(students);
    &&& valid_assignment(students, projects, min, max, a)
    &&& forall|b: Seq<int>| #[trigger] valid_assignment(students, projects, min, max, b) ==> misses(students, projects, a)
        <= misses(students, projects, b)
    &&& forall|b: Seq<int>|
        #[trigger] valid_assignment(students, projects, min, max, b) && misses(students, projects, b) == misses(
            students,
            projects,
            a,
        ) && b != a ==> lex_before(keys(students, projects, a), keys(students, projects, b))
}

/// The best valid assignment, where one exists.
pub open spec fn best_assignment(students: Seq<StudentView>, min: int, max: int) -> Option<Seq<int>> {
    if exists|a: Seq<int>| is_best(students, min, max, a) {
        Some(choose|a: Seq<int>| is_best(students, min, max, a))
    } else {
        None
    }
}

/// The number of students `a` places at each project.
pub open spec fn counts(a: Seq<int>, np: nat) -> Seq<int> {
    Seq::new(np, |p: int| count(a, p) as int)
}

/// The teams of `a`: one for each project with members, in project order.
pub open spec fn answer_teams(students: Seq<StudentView>, a: Seq<int>) -> Seq<TeamView> {
    let projects = ranked_projects(students);
    teams_of(students, projects, counts(a, projects.len()), a, projects.len())
}

/// The answer for `students`: the teams of the best valid assignment.
pub open spec fn assignment_outcome(students: Seq<StudentView>, min: int, max: int) -> Option<Seq<TeamView>> {
    match best_assignment(students, min, max) {
        Some(a) => Some(answer_teams(students, a)),
        None => None,
    }
}

/// Two best assignments are the same.
pub proof fn lemma_best_unique(students: Seq<StudentView>, min: int, max: int, a: Seq<int>, b: Seq<int>)
    requires
        is_best(students, min, max, a),
        is_best(students, min, max, b),
    ensures
        a == b,
{
    let projects = ranked_projects(students);
    if a != b {
        assert(valid_assignment(students, projects, min, max, b));
        assert(valid_assignment(students, projects, min, max, a));
        let x = keys(students, projects, a);
        let y = keys(students, projects, b);
        assert(lex_before(x, y));
        assert(lex_before(y, x));
        let i = choose|i: int| 0 <= i < x.len() && i < y.len() && x.take(i) == y.take(i) && x[i] < y[i];
        let j = choose|j: int| 0 <= j < y.len() && j < x.len() && y.take(j) == x.take(j) && y[j] < x[j];
        if i < j {
            assert(x.take(j)[i] == y.take(j)[i]);
        } else if j < i {
            assert(x.take(i)[j] == y.take(i)[j]);
        }
    }
}


/// The plain value of the places kept while assigning.
pub open spec fn slots_view(a: Seq<Option<usize>>) -> Seq<int> {
    a.map_values(|o: Option<usize>| match o {
        Some(p) => p as int,
        None => -1,
    })
}

/// The plain value of a vector of counts.
pub open spec fn ints(v: Seq<usize>) -> Seq<int> {
    v.map_values(|x: usize| x as int)
}

pub(crate) proof fn lemma_count_take(a: Seq<int>, i: int, p: int)
    requires
        0 <= i < a.len(),
    ensures
        count(a.take(i + 1), p) == count(a.take(i), p) + (if a[i] == p { 1nat } else { 0nat }),
{
    assert(a.take(i + 1).drop_last() =~= a.take(i));
}

fn pitch_index(s: &Student, projects: &Vec<String>) -> (r: Option<usize>)
    ensures
        match r {
            Some(p) => p as int == (if !s.is_pitcher { -1 } else { first_choice_index(s@, strs(projects@)) }),
            None => -1 == (if !s.is_pitcher { -1 } else { first_choice_index(s@, strs(projects@)) }),
        },
{
    if !s.is_pitcher || s.choices.len() == 0 {
        return None;
    }
    proof {
        assert(strs(s.choices@)[0] == s.choices@[0]@);
    }
    first_index(projects, &s.choices[0])
}

/// For each pitcher, the position of the project they pitched.
fn pitch_slots(students: &Vec<Student>, projects: &Vec<String>) -> (r: Vec<Option<usize>>)
    ensures
        slots_view(r@) == pitch_seq(students_view(students@), strs(projects@)),
{
    let ghost sv = students_view(students@);
    let ghost want = pitch_seq(sv, strs(projects@));
    let mut r: Vec<Option<usize>> = Vec::new();
    let mut s: usize = 0;
    while s < students.len()
        invariant
            s <= students@.len(),
            sv == students_view(students@),
            want == pitch_seq(sv, strs(projects@)),
            slots_view(r@) == want.take(s as int),
        decreases students@.len() - s,
    {
        let c = pitch_index(&students[s], projects);
        let ghost prev = r@;
        r.push(c);
        proof {
            assert(sv[s as int] == students@[s as int]@);
            assert(slots_view(prev).len() == s);
            assert forall|m: int| 0 <= m <= s implies slots_view(r@)[m] == want.take(s + 1)[m] by {
                if m < s {
                    assert(r@[m] == prev[m]);
                    assert(slots_view(prev)[m] == want.take(s as int)[m]);
                }
            }
            assert(slots_view(r@) =~= want.take(s + 1));
        }
        s = s + 1;
    }
    proof {
        assert(want.take(students@.len() as int) =~= want);
    }
    r
}

/// How many entries of `a` are each of the positions below `np`.
fn tally(a: &Vec<Option<usize>>, np: usize) -> (r: Vec<usize>)
    ensures
        r@.len() == np,
        forall|p: int| 0 <= p < np ==> (#[trigger] r@[p]) as int == count(slots_view(a@), p),
{
    let ghost av = slots_view(a@);
    let mut r: Vec<usize> = Vec::new();
    let mut p: usize = 0;
    while p < np
        invariant
            p <= np,
            r@.len() == p,
            forall|q: int| 0 <= q < p ==> #[trigger] r@[q] == 0,
        decreases np - p,
    {
        r.push(0);
        p = p + 1;
    }
    proof {
        assert forall|q: int| 0 <= q < np implies (#[trigger] r@[q]) as int == count(av.take(0), q) by {
            assert(av.take(0).len() == 0);
        }
    }
    let mut s: usize = 0;
    while s < a.len()
        invariant
            s <= a@.len(),
            av == slots_view(a@),
            r@.len() == np,
            forall|q: int| 0 <= q < np ==> (#[trigger] r@[q]) as int == count(av.take(s as int), q),
        decreases a@.len() - s,
    {
        proof {
            assert forall|q: int| 0 <= q < np implies count(av.take(s + 1), q) == count(av.take(s as int), q) + (if av[s as int] == q { 1nat } else { 0nat }) by {
                lemma_count_take(av, s as int, q);
            }
        }
        match a[s] {
            Some(p) => {
                if p < np {
                    proof {
                        lemma_count_le_len(av.take(s as int), p as int);
                    }
                    let v = r[p] + 1;
                    r.set(p, v);
                }
            },
            None => {},
        }
        s = s + 1;
    }
    proof {
        assert(av.take(a@.len() as int) =~= av);
    }
    r
}

pub(crate) proof fn lemma_count_le_len(a: Seq<int>, p: int)
    ensures
        count(a, p) <= a.len(),
    decreases a.len(),
{
    if a.len() > 0 {
        lemma_count_le_len(a.drop_last(), p);
    }
}

fn allowed_exec(k: usize, pc: usize, min: u32, max: u32) -> (r: bool)
    ensures
        r == allowed(k as int, pc as int, min as int, max as int),
{
    (k == 0 && pc == 0) || (0 < k && min as usize <= k && k <= max as usize && pc <= k)
}

/// Whether some allowed size `k` of the project with `pc` pitchers leaves
/// `t - k` students that the row `prev` can place.
fn can_split(prev: &Vec<bool>, pc: usize, min: u32, max: u32, t: usize, Ghost(pcs): Ghost<Seq<int>>, Ghost(j): Ghost<nat>) -> (r: bool)
    requires
        t < prev@.len(),
        j >= 1,
        j <= pcs.len(),
        pcs[j - 1] == pc as int,
        forall|u: int| 0 <= u < prev@.len() ==> #[trigger] prev@[u] == reach(pcs, min as int, max as int, (j - 1) as nat, u),
    ensures
        r == reach(pcs, min as int, max as int, j, t as int),
{
    let mut k: usize = 0;
    loop
        invariant
            k <= t,
            t < prev@.len(),
            j >= 1,
            pcs[j - 1] == pc as int,
            forall|u: int| 0 <= u < prev@.len() ==> #[trigger] prev@[u] == reach(pcs, min as int, max as int, (j - 1) as nat, u),
            forall|k2: int| 0 <= k2 < k ==> !(#[trigger] allowed(k2, pcs[j - 1], min as int, max as int) && reach(pcs, min as int, max as int, (j - 1) as nat, t - k2)),
        decreases t - k,
    {
        if allowed_exec(k, pc, min, max) && prev[t - k] {
            proof {
                assert(allowed(k as int, pcs[j - 1], min as int, max as int));
            }
            return true;
        }
        if k == t {
            proof {
                assert forall|k2: int| 0 <= k2 <= t implies !(#[trigger] allowed(k2, pcs[j - 1], min as int, max as int) && reach(pcs, min as int, max as int, (j - 1) as nat, t - k2)) by {
                    if k2 == t {
                        assert(prev@[0] == reach(pcs, min as int, max as int, (j - 1) as nat, 0));
                    }
                }
            }
            return false;
        }
        k = k + 1;
    }
}

/// The table of `reach` for every prefix of the projects and every number
/// of students up to `n`.
fn reach_table(pcs: &Vec<usize>, min: u32, max: u32, n: usize) -> (tab: Vec<Vec<bool>>)
    ensures
        tab@.len() == pcs@.len() + 1,
        forall|j: int| 0 <= j <= pcs@.len() ==> (#[trigger] tab@[j])@.len() == n + 1,
        forall|j: int, t: int| 0 <= j <= pcs@.len() && 0 <= t <= n ==> (#[trigger] tab@[j]@[t]) == reach(ints(pcs@), min as int, max as int, j as nat, t),
{
    let ghost pv = ints(pcs@);
    let mut row: Vec<bool> = Vec::new();
    while row.len() <= n
        invariant
            row@.len() <= n + 1,
            forall|u: int| 0 <= u < row@.len() ==> #[trigger] row@[u] == reach(pv, min as int, max as int, 0, u),
        decreases n + 1 - row@.len(),
    {
        let t = row.len();
        row.push(t == 0);
    }
    let mut tab: Vec<Vec<bool>> = Vec::new();
    tab.push(row);
    let mut j: usize = 0;
    while j < pcs.len()
        invariant
            j <= pcs@.len(),
            pv == ints(pcs@),
            tab@.len() == j + 1,
            forall|i: int| 0 <= i <= j ==> (#[trigger] tab@[i])@.len() == n + 1,
            forall|i: int, u: int| 0 <= i <= j && 0 <= u <= n ==> (#[trigger] tab@[i]@[u]) == reach(pv, min as int, max as int, i as nat, u),
        decreases pcs@.len() - j,
    {
        let mut next: Vec<bool> = Vec::new();
        while next.len() <= n
            invariant
                next@.len() <= n + 1,
                j < pcs@.len(),
                pv == ints(pcs@),
                tab@.len() == j + 1,
                tab@[j as int]@.len() == n + 1,
                forall|u: int| 0 <= u <= n ==> (#[trigger] tab@[j as int]@[u]) == reach(pv, min as int, max as int, j as nat, u),
                forall|u: int| 0 <= u < next@.len() ==> #[trigger] next@[u] == reach(pv, min as int, max as int, (j + 1) as nat, u),
            decreases n + 1 - next@.len(),
        {
            let t = next.len();
            let b = can_split(&tab[j], pcs[j], min, max, t, Ghost(pv), Ghost((j + 1) as nat));
            next.push(b);
        }
        tab.push(next);
        j = j + 1;
    }
    tab
}

/// `b` is a valid assignment that starts with `prefix` and places fewer
/// than `bound` students at a project they did not rank.
pub open spec fn within(students: Seq<StudentView>, min: int, max: int, prefix: Seq<int>, bound: int, b: Seq<int>) -> bool {
    let projects = ranked_projects(students);
    &&& valid_assignment(students, projects, min, max, b)
    &&& b.take(prefix.len() as int) == prefix
    &&& misses(students, projects, b) < bound
}

/// `r` is `within` and the best of those that are.
pub open spec fn best_within(students: Seq<StudentView>, min: int, max: int, prefix: Seq<int>, bound: int, r: Seq<int>) -> bool {
    let projects = ranked_projects(students);
    &&& within(students, min, max, prefix, bound, r)
    &&& forall|b: Seq<int>| #[trigger] within(students, min, max, prefix, bound, b) ==> misses(students, projects, r)
        <= misses(students, projects, b) && (misses(students, projects, b) == misses(students, projects, r) && b != r
        ==> lex_before(keys(students, projects, r), keys(students, projects, b)))
}

/// The students before `prefix.len()` are at projects, each pitcher at the
/// project they pitched, and no project is over `max`.
pub open spec fn prefix_ok(students: Seq<StudentView>, max: int, prefix: Seq<int>) -> bool {
    let projects = ranked_projects(students);
    &&& prefix.len() <= students.len()
    &&& forall|s: int| 0 <= s < prefix.len() ==> 0 <= #[trigger] prefix[s] < projects.len()
    &&& forall|s: int| 0 <= s < prefix.len() && (#[trigger] students[s]).is_pitcher && students[s].choices.len() > 0
        ==> projects[prefix[s]] == students[s].choices[0]
    &&& forall|p: int| 0 <= p < projects.len() ==> #[trigger] count(prefix, p) <= max
}

proof fn lemma_count_prefix(b: Seq<int>, j: int, p: int)
    requires
        0 <= j <= b.len(),
    ensures
        count(b.take(j), p) <= count(b, p),
    decreases b.len(),
{
    if j < b.len() {
        lemma_count_prefix(b.drop_last(), j, p);
        assert(b.drop_last().take(j) =~= b.take(j));
    } else {
        assert(b.take(j) =~= b);
    }
}

proof fn lemma_misses_prefix(students: Seq<StudentView>, projects: Seq<Seq<char>>, b: Seq<int>, j: int)
    requires
        0 <= j <= b.len(),
    ensures
        misses(students, projects, b.take(j)) <= misses(students, projects, b),
    decreases b.len(),
{
    if j < b.len() {
        lemma_misses_prefix(students, projects, b.drop_last(), j);
        assert(b.drop_last().take(j) =~= b.take(j));
    } else {
        assert(b.take(j) =~= b);
    }
}

proof fn lemma_misses_le_len(students: Seq<StudentView>, projects: Seq<Seq<char>>, b: Seq<int>)
    ensures
        misses(students, projects, b) <= b.len(),
    decreases b.len(),
{
    if b.len() > 0 {
        lemma_misses_le_len(students, projects, b.drop_last());
    }
}

/// Keys of different projects differ, and every key is below the number of
/// choices plus the number of projects.
proof fn lemma_keys(s: StudentView, projects: Seq<Seq<char>>, p: int, q: int)
    requires
        projects.no_duplicates(),
        0 <= p < projects.len(),
        0 <= q < projects.len(),
    ensures
        0 <= option_key(s, projects, p) < s.choices.len() + projects.len(),
        option_key(s, projects, p) == option_key(s, projects, q) ==> p == q,
        option_key(s, projects, p) < s.choices.len() <==> ranked_by(s, projects, p),
{
    lemma_first_position(s.choices, projects[p]);
    lemma_first_position(s.choices, projects[q]);
}

/// The project that student `s` prefers with key `kb`, if there is one.
fn option_at(s: &Student, projects: &Vec<String>, kb: u128) -> (r: Option<usize>)
    requires
        forall|j: int| 0 <= j < s@.choices.len() ==> strs(projects@).contains(#[trigger] s@.choices[j]),
    ensures
        match r {
            Some(p) => p < projects@.len() && option_key(s@, strs(projects@), p as int) == kb,
            None => forall|p: int| 0 <= p < projects@.len() ==> option_key(s@, strs(projects@), p) != kb,
        },
{
    let ghost pv = strs(projects@);
    let ghost cv = s@.choices;
    let len = s.choices.len();
    if kb < len as u128 {
        let k = kb as usize;
        let c = &s.choices[k];
        proof {
            assert(cv[k as int] == c@);
            assert(cv.contains(c@));
        }
        match first_index(&s.choices, c) {
            Some(i) => {
                if i == k {
                    proof {
                        assert(pv.contains(cv[k as int]));
                    }
                    match first_index(projects, c) {
                        Some(p) => {
                            proof {
                                assert(pv[p as int] == c@);
                            }
                            Some(p)
                        },
                        None => {
                            proof {
                                assert(pv.contains(c@));
                            }
                            None
                        },
                    }
                } else {
                    proof {
                        assert forall|p: int| 0 <= p < projects@.len() implies option_key(s@, pv, p) != kb by {
                            lemma_first_position(cv, pv[p]);
                            if option_key(s@, pv, p) == kb {
                                assert(cv[k as int] == pv[p]);
                            }
                        }
                    }
                    None
                }
            },
            None => None,
        }
    } else {
        let q = kb - len as u128;
        if q < projects.len() as u128 {
            let qi = q as usize;
            match first_index(&s.choices, &projects[qi]) {
                Some(_) => {
                    proof {
                        assert forall|p: int| 0 <= p < projects@.len() implies option_key(s@, pv, p) != kb by {
                            lemma_first_position(cv, pv[p]);
                            lemma_first_position(cv, pv[qi as int]);
                        }
                    }
                    None
                },
                None => Some(qi),
            }
        } else {
            proof {
                assert forall|p: int| 0 <= p < projects@.len() implies option_key(s@, pv, p) != kb by {
                    lemma_first_position(cv, pv[p]);
                }
            }
            None
        }
    }
}

fn copy_places(a: &Vec<usize>) -> (r: Vec<usize>)
    ensures
        r@ == a@,
{
    let mut r: Vec<usize> = Vec::new();
    let mut j: usize = 0;
    while j < a.len()
        invariant
            j <= a@.len(),
            r@ == a@.take(j as int),
        decreases a@.len() - j,
    {
        r.push(a[j]);
        proof {
            assert(r@ =~= a@.take(j + 1));
        }
        j = j + 1;
    }
    proof {
        assert(a@.take(a@.len() as int) =~= a@);
    }
    r
}

/// After trying every option of student `pre.len()` with a key below
/// `kb`: `best` is the best of the assignments `within` that give that
/// student one of those options, and `cur` the number it misses (or
/// `bound` while there is none).
spec fn settled(students: Seq<StudentView>, min: int, max: int, pre: Seq<int>, bound: int, kb: int, best: Option<Seq<int>>, cur: int) -> bool {
    let projects = ranked_projects(students);
    let i = pre.len() as int;
    match best {
        None => cur == bound && forall|b: Seq<int>| #[trigger] within(students, min, max, pre, bound, b)
            ==> option_key(students[i], projects, b[i]) >= kb,
        Some(v) => {
            &&& cur == misses(students, projects, v)
            &&& within(students, min, max, pre, bound, v)
            &&& option_key(students[i], projects, v[i]) < kb
            &&& forall|b: Seq<int>| #[trigger] within(students, min, max, pre, bound, b) && option_key(students[i], projects, b[i]) < kb
                ==> misses(students, projects, v) <= misses(students, projects, b) && (misses(students, projects, b)
                == misses(students, projects, v) && b != v ==> lex_before(keys(students, projects, v), keys(students, projects, b)))
        },
    }
}

proof fn lemma_push(students: Seq<StudentView>, projects: Seq<Seq<char>>, pre: Seq<int>, p: int)
    ensures
        forall|q: int| #[trigger] count(pre.push(p), q) == count(pre, q) + (if p == q { 1nat } else { 0nat }),
        misses(students, projects, pre.push(p)) == misses(students, projects, pre) + (if ranked_by(students[pre.len() as int], projects, p) {
            0nat
        } else {
            1nat
        }),
{
    assert(pre.push(p).drop_last() =~= pre);
}

/// An assignment that starts with `pre` and then `p` is one that starts
/// with `pre.push(p)`.
proof fn lemma_extend(students: Seq<StudentView>, min: int, max: int, pre: Seq<int>, bound: int, cur: int, p: int, b: Seq<int>)
    requires
        within(students, min, max, pre, bound, b),
        pre.len() < b.len(),
        b[pre.len() as int] == p,
        misses(students, ranked_projects(students), b) < cur,
    ensures
        within(students, min, max, pre.push(p), cur, b),
{
    let i = pre.len() as int;
    assert forall|j: int| 0 <= j < i + 1 implies b.take(i + 1)[j] == pre.push(p)[j] by {
        if j < i {
            assert(b.take(i)[j] == pre[j]);
        }
    }
    assert(b.take(i + 1) =~= pre.push(p));
}

proof fn lemma_settled_none(students: Seq<StudentView>, min: int, max: int, pre: Seq<int>, bound: int, kb: int, best: Option<Seq<int>>, cur: int)
    requires
        settled(students, min, max, pre, bound, kb, best, cur),
        pre.len() < students.len(),
        forall|p: int| 0 <= p < ranked_projects(students).len() ==> option_key(students[pre.len() as int], ranked_projects(students), p) != kb,
    ensures
        settled(students, min, max, pre, bound, kb + 1, best, cur),
{
    let i = pre.len() as int;
    assert forall|b: Seq<int>| #[trigger] within(students, min, max, pre, bound, b) implies option_key(students[i], ranked_projects(students), b[i]) != kb by {
        assert(0 <= b[i] < ranked_projects(students).len());
    }
}

/// Trying option `p` (key `kb`) found nothing better than `cur`.
proof fn lemma_settled_skip(students: Seq<StudentView>, min: int, max: int, pre: Seq<int>, bound: int, kb: int, best: Option<Seq<int>>, cur: int, p: int)
    requires
        settled(students, min, max, pre, bound, kb, best, cur),
        pre.len() < students.len(),
        0 <= p < ranked_projects(students).len(),
        option_key(students[pre.len() as int], ranked_projects(students), p) == kb,
        forall|b: Seq<int>| #[trigger] within(students, min, max, pre, bound, b) && b[pre.len() as int] == p
            ==> misses(students, ranked_projects(students), b) >= cur,
    ensures
        settled(students, min, max, pre, bound, kb + 1, best, cur),
{
    let projects = ranked_projects(students);
    let i = pre.len() as int;
    lemma_ranked_distinct(students);
    assert forall|b: Seq<int>| #[trigger] within(students, min, max, pre, bound, b) && option_key(students[i], projects, b[i]) == kb
        implies b[i] == p by {
        lemma_keys(students[i], projects, b[i], p);
    }
    match best {
        None => {},
        Some(v) => {
            assert forall|b: Seq<int>| #[trigger] within(students, min, max, pre, bound, b) && option_key(students[i], projects, b[i]) < kb + 1
                implies misses(students, projects, v) <= misses(students, projects, b) && (misses(students, projects, b)
                == misses(students, projects, v) && b != v ==> lex_before(keys(students, projects, v), keys(students, projects, b))) by {
                if option_key(students[i], projects, b[i]) == kb {
                    let kv = keys(students, projects, v);
                    let kbs = keys(students, projects, b);
                    assert(kv.take(i) =~= kbs.take(i)) by {
                        assert forall|j: int| 0 <= j < i implies kv.take(i)[j] == kbs.take(i)[j] by {
                            assert(v.take(i)[j] == b.take(i)[j]);
                        }
                    }
                    assert(kv[i] < kbs[i]);
                }
            }
        },
    }
}

/// Trying option `p` (key `kb`) found `w`, better than `cur`.
proof fn lemma_settled_found(students: Seq<StudentView>, min: int, max: int, pre: Seq<int>, bound: int, kb: int, best: Option<Seq<int>>, cur: int, p: int, w: Seq<int>)
    requires
        settled(students, min, max, pre, bound, kb, best, cur),
        cur <= bound,
        pre.len() < students.len(),
        0 <= p < ranked_projects(students).len(),
        option_key(students[pre.len() as int], ranked_projects(students), p) == kb,
        best_within(students, min, max, pre.push(p), cur, w),
    ensures
        settled(students, min, max, pre, bound, kb + 1, Some(w), misses(students, ranked_projects(students), w) as int),
{
    let projects = ranked_projects(students);
    let i = pre.len() as int;
    lemma_ranked_distinct(students);
    assert(w.take(i) =~= w.take(i + 1).take(i));
    assert(pre.push(p).take(i) =~= pre);
    assert(w[i] == w.take(i + 1)[i]);
    assert(within(students, min, max, pre, bound, w));
    assert forall|b: Seq<int>| #[trigger] within(students, min, max, pre, bound, b) && option_key(students[i], projects, b[i]) < kb + 1
        implies misses(students, projects, w) <= misses(students, projects, b) && (misses(students, projects, b)
        == misses(students, projects, w) && b != w ==> lex_before(keys(students, projects, w), keys(students, projects, b))) by {
        if option_key(students[i], projects, b[i]) == kb {
            lemma_keys(students[i], projects, b[i], p);
            if misses(students, projects, b) < cur {
                lemma_extend(students, min, max, pre, bound, cur, p, b);
            }
        }
    }
}

/// The places of a found assignment as plain values.
spec fn found_view(f: Option<(Vec<usize>, u128)>) -> Option<Seq<int>> {
    match f {
        Some(x) => Some(ints(x.0@)),
        None => None,
    }
}

/// The best valid assignment that starts with the places in `a`, among
/// those that place fewer than `bound` students at a project they did not
/// rank, with the number it places so; `None` where there is none. The
/// options of each student are tried from the most preferred on, and an
/// option is left out as soon as it cannot lead to a better assignment.
fn search(
    students: &Vec<Student>,
    projects: &Vec<String>,
    min: u32,
    max: u32,
    a: &mut Vec<usize>,
    cnt: &mut Vec<usize>,
    miss: u128,
    bound: u128,
) -> (r: Option<(Vec<usize>, u128)>)
    requires
        strs(projects@) == ranked_projects(students_view(students@)),
        prefix_ok(students_view(students@), max as int, ints(old(a)@)),
        old(cnt)@.len() == projects@.len(),
        forall|p: int| 0 <= p < projects@.len() ==> (#[trigger] old(cnt)@[p]) as int == count(ints(old(a)@), p),
        miss as int == misses(students_view(students@), strs(projects@), ints(old(a)@)),
    ensures
        final(a)@ == old(a)@,
        final(cnt)@ == old(cnt)@,
        match r {
            Some((v, m)) => best_within(students_view(students@), min as int, max as int, ints(old(a)@), bound as int, ints(v@))
                && m as int == misses(students_view(students@), strs(projects@), ints(v@)),
            None => forall|b: Seq<int>| !within(students_view(students@), min as int, max as int, ints(old(a)@), bound as int, b),
        },
    decreases students@.len() - old(a)@.len(),
{
    let ghost sv = students_view(students@);
    let ghost pv = strs(projects@);
    let ghost pre = ints(a@);
    let ghost minv = min as int;
    let ghost maxv = max as int;
    let n = students.len();
    let i = a.len();
    let np = projects.len();
    proof {
        lemma_misses_le_len(sv, pv, pre);
        lemma_ranked_distinct(sv);
    }
    if i == n {
        let mut p: usize = 0;
        let mut ok = true;
        while p < np
            invariant
                p <= np,
                np == projects@.len(),
                cnt@.len() == np,
                forall|q: int| 0 <= q < np ==> (#[trigger] cnt@[q]) as int == count(pre, q),
                minv == min as int,
                ok ==> forall|q: int| 0 <= q < p ==> #[trigger] count(pre, q) == 0 || minv <= count(pre, q),
                !ok ==> exists|q: int| 0 <= q < p && !(#[trigger] count(pre, q) == 0 || minv <= count(pre, q)),
            decreases np - p,
        {
            proof {
                assert(cnt@[p as int] as int == count(pre, p as int));
            }
            if cnt[p] > 0 && cnt[p] < min as usize {
                ok = false;
            }
            p = p + 1;
        }
        proof {
            assert forall|b: Seq<int>| #[trigger] within(sv, minv, maxv, pre, bound as int, b) implies b == pre by {
                assert(b.take(n as int) =~= b);
            }
            if ok && miss < bound {
                assert(valid_assignment(sv, pv, minv, maxv, pre));
                assert(pre.take(n as int) =~= pre);
                assert(within(sv, minv, maxv, pre, bound as int, pre));
            } else if !ok {
                let q = choose|q: int| 0 <= q < np && !(count(pre, q) == 0 || minv <= count(pre, q));
                assert forall|b: Seq<int>| !within(sv, minv, maxv, pre, bound as int, b) by {
                    if within(sv, minv, maxv, pre, bound as int, b) {
                        assert(b == pre);
                        assert(count(b, q) == 0 || (minv <= count(b, q) && count(b, q) <= maxv));
                    }
                }
            }
        }
        if ok && miss < bound {
            let v = copy_places(a);
            return Some((v, miss));
        } else {
            return None;
        }
    }
    let pitched = students[i].is_pitcher && students[i].choices.len() > 0;
    let total: u128 = students[i].choices.len() as u128 + np as u128;
    let mut best: Option<(Vec<usize>, u128)> = None;
    let mut cur: u128 = bound;
    let mut kb: u128 = 0;
    proof {
        lemma_ranked_contains(sv);
        assert(sv[i as int] == students@[i as int]@);
        assert forall|j: int| 0 <= j < students@[i as int]@.choices.len() implies pv.contains(#[trigger] students@[i as int]@.choices[j]) by {
            assert(sv[i as int].choices[j] == students@[i as int]@.choices[j]);
        }
    }
    proof {
        assert forall|b: Seq<int>| #[trigger] within(sv, minv, maxv, pre, bound as int, b) implies option_key(sv[i as int], pv, b[i as int]) >= 0 by {
            lemma_keys(sv[i as int], pv, b[i as int], b[i as int]);
        }
    }
    while kb < total
        invariant
            sv == students_view(students@),
            pv == strs(projects@),
            pv == ranked_projects(sv),
            pv.no_duplicates(),
            minv == min as int,
            maxv == max as int,
            n == students@.len(),
            np == projects@.len(),
            i < n,
            a@ == old(a)@,
            cnt@ == old(cnt)@,
            pre == ints(a@),
            pre.len() == i,
            prefix_ok(sv, maxv, pre),
            cnt@.len() == np,
            forall|p: int| 0 <= p < np ==> (#[trigger] cnt@[p]) as int == count(pre, p),
            miss as int == misses(sv, pv, pre),
            miss <= i,
            sv[i as int] == students@[i as int]@,
            forall|j: int| 0 <= j < students@[i as int]@.choices.len() ==> pv.contains(#[trigger] students@[i as int]@.choices[j]),
            pitched == (sv[i as int].is_pitcher && sv[i as int].choices.len() > 0),
            total == sv[i as int].choices.len() + np,
            kb <= total,
            cur <= bound,
            settled(
                sv,
                minv,
                maxv,
                pre,
                bound as int,
                kb as int,
                found_view(best),
                cur as int,
            ),
            best matches Some(x) ==> x.1 == cur,
        decreases total - kb,
    {
        let ghost bv = found_view(best);
        match option_at(&students[i], projects, kb) {
            Some(p) => {
                let ranked = kb < students[i].choices.len() as u128;
                let m: u128 = if ranked { miss } else { miss + 1 };
                proof {
                    lemma_keys(sv[i as int], pv, p as int, p as int);
                    lemma_push(sv, pv, pre, p as int);
                    assert(m as int == misses(sv, pv, pre.push(p as int)));
                }
                let fits = cnt[p] < max as usize && (!pitched || projects[p] == students[i].choices[0]) && m < cur;
                if fits {
                    a.push(p);
                    let c = cnt[p] + 1;
                    cnt.set(p, c);
                    proof {
                        assert(ints(a@) =~= pre.push(p as int));
                        if pitched {
                            assert(students@[i as int]@.choices[0] == students@[i as int].choices@[0]@);
                        }
                        assert forall|q: int| 0 <= q < pv.len() implies #[trigger] count(pre.push(p as int), q) <= maxv by {}
                        assert forall|s: int| 0 <= s < pre.len() + 1 implies 0 <= #[trigger] pre.push(p as int)[s] < pv.len() by {
                            if s < pre.len() {
                                assert(pre[s] == pre.push(p as int)[s]);
                            }
                        }
                        assert(prefix_ok(sv, maxv, pre.push(p as int)));
                    }
                    let rec = search(students, projects, min, max, a, cnt, m, cur);
                    a.pop();
                    let c2 = cnt[p] - 1;
                    cnt.set(p, c2);
                    proof {
                        assert(a@ =~= old(a)@);
                        assert(cnt@ =~= old(cnt)@);
                    }
                    match rec {
                        Some(x) => {
                            proof {
                                lemma_settled_found(sv, minv, maxv, pre, bound as int, kb as int, bv, cur as int, p as int, ints(x.0@));
                            }
                            cur = x.1;
                            best = Some(x);
                        },
                        None => {
                            proof {
                                assert forall|b: Seq<int>| #[trigger] within(sv, minv, maxv, pre, bound as int, b) && b[i as int] == p
                                    implies misses(sv, pv, b) >= cur by {
                                    if misses(sv, pv, b) < cur {
                                        lemma_extend(sv, minv, maxv, pre, bound as int, cur as int, p as int, b);
                                    }
                                }
                                lemma_settled_skip(sv, minv, maxv, pre, bound as int, kb as int, bv, cur as int, p as int);
                            }
                        },
                    }
                } else {
                    proof {
                        assert forall|b: Seq<int>| #[trigger] within(sv, minv, maxv, pre, bound as int, b) && b[i as int] == p
                            implies misses(sv, pv, b) >= cur by {
                            let pb = pre.push(p as int);
                            assert(b.take(i + 1) =~= pb) by {
                                assert forall|j: int| 0 <= j < i + 1 implies b.take(i + 1)[j] == pb[j] by {
                                    if j < i {
                                        assert(b.take(i as int)[j] == pre[j]);
                                    }
                                }
                            }
                            lemma_count_prefix(b, i + 1, p as int);
                            lemma_misses_prefix(sv, pv, b, i + 1);
                            if pitched {
                                assert(students@[i as int]@.choices[0] == students@[i as int].choices@[0]@);
                            }
                        }
                        lemma_settled_skip(sv, minv, maxv, pre, bound as int, kb as int, bv, cur as int, p as int);
                    }
                }
            },
            None => {
                proof {
                    lemma_settled_none(sv, minv, maxv, pre, bound as int, kb as int, bv, cur as int);
                }
            },
        }
        kb = kb + 1;
    }
    proof {
        assert forall|b: Seq<int>| #[trigger] within(sv, minv, maxv, pre, bound as int, b) implies option_key(sv[i as int], pv, b[i as int]) < kb by {
            lemma_keys(sv[i as int], pv, b[i as int], b[i as int]);
        }
    }
    best
}

pub(crate) proof fn lemma_members_len(students: Seq<StudentView>, a: Seq<int>, p: int, u: nat)
    requires
        u <= a.len(),
    ensures
        members_of(students, a, p, u).len() == count(a.take(u as int), p),
    decreases u,
{
    if u > 0 {
        lemma_members_len(students, a, p, (u - 1) as nat);
        lemma_count_take(a, u - 1, p);
    } else {
        assert(a.take(0) =~= Seq::<int>::empty());
    }
}

/// The names of the students placed at project `p`, in order.
fn team_members(students: &Vec<Student>, a: &Vec<usize>, p: usize) -> (r: Vec<String>)
    requires
        a@.len() == students@.len(),
    ensures
        strs(r@) == members_of(students_view(students@), ints(a@), p as int, students@.len()),
{
    let ghost sv = students_view(students@);
    let ghost av = ints(a@);
    let mut r: Vec<String> = Vec::new();
    let mut s: usize = 0;
    while s < students.len()
        invariant
            s <= students@.len(),
            a@.len() == students@.len(),
            sv == students_view(students@),
            av == ints(a@),
            strs(r@) == members_of(sv, av, p as int, s as nat),
        decreases students@.len() - s,
    {
        if a[s] == p {
            let ghost prev = r@;
            r.push(students[s].name.clone());
            proof {
                assert(sv[s as int] == students@[s as int]@);
                assert(strs(r@) =~= strs(prev).push(sv[s as int].name));
            }
        }
        s = s + 1;
    }
    r
}

proof fn lemma_teams_of_keys(students: Seq<StudentView>, projects: Seq<Seq<char>>, caps: Seq<int>, a: Seq<int>, j: nat)
    requires
        j <= projects.len(),
    ensures
        forall|x: int| 0 <= x < teams_of(students, projects, caps, a, j).len() ==>
            projects.take(j as int).contains((#[trigger] teams_of(students, projects, caps, a, j)[x]).0),
        projects.no_duplicates() ==> projects_distinct(teams_of(students, projects, caps, a, j)),
    decreases j,
{
    if j > 0 {
        lemma_teams_of_keys(students, projects, caps, a, (j - 1) as nat);
        let prev = teams_of(students, projects, caps, a, (j - 1) as nat);
        let cur = teams_of(students, projects, caps, a, j);
        let tp = projects.take(j as int);
        let tq = projects.take(j - 1);
        assert forall|x: int| 0 <= x < cur.len() implies tp.contains((#[trigger] cur[x]).0) by {
            if x < prev.len() {
                assert(cur[x] == prev[x]);
                assert(tq.contains(prev[x].0));
                let b = choose|b: int| 0 <= b < tq.len() && tq[b] == prev[x].0;
                assert(tp[b] == tq[b]);
            } else {
                assert(tp[j - 1] == cur[x].0);
            }
        }
        if projects.no_duplicates() && caps[j - 1] > 0 {
            assert forall|x: int, y: int| 0 <= x < cur.len() && 0 <= y < cur.len() && x != y implies (#[trigger] cur[x]).0 != (#[trigger] cur[y]).0 by {
                if x < prev.len() && y < prev.len() {
                    assert(cur[x] == prev[x]);
                    assert(cur[y] == prev[y]);
                } else if x < prev.len() {
                    assert(cur[x] == prev[x]);
                    assert(tq.contains(prev[x].0));
                    let b = choose|b: int| 0 <= b < tq.len() && tq[b] == prev[x].0;
                    assert(projects[b] != projects[j - 1]);
                } else {
                    assert(cur[y] == prev[y]);
                    assert(tq.contains(prev[y].0));
                    let b = choose|b: int| 0 <= b < tq.len() && tq[b] == prev[y].0;
                    assert(projects[b] != projects[j - 1]);
                }
            }
        }
    }
}

/// Assigns the students to teams on the projects they ranked, so that every
/// student is in one team, every team has between `min_team_size` and
/// `max_team_size` members, and every pitcher is in the team of the project
/// they pitched; `None` exactly where no such assignment exists. Of all such
/// assignments it takes the best (`is_best`): as few students as possible
/// at a project they did not rank, and then the earlier students at the
/// projects they prefer. The teams are listed in the order in which the
/// projects were first ranked, members in student order. Sizes that no
/// assignment can meet are refused at once; otherwise the search tries
/// options from the most preferred on and drops any that cannot beat the
/// best found so far, so it is quick where students mostly fit their
/// choices, and can take time exponential in the number of students where
/// many cannot.
pub fn assign_teams(students: &Vec<Student>, min_team_size: u32, max_team_size: u32) -> (r: Option<Teams>)
    ensures
        match r {
            Some(t) => best_assignment(students_view(students@), min_team_size as int, max_team_size as int) is Some
                && is_best(
                    students_view(students@),
                    min_team_size as int,
                    max_team_size as int,
                    best_assignment(students_view(students@), min_team_size as int, max_team_size as int)->Some_0,
                )
                && assignment_outcome(students_view(students@), min_team_size as int, max_team_size as int) == Some(t@)
                && projects_distinct(t@),
            None => !feasible(students_view(students@), min_team_size as int, max_team_size as int)
                && assignment_outcome(students_view(students@), min_team_size as int, max_team_size as int) is None,
        },
{
    let ghost sv = students_view(students@);
    let ghost minv = min_team_size as int;
    let ghost maxv = max_team_size as int;
    let n = students.len();
    let projects = collect_projects(students);
    let ghost pv = strs(projects@);
    let np = projects.len();
    proof {
        lemma_ranked_distinct(sv);
        if best_assignment(sv, minv, maxv) is Some {
            let a = best_assignment(sv, minv, maxv)->Some_0;
            assert(is_best(sv, minv, maxv, a));
            assert(valid_assignment(sv, pv, minv, maxv, a));
        }
    }
    // Sizes that no assignment can meet are found at once.
    let pitch = pitch_slots(students, &projects);
    let pcs = tally(&pitch, np);
    proof {
        assert(ints(pcs@) =~= pitcher_counts(sv, pv));
    }
    let tab = reach_table(&pcs, min_team_size, max_team_size, n);
    if !tab[np][n] {
        proof {
            if feasible(sv, minv, maxv) {
                let b = choose|b: Seq<int>| valid_assignment(sv, pv, minv, maxv, b);
                lemma_valid_reaches(sv, minv, maxv, b);
            }
        }
        return None;
    }
    let mut a: Vec<usize> = Vec::new();
    let mut cnt: Vec<usize> = Vec::new();
    let mut p: usize = 0;
    while p < np
        invariant
            p <= np,
            cnt@.len() == p,
            forall|q: int| 0 <= q < p ==> #[trigger] cnt@[q] == 0,
        decreases np - p,
    {
        cnt.push(0);
        p = p + 1;
    }
    proof {
        assert(ints(a@) =~= Seq::<int>::empty());
        assert forall|q: int| 0 <= q < pv.len() implies #[trigger] count(ints(a@), q) <= maxv by {}
        assert(prefix_ok(sv, maxv, ints(a@)));
    }
    let bound: u128 = n as u128 + 1;
    let found = search(students, &projects, min_team_size, max_team_size, &mut a, &mut cnt, 0, bound);
    match found {
        None => {
            proof {
                if feasible(sv, minv, maxv) {
                    let b = choose|b: Seq<int>| valid_assignment(sv, pv, minv, maxv, b);
                    lemma_misses_le_len(sv, pv, b);
                    assert(b.take(0) =~= Seq::<int>::empty());
                    assert(within(sv, minv, maxv, Seq::<int>::empty(), bound as int, b));
                }
            }
            None
        },
        Some((v, _)) => {
            let ghost av = ints(v@);
            proof {
                assert(ints(Seq::<usize>::empty()) =~= Seq::<int>::empty());
                assert forall|b: Seq<int>| #[trigger] valid_assignment(sv, pv, minv, maxv, b) implies within(
                    sv,
                    minv,
                    maxv,
                    Seq::<int>::empty(),
                    bound as int,
                    b,
                ) by {
                    lemma_misses_le_len(sv, pv, b);
                    assert(b.take(0) =~= Seq::<int>::empty());
                }
                assert(is_best(sv, minv, maxv, av));
                assert(best_assignment(sv, minv, maxv) is Some);
                lemma_best_unique(sv, minv, maxv, av, best_assignment(sv, minv, maxv)->Some_0);
            }
            let ghost cv = counts(av, np as nat);
            let mut out: Vec<(String, Vec<String>)> = Vec::new();
            let mut p: usize = 0;
            while p < np
                invariant
                    p <= np,
                    np == projects@.len(),
                    v@.len() == students@.len(),
                    n == students@.len(),
                    av.len() == n,
                    sv == students_view(students@),
                    av == ints(v@),
                    cv == counts(av, np as nat),
                    pv == strs(projects@),
                    out@.map_values(|e: (String, Vec<String>)| team_view(e)) == teams_of(sv, pv, cv, av, p as nat),
                decreases np - p,
            {
                let names = team_members(students, &v, p);
                proof {
                    lemma_members_len(sv, av, p as int, n as nat);
                    assert(av.take(n as int) =~= av);
                }
                if names.len() > 0 {
                    let ghost prev = out@;
                    out.push((projects[p].clone(), names));
                    proof {
                        let g = |e: (String, Vec<String>)| team_view(e);
                        let want = teams_of(sv, pv, cv, av, p as nat).push((pv[p as int], members_of(sv, av, p as int, students@.len())));
                        assert(prev.map_values(g).len() == teams_of(sv, pv, cv, av, p as nat).len());
                        assert forall|m: int| 0 <= m < prev.len() implies out@.map_values(g)[m] == want[m] by {
                            assert(out@[m] == prev[m]);
                            assert(prev.map_values(g)[m] == teams_of(sv, pv, cv, av, p as nat)[m]);
                        }
                        assert(out@.map_values(g) =~= want);
                    }
                }
                p = p + 1;
            }
            proof {
                lemma_teams_of_keys(sv, pv, cv, av, np as nat);
            }
            Some(Teams::from_entries(out))
        },
    }
}

} // verus!
