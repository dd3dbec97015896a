use vstd::multiset::Multiset;
use vstd::prelude::*;

use crate::assignment::{
    allowed, answer_teams, best_assignment, count, counts, feasible, first_choice_index, is_best, lemma_count_take,
    lemma_members_len, members_of, misses, pitch_seq, pitcher_counts, ranked_by, reach, teams_of, valid_assignment,
};
use crate::lp_model::{
    first_position, is_first_position, last_position, netids, pitcher_links_upto, request_pairs, teammate_pairs_upto, chosen_members, solution_teams,
};
use crate::solver::{cell_or_empty, present_values, student_of_row, lemma_ranked_contains, lemma_ranked_distinct, ranked_projects, solve_outcome, students_of_rows, ConfigView, StudentView};
use crate::teams::TeamView;

verus! {

/// Every pitcher ranked at least one project.
pub open spec fn pitchers_ranked(students: Seq<StudentView>) -> bool {
    forall|i: int| 0 <= i < students.len() && (#[trigger] students[i]).is_pitcher ==> students[i].choices.len() > 0
}

pub(crate) proof fn lemma_first_position(xs: Seq<Seq<char>>, x: Seq<char>)
    ensures
        xs.contains(x) <==> first_position(xs, x) is Some,
        first_position(xs, x) matches Some(i) ==> is_first_position(xs, x, i),
{
    if xs.contains(x) {
        let i0 = choose|i: int| 0 <= i < xs.len() && xs[i] == x;
        lemma_first_below(xs, x, i0);
    }
}

proof fn lemma_first_below(xs: Seq<Seq<char>>, x: Seq<char>, i: int)
    requires
        0 <= i < xs.len(),
        xs[i] == x,
    ensures
        exists|f: int| is_first_position(xs, x, f),
    decreases i,
{
    if exists|j: int| 0 <= j < i && xs[j] == x {
        let j = choose|j: int| 0 <= j < i && xs[j] == x;
        lemma_first_below(xs, x, j);
    } else {
        assert(is_first_position(xs, x, i));
    }
}

// ---- sums over projects ----

/// The number of students placed at the first `j` projects.
pub open spec fn count_sum(a: Seq<int>, j: nat) -> int
    decreases j,
{
    if j == 0 {
        0
    } else {
        count_sum(a, (j - 1) as nat) + count(a, j - 1)
    }
}

/// The number of entries of `a` between 0 and `j`.
pub open spec fn in_range(a: Seq<int>, j: int) -> nat
    decreases a.len(),
{
    if a.len() == 0 {
        0
    } else {
        in_range(a.drop_last(), j) + (if 0 <= a.last() < j { 1nat } else { 0nat })
    }
}

proof fn lemma_count_sum_step(a: Seq<int>, j: nat)
    requires
        a.len() > 0,
    ensures
        count_sum(a, j) == count_sum(a.drop_last(), j) + (if 0 <= a.last() < j { 1int } else { 0int }),
    decreases j,
{
    if j > 0 {
        lemma_count_sum_step(a, (j - 1) as nat);
    }
}

proof fn lemma_count_sum_in_range(a: Seq<int>, j: nat)
    ensures
        count_sum(a, j) == in_range(a, j as int),
    decreases a.len(),
{
    if a.len() == 0 {
        lemma_count_sum_empty(a, j);
    } else {
        lemma_count_sum_in_range(a.drop_last(), j);
        lemma_count_sum_step(a, j);
    }
}

proof fn lemma_count_sum_empty(a: Seq<int>, j: nat)
    requires
        a.len() == 0,
    ensures
        count_sum(a, j) == 0,
    decreases j,
{
    if j > 0 {
        lemma_count_sum_empty(a, (j - 1) as nat);
    }
}

proof fn lemma_in_range_bound(a: Seq<int>, j: int)
    ensures
        in_range(a, j) <= a.len(),
        (forall|s: int| 0 <= s < a.len() ==> 0 <= #[trigger] a[s] < j) ==> in_range(a, j) == a.len(),
        (exists|s: int| 0 <= s < a.len() && !(0 <= #[trigger] a[s] < j)) ==> in_range(a, j) < a.len(),
    decreases a.len(),
{
    if a.len() > 0 {
        let d = a.drop_last();
        lemma_in_range_bound(d, j);
        if forall|s: int| 0 <= s < a.len() ==> 0 <= #[trigger] a[s] < j {
            assert forall|s: int| 0 <= s < d.len() implies 0 <= #[trigger] d[s] < j by {
                assert(d[s] == a[s]);
            }
        }
        if exists|s: int| 0 <= s < a.len() && !(0 <= #[trigger] a[s] < j) {
            let s = choose|s: int| 0 <= s < a.len() && !(0 <= #[trigger] a[s] < j);
            if s < d.len() {
                assert(d[s] == a[s]);
            }
        }
    }
}

proof fn lemma_first_choice_index(st: StudentView, projects: Seq<Seq<char>>)
    ensures
        first_choice_index(st, projects) == -1 || (0 <= first_choice_index(st, projects) < projects.len()
            && projects[first_choice_index(st, projects)] == st.choices[0]),
        st.choices.len() > 0 && projects.contains(st.choices[0]) ==> first_choice_index(st, projects) >= 0,
{
    if st.choices.len() > 0 {
        lemma_first_position(projects, st.choices[0]);
    }
}

proof fn lemma_count_mono(x: Seq<int>, y: Seq<int>, p: int)
    requires
        x.len() == y.len(),
        forall|s: int| 0 <= s < x.len() && #[trigger] x[s] == p ==> y[s] == p,
    ensures
        count(x, p) <= count(y, p),
    decreases x.len(),
{
    if x.len() > 0 {
        let dx = x.drop_last();
        let dy = y.drop_last();
        assert forall|s: int| 0 <= s < dx.len() && #[trigger] dx[s] == p implies dy[s] == p by {
            assert(x[s] == dx[s]);
            assert(y[s] == dy[s]);
        }
        lemma_count_mono(dx, dy, p);
    }
}

proof fn lemma_reach_from_counts(pcs: Seq<int>, min: int, max: int, a: Seq<int>, j: nat)
    requires
        j <= pcs.len(),
        forall|p: int| 0 <= p < j ==> #[trigger] allowed(count(a, p) as int, pcs[p], min, max),
    ensures
        reach(pcs, min, max, j, count_sum(a, j)),
    decreases j,
{
    if j > 0 {
        lemma_reach_from_counts(pcs, min, max, a, (j - 1) as nat);
        lemma_count_sum_in_range(a, (j - 1) as nat);
        let k = count(a, j - 1) as int;
        assert(allowed(k, pcs[j - 1], min, max));
        assert(count_sum(a, j) - k == count_sum(a, (j - 1) as nat));
    }
}

/// A valid assignment shows that the projects can take the students.
pub(crate) proof fn lemma_valid_reaches(students: Seq<StudentView>, min: int, max: int, a: Seq<int>)
    requires
        valid_assignment(students, ranked_projects(students), min, max, a),
    ensures
        reach(pitcher_counts(students, ranked_projects(students)), min, max, ranked_projects(students).len(), students.len() as int),
{
    let projects = ranked_projects(students);
    let np = projects.len();
    let pitch = pitch_seq(students, projects);
    let pcs = pitcher_counts(students, projects);
    lemma_ranked_distinct(students);
    assert forall|p: int| 0 <= p < np implies #[trigger] allowed(count(a, p) as int, pcs[p], min, max) by {
        assert forall|s: int| 0 <= s < pitch.len() && #[trigger] pitch[s] == p implies a[s] == p by {
            lemma_first_choice_index(students[s], projects);
            assert(students[s].is_pitcher);
            assert(projects[a[s]] == students[s].choices[0]);
            assert(0 <= a[s] < np);
        }
        lemma_count_mono(pitch, a, p);
    }
    lemma_reach_from_counts(pcs, min, max, a, np);
    lemma_count_sum_in_range(a, np);
    lemma_in_range_bound(a, np as int);
}

/// The names of all members of `ts`, counted with repetition.
pub open spec fn member_names(ts: Seq<TeamView>) -> Multiset<Seq<char>>
    decreases ts.len(),
{
    if ts.len() == 0 {
        Multiset::empty()
    } else {
        member_names(ts.drop_last()).add(ts.last().1.to_multiset())
    }
}

/// The students' names, counted with repetition.
pub open spec fn student_names(students: Seq<StudentView>) -> Multiset<Seq<char>> {
    students.map_values(|s: StudentView| s.name).to_multiset()
}

/// `ts` puts every student in exactly one team (the members' names are the
/// students' names), gives every team between `min` and `max` members and
/// a project that some student ranked, and puts every pitcher in the team
/// of the project they pitched.
pub open spec fn answer_ok(students: Seq<StudentView>, min: int, max: int, ts: Seq<TeamView>) -> bool {
    &&& member_names(ts) == student_names(students)
    &&& forall|x: int| 0 <= x < ts.len() ==> 0 < (#[trigger] ts[x]).1.len() && min <= ts[x].1.len() <= max
    &&& forall|x: int| 0 <= x < ts.len() ==> exists|s: int|
        0 <= s < students.len() && (#[trigger] students[s].choices).contains((#[trigger] ts[x]).0)
    &&& forall|s: int| 0 <= s < students.len() && (#[trigger] students[s]).is_pitcher ==> exists|x: int|
        0 <= x < ts.len() && (#[trigger] ts[x]).0 == students[s].choices[0] && ts[x].1.contains(students[s].name)
}

/// The team of project `p` under the placement `a`.
spec fn team_at(students: Seq<StudentView>, projects: Seq<Seq<char>>, a: Seq<int>, p: int) -> TeamView {
    (projects[p], members_of(students, a, p, students.len()))
}

/// Whether `t` is the team of one of the first `j` projects with a
/// size above zero.
spec fn from_project(students: Seq<StudentView>, projects: Seq<Seq<char>>, caps: Seq<int>, a: Seq<int>, j: nat, t: TeamView) -> bool {
    exists|p: int| 0 <= p < j && caps[p] > 0 && #[trigger] team_at(students, projects, a, p) == t
}

/// Whether `t` is one of `ts`.
spec fn listed(ts: Seq<TeamView>, t: TeamView) -> bool {
    exists|x: int| 0 <= x < ts.len() && ts[x] == t
}

proof fn lemma_members_contains(students: Seq<StudentView>, a: Seq<int>, p: int, u: nat, s: int)
    requires
        0 <= s < u,
        a[s] == p,
    ensures
        members_of(students, a, p, u).contains(students[s].name),
    decreases u,
{
    if s < u - 1 {
        lemma_members_contains(students, a, p, (u - 1) as nat, s);
        let prev = members_of(students, a, p, (u - 1) as nat);
        let i = choose|i: int| 0 <= i < prev.len() && prev[i] == students[s].name;
        assert(members_of(students, a, p, u)[i] == students[s].name);
    } else {
        let cur = members_of(students, a, p, u);
        assert(cur[cur.len() - 1] == students[s].name);
    }
}

proof fn lemma_teams_of_entries(students: Seq<StudentView>, projects: Seq<Seq<char>>, caps: Seq<int>, a: Seq<int>, j: nat)
    requires
        j <= projects.len(),
        j <= caps.len(),
    ensures
        forall|x: int|
            0 <= x < teams_of(students, projects, caps, a, j).len() ==> from_project(
                students,
                projects,
                caps,
                a,
                j,
                #[trigger] teams_of(students, projects, caps, a, j)[x],
            ),
        forall|p: int| 0 <= p < j && caps[p] > 0 ==> listed(
            teams_of(students, projects, caps, a, j),
            #[trigger] team_at(students, projects, a, p),
        ),
    decreases j,
{
    if j > 0 {
        lemma_teams_of_entries(students, projects, caps, a, (j - 1) as nat);
        let prev = teams_of(students, projects, caps, a, (j - 1) as nat);
        let cur = teams_of(students, projects, caps, a, j);
        if caps[j - 1] > 0 {
            assert(cur[prev.len() as int] == team_at(students, projects, a, j - 1));
            assert forall|x: int| 0 <= x < cur.len() implies from_project(students, projects, caps, a, j, #[trigger] cur[x]) by {
                if x < prev.len() {
                    assert(cur[x] == prev[x]);
                    assert(from_project(students, projects, caps, a, (j - 1) as nat, prev[x]));
                } else {
                    assert(team_at(students, projects, a, j - 1) == cur[x]);
                }
            }
            assert forall|p: int| 0 <= p < j && caps[p] > 0 implies listed(cur, #[trigger] team_at(students, projects, a, p)) by {
                if p < j - 1 {
                    assert(listed(prev, team_at(students, projects, a, p)));
                    let x = choose|x: int| 0 <= x < prev.len() && prev[x] == team_at(students, projects, a, p);
                    assert(cur[x] == prev[x]);
                } else {
                    assert(cur[prev.len() as int] == team_at(students, projects, a, p));
                }
            }
        } else {
            assert(cur == prev);
            assert forall|x: int| 0 <= x < cur.len() implies from_project(students, projects, caps, a, j, #[trigger] cur[x]) by {
                assert(from_project(students, projects, caps, a, (j - 1) as nat, prev[x]));
            }
        }
    }
}

/// The names of the first `u` students placed at the first `j` projects.
spec fn bag_upto(students: Seq<StudentView>, a: Seq<int>, j: nat, u: nat) -> Multiset<Seq<char>>
    decreases j,
{
    if j == 0 {
        Multiset::empty()
    } else {
        bag_upto(students, a, (j - 1) as nat, u).add(members_of(students, a, j - 1, u).to_multiset())
    }
}

proof fn lemma_bag_start(students: Seq<StudentView>, a: Seq<int>, j: nat)
    ensures
        bag_upto(students, a, j, 0) =~= Multiset::empty(),
    decreases j,
{
    broadcast use vstd::multiset::group_multiset_axioms;
    if j > 0 {
        lemma_bag_start(students, a, (j - 1) as nat);
        Seq::<Seq<char>>::empty().to_multiset_ensures();
        assert(members_of(students, a, j - 1, 0) =~= Seq::<Seq<char>>::empty());
    }
}

proof fn lemma_bag_step(students: Seq<StudentView>, a: Seq<int>, j: nat, u: nat)
    requires
        0 < u,
    ensures
        bag_upto(students, a, j, u) =~= (if 0 <= a[u - 1] < j {
            bag_upto(students, a, j, (u - 1) as nat).insert(students[u - 1].name)
        } else {
            bag_upto(students, a, j, (u - 1) as nat)
        }),
    decreases j,
{
    broadcast use vstd::multiset::group_multiset_axioms;
    if j > 0 {
        lemma_bag_step(students, a, (j - 1) as nat, u);
        let prev = members_of(students, a, j - 1, (u - 1) as nat);
        prev.to_multiset_ensures();
    }
}

proof fn lemma_bag_all(students: Seq<StudentView>, a: Seq<int>, j: nat, u: nat)
    requires
        u <= students.len(),
        forall|s: int| 0 <= s < u ==> 0 <= #[trigger] a[s] < j,
    ensures
        bag_upto(students, a, j, u) =~= students.take(u as int).map_values(|s: StudentView| s.name).to_multiset(),
    decreases u,
{
    broadcast use vstd::multiset::group_multiset_axioms;
    let f = |s: StudentView| s.name;
    if u == 0 {
        lemma_bag_start(students, a, j);
        assert(students.take(0).map_values(f) =~= Seq::<Seq<char>>::empty());
        Seq::<Seq<char>>::empty().to_multiset_ensures();
    } else {
        lemma_bag_all(students, a, j, (u - 1) as nat);
        lemma_bag_step(students, a, j, u);
        let prev = students.take(u - 1).map_values(f);
        assert(students.take(u as int).map_values(f) =~= prev.push(students[u - 1].name));
        prev.to_multiset_ensures();
    }
}

proof fn lemma_teams_bag(students: Seq<StudentView>, projects: Seq<Seq<char>>, caps: Seq<int>, a: Seq<int>, j: nat)
    requires
        j <= projects.len(),
        j <= caps.len(),
        forall|p: int| 0 <= p < j && caps[p] <= 0 ==> #[trigger] members_of(students, a, p, students.len()).len() == 0,
    ensures
        member_names(teams_of(students, projects, caps, a, j)) =~= bag_upto(students, a, j, students.len()),
    decreases j,
{
    broadcast use vstd::multiset::group_multiset_axioms;
    if j > 0 {
        lemma_teams_of_entries(students, projects, caps, a, j);
        lemma_teams_bag(students, projects, caps, a, (j - 1) as nat);
        let prev = teams_of(students, projects, caps, a, (j - 1) as nat);
        let cur = teams_of(students, projects, caps, a, j);
        let m = members_of(students, a, j - 1, students.len());
        if caps[j - 1] > 0 {
            assert(cur.drop_last() =~= prev);
        } else {
            assert(m =~= Seq::<Seq<char>>::empty());
            Seq::<Seq<char>>::empty().to_multiset_ensures();
        }
    }
}

/// The teams of a valid assignment put every student in exactly one team,
/// give every team between `min` and `max` members and a project that some
/// student ranked, and put every pitcher in the team of the project they
/// pitched.
pub proof fn law_answer(students: Seq<StudentView>, min: int, max: int, a: Seq<int>)
    requires
        pitchers_ranked(students),
        valid_assignment(students, ranked_projects(students), min, max, a),
    ensures
        answer_ok(students, min, max, answer_teams(students, a)),
{
    let projects = ranked_projects(students);
    let np = projects.len();
    let n = students.len();
    let caps = counts(a, np);
    let ts = teams_of(students, projects, caps, a, np);
    lemma_teams_of_entries(students, projects, caps, a, np);
    lemma_ranked_contains(students);
    assert(a.take(n as int) =~= a);
    assert forall|p: int| 0 <= p < np implies #[trigger] members_of(students, a, p, n).len() == caps[p] by {
        lemma_members_len(students, a, p, n);
    }
    assert forall|x: int| 0 <= x < ts.len() implies 0 < (#[trigger] ts[x]).1.len() && min <= ts[x].1.len() <= max by {
        assert(from_project(students, projects, caps, a, np, ts[x]));
        let p = choose|p: int| 0 <= p < np && caps[p] > 0 && #[trigger] team_at(students, projects, a, p) == ts[x];
        assert(members_of(students, a, p, n).len() == caps[p]);
        assert(count(a, p) == caps[p]);
    }
    assert forall|x: int| 0 <= x < ts.len() implies exists|s: int|
        0 <= s < students.len() && (#[trigger] students[s].choices).contains((#[trigger] ts[x]).0) by {
        assert(from_project(students, projects, caps, a, np, ts[x]));
        let p = choose|p: int| 0 <= p < np && caps[p] > 0 && #[trigger] team_at(students, projects, a, p) == ts[x];
        assert(projects.contains(projects[p]));
    }
    assert forall|s: int| 0 <= s < students.len() && (#[trigger] students[s]).is_pitcher implies exists|x: int|
        0 <= x < ts.len() && (#[trigger] ts[x]).0 == students[s].choices[0] && ts[x].1.contains(students[s].name) by {
        let p = a[s];
        assert(0 <= p < np);
        lemma_members_contains(students, a, p, n, s);
        assert(members_of(students, a, p, n).len() == caps[p]);
        assert(listed(ts, team_at(students, projects, a, p)));
        let x = choose|x: int| 0 <= x < ts.len() && ts[x] == team_at(students, projects, a, p);
        assert(ts[x].0 == students[s].choices[0]);
    }
    assert forall|s: int| 0 <= s < n implies 0 <= #[trigger] a[s] < np by {}
    lemma_teams_bag(students, projects, caps, a, np);
    lemma_bag_all(students, a, np, n);
    assert(students.take(n as int) =~= students);
}

/// The names of the records under `config`, counted with repetition (the
/// empty text for a record without a name cell).
pub open spec fn record_names(config: ConfigView, rows: Seq<Map<Seq<char>, Seq<char>>>) -> Multiset<Seq<char>> {
    rows.map_values(|r: Map<Seq<char>, Seq<char>>| cell_or_empty(r, config.name_col)).to_multiset()
}

/// Where the best assignment misses nobody: no valid assignment places fewer
/// students at a project they did not rank, so where some valid assignment
/// keeps every student at a project they ranked, the best one does too.
pub proof fn law_choices_kept(students: Seq<StudentView>, min: int, max: int, a: Seq<int>, b: Seq<int>)
    requires
        is_best(students, min, max, a),
        valid_assignment(students, ranked_projects(students), min, max, b),
    ensures
        misses(students, ranked_projects(students), a) <= misses(students, ranked_projects(students), b),
        misses(students, ranked_projects(students), b) == 0 ==> forall|s: int|
            0 <= s < students.len() ==> ranked_by(students[s], ranked_projects(students), #[trigger] a[s]),
{
    lemma_no_misses(students, ranked_projects(students), a);
}

proof fn lemma_no_misses(students: Seq<StudentView>, projects: Seq<Seq<char>>, a: Seq<int>)
    ensures
        misses(students, projects, a) == 0 ==> forall|s: int| 0 <= s < a.len() ==> ranked_by(students[s], projects, #[trigger] a[s]),
    decreases a.len(),
{
    if a.len() > 0 {
        lemma_no_misses(students, projects, a.drop_last());
        if misses(students, projects, a) == 0 {
            assert forall|s: int| 0 <= s < a.len() implies ranked_by(students[s], projects, #[trigger] a[s]) by {
                if s < a.len() - 1 {
                    assert(a.drop_last()[s] == a[s]);
                }
            }
        }
    }
}

/// Whatever `solve` answers is the teams of a valid assignment of the
/// records' students, and such teams put every record's student in
/// exactly one team (the members' names are the records' names), give every
/// team between the minimum and the maximum size and a project that some
/// record ranked, and put every pitcher in the team of the project they
/// pitched.
pub proof fn law_solve(config: ConfigView, rows: Seq<Map<Seq<char>, Seq<char>>>)
    ensures
        solve_outcome(config, rows) is Some ==> feasible(
            students_of_rows(config, rows),
            config.min_team_size as int,
            config.max_team_size as int,
        ),
        solve_outcome(config, rows) matches Some(ts) ==> answer_ok(
            students_of_rows(config, rows),
            config.min_team_size as int,
            config.max_team_size as int,
            ts,
        ) && member_names(ts) == record_names(config, rows),
{
    let students = students_of_rows(config, rows);
    let min = config.min_team_size as int;
    let max = config.max_team_size as int;
    assert forall|i: int| 0 <= i < students.len() && (#[trigger] students[i]).is_pitcher implies students[i].choices.len() > 0 by {
        assert(students[i] == student_of_row(config, rows[i]));
    }
    if best_assignment(students, min, max) is Some {
        let a = best_assignment(students, min, max)->Some_0;
        assert(is_best(students, min, max, a));
        assert(valid_assignment(students, ranked_projects(students), min, max, a));
        law_answer(students, min, max, a);
        let f = |s: StudentView| s.name;
        let g = |r: Map<Seq<char>, Seq<char>>| cell_or_empty(r, config.name_col);
        assert(students.map_values(f) =~= rows.map_values(g));
    }
}

/// The cell of column `c` where the record has it and it is not blank.
pub open spec fn filled_cell(row: Map<Seq<char>, Seq<char>>, c: Seq<char>) -> Option<Seq<char>> {
    if row.contains_key(c) && row[c].len() > 0 {
        Some(row[c])
    } else {
        None
    }
}

/// `filled_cell` of `row`, as a function of the column.
pub open spec fn filled(row: Map<Seq<char>, Seq<char>>) -> spec_fn(Seq<char>) -> Option<Seq<char>> {
    |c: Seq<char>| filled_cell(row, c)
}

/// Column `k` of `cols` holds the first filled cell of the record.
pub open spec fn first_filled(row: Map<Seq<char>, Seq<char>>, cols: Seq<Seq<char>>, k: int) -> bool {
    &&& 0 <= k < cols.len()
    &&& filled_cell(row, cols[k]) is Some
    &&& forall|j: int| 0 <= j < k ==> #[trigger] filled_cell(row, cols[j]) is None
}

proof fn lemma_present_values(row: Map<Seq<char>, Seq<char>>, cols: Seq<Seq<char>>)
    ensures
        present_values(row, cols) == cols.filter_map(filled(row)),
    decreases cols.len(),
{
    if cols.len() > 0 {
        lemma_present_values(row, cols.drop_last());
        assert(present_values(row, cols) =~= cols.filter_map(filled(row)));
    }
}

proof fn lemma_none_filled(row: Map<Seq<char>, Seq<char>>, cols: Seq<Seq<char>>)
    requires
        forall|j: int| 0 <= j < cols.len() ==> #[trigger] filled_cell(row, cols[j]) is None,
    ensures
        cols.filter_map(filled(row)).len() == 0,
    decreases cols.len(),
{
    if cols.len() > 0 {
        assert(filled_cell(row, cols[cols.len() - 1]) is None);
        lemma_none_filled(row, cols.drop_last());
    }
}

proof fn lemma_first_filled(row: Map<Seq<char>, Seq<char>>, cols: Seq<Seq<char>>, k: int)
    requires
        first_filled(row, cols, k),
    ensures
        cols.filter_map(filled(row)).len() > 0,
        cols.filter_map(filled(row))[0] == row[cols[k]],
    decreases cols.len(),
{
    let rest = cols.drop_last();
    if k < cols.len() - 1 {
        assert forall|j: int| 0 <= j < k implies #[trigger] filled_cell(row, rest[j]) is None by {
            assert(rest[j] == cols[j]);
            assert(filled_cell(row, cols[j]) is None);
        }
        lemma_first_filled(row, rest, k);
    } else {
        assert forall|j: int| 0 <= j < rest.len() implies #[trigger] filled_cell(row, rest[j]) is None by {
            assert(rest[j] == cols[j]);
            assert(filled_cell(row, cols[j]) is None);
        }
        lemma_none_filled(row, rest);
    }
}

/// The student read from a record: the name and NetID cells (empty where
/// missing), the filled preference cells and the filled teammate cells,
/// each in column order, and a pitcher exactly where the pitched cell is
/// filled and equal to the first filled preference cell.
pub proof fn law_student_of_row(config: ConfigView, row: Map<Seq<char>, Seq<char>>)
    ensures
        student_of_row(config, row).name == (if row.contains_key(config.name_col) {
            row[config.name_col]
        } else {
            Seq::empty()
        }),
        student_of_row(config, row).netid == (if row.contains_key(config.netid_col) {
            row[config.netid_col]
        } else {
            Seq::empty()
        }),
        student_of_row(config, row).choices == config.preference_cols.filter_map(filled(row)),
        student_of_row(config, row).teammates == config.teammate_cols.filter_map(filled(row)),
        student_of_row(config, row).is_pitcher <==> (filled_cell(row, config.pitcher_col) is Some
            && config.preference_cols.filter_map(filled(row)).len() > 0
            && row[config.pitcher_col] == config.preference_cols.filter_map(filled(row))[0]),
{
    lemma_present_values(row, config.preference_cols);
    lemma_present_values(row, config.teammate_cols);
}

/// In every answer of `solve`, each record whose pitched cell is filled and
/// equal to its first filled preference cell is in the team of that
/// project.
pub proof fn law_solve_pitchers(config: ConfigView, rows: Seq<Map<Seq<char>, Seq<char>>>)
    ensures
        solve_outcome(config, rows) matches Some(ts) ==> forall|i: int, k: int|
            0 <= i < rows.len() && #[trigger] first_filled(rows[i], config.preference_cols, k)
                && filled_cell(rows[i], config.pitcher_col) == filled_cell(rows[i], config.preference_cols[k])
                ==> exists|x: int| 0 <= x < ts.len() && (#[trigger] ts[x]).0 == rows[i][config.preference_cols[k]]
                    && ts[x].1.contains(cell_or_empty(rows[i], config.name_col)),
{
    law_solve(config, rows);
    let students = students_of_rows(config, rows);
    if solve_outcome(config, rows) is Some {
        let ts = solve_outcome(config, rows)->Some_0;
        assert forall|i: int, k: int|
            0 <= i < rows.len() && #[trigger] first_filled(rows[i], config.preference_cols, k)
                && filled_cell(rows[i], config.pitcher_col) == filled_cell(rows[i], config.preference_cols[k])
            implies exists|x: int| 0 <= x < ts.len() && (#[trigger] ts[x]).0 == rows[i][config.preference_cols[k]]
                && ts[x].1.contains(cell_or_empty(rows[i], config.name_col)) by {
            assert(students[i] == student_of_row(config, rows[i]));
            law_student_of_row(config, rows[i]);
            lemma_first_filled(rows[i], config.preference_cols, k);
            assert(students[i].is_pitcher);
        }
    }
}

/// The project position a pitcher is linked to: that of their first
/// choice among `projects`; none for others.
pub open spec fn pitcher_link_of(students: Seq<StudentView>, projects: Seq<Seq<char>>, s: int) -> Option<int> {
    if students[s].is_pitcher {
        first_position(projects, students[s].choices[0])
    } else {
        None
    }
}

/// `r` holds, in student order, exactly one link for each of the first `i`
/// students that has one.
pub open spec fn links_exact(students: Seq<StudentView>, projects: Seq<Seq<char>>, i: int, r: Seq<(usize, usize)>) -> bool {
    &&& forall|k: int| 0 <= k < r.len() ==> 0 <= (#[trigger] r[k]).0 < i && pitcher_link_of(students, projects, r[k].0 as int)
        == Some(r[k].1 as int)
    &&& forall|s: int| 0 <= s < i && #[trigger] pitcher_link_of(students, projects, s) is Some ==> exists|k: int|
        0 <= k < r.len() && (#[trigger] r[k]).0 == s && r[k].1 == pitcher_link_of(students, projects, s)->Some_0
    &&& forall|k: int, l: int| 0 <= k < l < r.len() ==> (#[trigger] r[k]).0 < (#[trigger] r[l]).0
}

proof fn lemma_pitcher_links(students: Seq<StudentView>, projects: Seq<Seq<char>>, i: nat)
    requires
        i <= students.len(),
        students.len() <= usize::MAX,
        projects.len() <= usize::MAX,
    ensures
        links_exact(students, projects, i as int, pitcher_links_upto(students, projects, i)),
    decreases i,
{
    if i > 0 {
        lemma_pitcher_links(students, projects, (i - 1) as nat);
        let prev = pitcher_links_upto(students, projects, (i - 1) as nat);
        let cur = pitcher_links_upto(students, projects, i);
        let s = i - 1;
        if students[s].is_pitcher {
            lemma_first_position(projects, students[s].choices[0]);
        }
        assert forall|k: int| 0 <= k < cur.len() implies 0 <= (#[trigger] cur[k]).0 < i && pitcher_link_of(students, projects, cur[k].0 as int)
            == Some(cur[k].1 as int) by {
            if k < prev.len() {
                assert(cur[k] == prev[k]);
            }
        }
        assert forall|t: int| 0 <= t < i && #[trigger] pitcher_link_of(students, projects, t) is Some implies exists|k: int|
            0 <= k < cur.len() && (#[trigger] cur[k]).0 == t && cur[k].1 == pitcher_link_of(students, projects, t)->Some_0 by {
            if t < s {
                let k = choose|k: int| 0 <= k < prev.len() && (#[trigger] prev[k]).0 == t && prev[k].1 == pitcher_link_of(students, projects, t)->Some_0;
                assert(cur[k] == prev[k]);
            } else {
                assert(cur[prev.len() as int].0 == t);
            }
        }
        assert forall|k: int, l: int| 0 <= k < l < cur.len() implies (#[trigger] cur[k]).0 < (#[trigger] cur[l]).0 by {
            assert(cur[k] == prev[k]);
            if l < prev.len() {
                assert(cur[l] == prev[l]);
            }
        }
    }
}

/// The pitcher links are one link for each pitcher whose pitched project is
/// among `projects`, in student order: the pitcher with the position of that
/// project; nothing else.
pub proof fn law_pitcher_links(students: Seq<StudentView>, projects: Seq<Seq<char>>)
    requires
        students.len() <= usize::MAX,
        projects.len() <= usize::MAX,
    ensures
        links_exact(students, projects, students.len() as int, pitcher_links_upto(students, projects, students.len())),
{
    lemma_pitcher_links(students, projects, students.len());
}

/// The pair that the request of student `s` for NetID `m` gives: `s` with
/// the student owning `m` (the last one with it), where that student comes
/// after `s`.
pub open spec fn request_of(students: Seq<StudentView>, s: int, m: Seq<char>) -> Option<(usize, usize)> {
    match last_position(netids(students), m) {
        Some(t) => if s < t {
            Some((s as usize, t as usize))
        } else {
            None
        },
        None => None,
    }
}

/// `request_of` for student `s`, as a function of the NetID.
pub open spec fn requests_by(students: Seq<StudentView>, s: int) -> spec_fn(Seq<char>) -> Option<(usize, usize)> {
    |m: Seq<char>| request_of(students, s, m)
}

/// For each of the first `i` students, the pairs their requests give, in
/// the order of the requests.
pub open spec fn all_requests(students: Seq<StudentView>, i: nat) -> Seq<Seq<(usize, usize)>> {
    Seq::new(i, |s: int| students[s].teammates.filter_map(requests_by(students, s)))
}

proof fn lemma_request_pairs(students: Seq<StudentView>, s: int, mates: Seq<Seq<char>>)
    ensures
        request_pairs(students, s, mates) == mates.filter_map(requests_by(students, s)),
        forall|j: int| 0 <= j < mates.len() && (#[trigger] request_of(students, s, mates[j])) is Some ==> exists|k: int|
            0 <= k < request_pairs(students, s, mates).len() && request_pairs(students, s, mates)[k] == request_of(
                students,
                s,
                mates[j],
            )->Some_0,
    decreases mates.len(),
{
    if mates.len() > 0 {
        let rest = mates.drop_last();
        lemma_request_pairs(students, s, rest);
        let prev = request_pairs(students, s, rest);
        let cur = request_pairs(students, s, mates);
        assert(cur =~= mates.filter_map(requests_by(students, s)));
        assert forall|j: int| 0 <= j < mates.len() && (#[trigger] request_of(students, s, mates[j])) is Some implies exists|k: int|
            0 <= k < cur.len() && cur[k] == request_of(students, s, mates[j])->Some_0 by {
            if j < rest.len() {
                assert(rest[j] == mates[j]);
                assert(request_of(students, s, rest[j]) is Some);
                let k = choose|k: int| 0 <= k < prev.len() && prev[k] == request_of(students, s, rest[j])->Some_0;
                assert(cur[k] == prev[k]);
            } else {
                assert(cur[prev.len() as int] == request_of(students, s, mates[j])->Some_0);
            }
        }
    }
}

proof fn lemma_teammate_pairs(students: Seq<StudentView>, i: nat)
    requires
        i <= students.len(),
    ensures
        teammate_pairs_upto(students, i) == all_requests(students, i).flatten(),
        forall|s: int, j: int|
            0 <= s < i && 0 <= j < students[s].teammates.len() && (#[trigger] request_of(students, s, students[s].teammates[j])) is Some
                ==> exists|k: int|
                0 <= k < teammate_pairs_upto(students, i).len() && teammate_pairs_upto(students, i)[k] == request_of(
                    students,
                    s,
                    students[s].teammates[j],
                )->Some_0,
    decreases i,
{
    if i > 0 {
        lemma_teammate_pairs(students, (i - 1) as nat);
        let prev = teammate_pairs_upto(students, (i - 1) as nat);
        let cur = teammate_pairs_upto(students, i);
        let last = request_pairs(students, i - 1, students[i - 1].teammates);
        lemma_request_pairs(students, i - 1, students[i - 1].teammates);
        assert(all_requests(students, i) =~= all_requests(students, (i - 1) as nat).push(last));
        all_requests(students, (i - 1) as nat).lemma_flatten_push(last);
        assert forall|s: int, j: int|
            0 <= s < i && 0 <= j < students[s].teammates.len() && (#[trigger] request_of(students, s, students[s].teammates[j])) is Some
            implies exists|k: int| 0 <= k < cur.len() && cur[k] == request_of(students, s, students[s].teammates[j])->Some_0 by {
            if s < i - 1 {
                let k = choose|k: int| 0 <= k < prev.len() && prev[k] == request_of(students, s, students[s].teammates[j])->Some_0;
                assert(cur[k] == prev[k]);
            } else {
                let k = choose|k: int| 0 <= k < last.len() && last[k] == request_of(students, s, students[s].teammates[j])->Some_0;
                assert(cur[prev.len() + k] == last[k]);
            }
        }
    }
}

/// The teammate pairs are, for each student in order and each of their
/// requests in order, exactly one pair (student, requested student) where
/// the requested NetID belongs to a later student (the last one with it),
/// and nothing else; in particular every such request has its pair.
pub proof fn law_teammate_pairs(students: Seq<StudentView>)
    ensures
        teammate_pairs_upto(students, students.len()) == all_requests(students, students.len()).flatten(),
        forall|s: int, j: int|
            0 <= s < students.len() && 0 <= j < students[s].teammates.len() && #[trigger] last_position(
                netids(students),
                students[s].teammates[j],
            ) is Some && s < last_position(netids(students), students[s].teammates[j])->Some_0 ==> exists|k: int|
                0 <= k < teammate_pairs_upto(students, students.len()).len() && teammate_pairs_upto(students, students.len())[k]
                    == (s as usize, last_position(netids(students), students[s].teammates[j])->Some_0 as usize),
{
    lemma_teammate_pairs(students, students.len());
    assert forall|s: int, j: int|
        0 <= s < students.len() && 0 <= j < students[s].teammates.len() && #[trigger] last_position(
            netids(students),
            students[s].teammates[j],
        ) is Some && s < last_position(netids(students), students[s].teammates[j])->Some_0 implies exists|k: int|
            0 <= k < teammate_pairs_upto(students, students.len()).len() && teammate_pairs_upto(students, students.len())[k]
                == (s as usize, last_position(netids(students), students[s].teammates[j])->Some_0 as usize) by {
        assert(request_of(students, s, students[s].teammates[j]) is Some);
    }
}

/// The positions below `u`, in order.
pub open spec fn indices(u: nat) -> Seq<int> {
    Seq::new(u, |s: int| s)
}

/// The name of student `s` where the solution chose them for project `p`.
pub open spec fn picked_by(students: Seq<StudentView>, chosen: Seq<Seq<bool>>, p: int) -> spec_fn(int) -> Option<Seq<char>> {
    |s: int| if chosen[s][p] { Some(students[s].name) } else { None }
}

/// The names of all students chosen for project `p`, in student order.
pub open spec fn chosen_names(students: Seq<StudentView>, chosen: Seq<Seq<bool>>, p: int) -> Seq<Seq<char>> {
    indices(students.len()).filter_map(picked_by(students, chosen, p))
}

/// The team of project `q` where it is active.
pub open spec fn active_team(
    students: Seq<StudentView>,
    projects: Seq<Seq<char>>,
    active: Seq<bool>,
    chosen: Seq<Seq<bool>>,
) -> spec_fn(int) -> Option<TeamView> {
    |q: int| if active[q] { Some((projects[q], chosen_names(students, chosen, q))) } else { None }
}

proof fn lemma_chosen_members(students: Seq<StudentView>, chosen: Seq<Seq<bool>>, p: int, u: nat)
    ensures
        chosen_members(students, chosen, p, u) == indices(u).filter_map(picked_by(students, chosen, p)),
        forall|s: int| 0 <= s < u && #[trigger] chosen[s][p] ==> chosen_members(students, chosen, p, u).contains(students[s].name),
    decreases u,
{
    if u > 0 {
        lemma_chosen_members(students, chosen, p, (u - 1) as nat);
        assert(indices(u).drop_last() =~= indices((u - 1) as nat));
        assert(chosen_members(students, chosen, p, u) =~= indices(u).filter_map(picked_by(students, chosen, p)));
        let prev = chosen_members(students, chosen, p, (u - 1) as nat);
        let cur = chosen_members(students, chosen, p, u);
        assert forall|s: int| 0 <= s < u && #[trigger] chosen[s][p] implies cur.contains(students[s].name) by {
            if s < u - 1 {
                let k = choose|k: int| 0 <= k < prev.len() && prev[k] == students[s].name;
                assert(cur[k] == prev[k]);
            } else {
                assert(cur[prev.len() as int] == students[s].name);
            }
        }
    }
}

proof fn lemma_solution_teams(
    students: Seq<StudentView>,
    projects: Seq<Seq<char>>,
    active: Seq<bool>,
    chosen: Seq<Seq<bool>>,
    p: nat,
)
    ensures
        solution_teams(students, projects, active, chosen, p) == indices(p).filter_map(active_team(students, projects, active, chosen)),
        forall|q: int| 0 <= q < p && #[trigger] active[q] ==> exists|x: int|
            0 <= x < solution_teams(students, projects, active, chosen, p).len()
                && solution_teams(students, projects, active, chosen, p)[x] == (projects[q], chosen_names(students, chosen, q)),
    decreases p,
{
    if p > 0 {
        lemma_solution_teams(students, projects, active, chosen, (p - 1) as nat);
        lemma_chosen_members(students, chosen, p - 1, students.len());
        assert(indices(p).drop_last() =~= indices((p - 1) as nat));
        let prev = solution_teams(students, projects, active, chosen, (p - 1) as nat);
        let cur = solution_teams(students, projects, active, chosen, p);
        assert(cur =~= indices(p).filter_map(active_team(students, projects, active, chosen)));
        assert forall|q: int| 0 <= q < p && #[trigger] active[q] implies exists|x: int|
            0 <= x < cur.len() && cur[x] == (projects[q], chosen_names(students, chosen, q)) by {
            if q < p - 1 {
                let x = choose|x: int| 0 <= x < prev.len() && prev[x] == (projects[q], chosen_names(students, chosen, q));
                assert(cur[x] == prev[x]);
            } else {
                assert(cur[prev.len() as int] == (projects[q], chosen_names(students, chosen, q)));
            }
        }
    }
}

/// The teams read off a solution are, for each active project in order,
/// the project with the names of all students chosen for it in student
/// order, and nothing else; in particular every student chosen for an
/// active project is in its team.
pub proof fn law_solution_teams(
    students: Seq<StudentView>,
    projects: Seq<Seq<char>>,
    active: Seq<bool>,
    chosen: Seq<Seq<bool>>,
)
    ensures
        solution_teams(students, projects, active, chosen, projects.len()) == indices(projects.len()).filter_map(
            active_team(students, projects, active, chosen),
        ),
        forall|q: int, s: int|
            0 <= q < projects.len() && active[q] && 0 <= s < students.len() && #[trigger] chosen[s][q] ==> exists|x: int|
                0 <= x < solution_teams(students, projects, active, chosen, projects.len()).len()
                    && solution_teams(students, projects, active, chosen, projects.len())[x].0 == projects[q]
                    && solution_teams(students, projects, active, chosen, projects.len())[x].1.contains(students[s].name),
{
    lemma_solution_teams(students, projects, active, chosen, projects.len());
    let ts = solution_teams(students, projects, active, chosen, projects.len());
    assert forall|q: int, s: int|
        0 <= q < projects.len() && active[q] && 0 <= s < students.len() && #[trigger] chosen[s][q] implies exists|x: int|
            0 <= x < ts.len() && ts[x].0 == projects[q] && ts[x].1.contains(students[s].name) by {
        lemma_chosen_members(students, chosen, q, students.len());
        let x = choose|x: int| 0 <= x < ts.len() && ts[x] == (projects[q], chosen_names(students, chosen, q));
        assert(ts[x].1 == chosen_members(students, chosen, q, students.len()));
    }
}

/// In every answer of `solve`, each team's project is a filled preference
/// cell of some record.
pub proof fn law_solve_projects(config: ConfigView, rows: Seq<Map<Seq<char>, Seq<char>>>)
    ensures
        solve_outcome(config, rows) matches Some(ts) ==> forall|x: int| 0 <= x < ts.len() ==> exists|i: int, k: int|
            0 <= i < rows.len() && 0 <= k < config.preference_cols.len() && #[trigger] filled_cell(
                rows[i],
                config.preference_cols[k],
            ) == Some((#[trigger] ts[x]).0),
{
    law_solve(config, rows);
    let students = students_of_rows(config, rows);
    if solve_outcome(config, rows) is Some {
        let ts = solve_outcome(config, rows)->Some_0;
        assert forall|x: int| 0 <= x < ts.len() implies exists|i: int, k: int|
            0 <= i < rows.len() && 0 <= k < config.preference_cols.len() && #[trigger] filled_cell(
                rows[i],
                config.preference_cols[k],
            ) == Some((#[trigger] ts[x]).0) by {
            let i = choose|i: int| 0 <= i < students.len() && (#[trigger] students[i].choices).contains(ts[x].0);
            assert(students[i] == student_of_row(config, rows[i]));
            law_student_of_row(config, rows[i]);
            config.preference_cols.lemma_filter_map_contains(filled(rows[i]), ts[x].0);
            let c = choose|c: Seq<char>| #[trigger] config.preference_cols.contains(c) && filled(rows[i])(c) == Some(ts[x].0);
            let k = choose|k: int| 0 <= k < config.preference_cols.len() && config.preference_cols[k] == c;
            assert(filled_cell(rows[i], config.preference_cols[k]) == Some(ts[x].0));
        }
    }
}

/// The students `solve` places are the records read one by one, in record
/// order (see `law_student_of_row` for what each reading holds), so every
/// property of the answer stated over them is one over the records.
pub proof fn law_students_of_rows(config: ConfigView, rows: Seq<Map<Seq<char>, Seq<char>>>)
    ensures
        students_of_rows(config, rows).len() == rows.len(),
        forall|i: int| 0 <= i < rows.len() ==> #[trigger] students_of_rows(config, rows)[i] == student_of_row(config, rows[i]),
{
}

} // verus!
