use vstd::prelude::*;

use crate::assignment::{assign_teams, assignment_outcome, feasible};
use crate::laws::{
    answer_ok, filled, filled_cell, first_filled, law_solve, law_solve_pitchers, law_solve_projects, law_student_of_row, member_names,
    record_names,
};
use crate::teams::projects_distinct;
use crate::row::Row;
use crate::teams::{TeamView, Teams};

verus! {

/// Which columns of the table hold what, and the bounds on a team's size.
pub struct SolverConfig {
    pub name_col: String,
    pub netid_col: String,
    pub pitcher_col: String,
    pub preference_cols: Vec<String>,
    pub teammate_cols: Vec<String>,
    pub min_team_size: u32,
    pub max_team_size: u32,
}

/// A `SolverConfig` as plain values.
pub struct ConfigView {
    pub name_col: Seq<char>,
    pub netid_col: Seq<char>,
    pub pitcher_col: Seq<char>,
    pub preference_cols: Seq<Seq<char>>,
    pub teammate_cols: Seq<Seq<char>>,
    pub min_team_size: u32,
    pub max_team_size: u32,
}

/// The texts of a vector of strings.
pub open spec fn strs(v: Seq<String>) -> Seq<Seq<char>> {
    v.map_values(|s: String| s@)
}

impl View for SolverConfig {
    type V = ConfigView;

    open spec fn view(&self) -> ConfigView {
        ConfigView {
            name_col: self.name_col@,
            netid_col: self.netid_col@,
            pitcher_col: self.pitcher_col@,
            preference_cols: strs(self.preference_cols@),
            teammate_cols: strs(self.teammate_cols@),
            min_team_size: self.min_team_size,
            max_team_size: self.max_team_size,
        }
    }
}

/// One student, as read from a record of the table.
pub struct Student {
    pub name: String,
    pub netid: String,
    /// The projects the student ranked, best first, blanks left out.
    pub choices: Vec<String>,
    /// The NetIDs of requested teammates, blanks left out.
    pub teammates: Vec<String>,
    /// The student pitched the project that is their first choice.
    pub is_pitcher: bool,
}

/// A `Student` as plain values.
pub struct StudentView {
    pub name: Seq<char>,
    pub netid: Seq<char>,
    pub choices: Seq<Seq<char>>,
    pub teammates: Seq<Seq<char>>,
    pub is_pitcher: bool,
}

impl View for Student {
    type V = StudentView;

    open spec fn view(&self) -> StudentView {
        StudentView {
            name: self.name@,
            netid: self.netid@,
            choices: strs(self.choices@),
            teammates: strs(self.teammates@),
            is_pitcher: self.is_pitcher,
        }
    }
}

/// The students of a vector as plain values.
pub open spec fn students_view(v: Seq<Student>) -> Seq<StudentView> {
    v.map_values(|s: Student| s@)
}

/// The cell of column `col`, or the empty text where the record lacks it.
pub open spec fn cell_or_empty(row: Map<Seq<char>, Seq<char>>, col: Seq<char>) -> Seq<char> {
    if row.contains_key(col) {
        row[col]
    } else {
        Seq::empty()
    }
}

/// The non-empty cells of the columns `cols`, in the order of `cols`.
pub open spec fn present_values(row: Map<Seq<char>, Seq<char>>, cols: Seq<Seq<char>>) -> Seq<
    Seq<char>,
>
    decreases cols.len(),
{
    if cols.len() == 0 {
        Seq::empty()
    } else {
        let prev = present_values(row, cols.drop_last());
        let c = cols.last();
        if row.contains_key(c) && row[c].len() > 0 {
            prev.push(row[c])
        } else {
            prev
        }
    }
}

/// The student that a record describes under `config`.
pub open spec fn student_of_row(config: ConfigView, row: Map<Seq<char>, Seq<char>>) -> StudentView {
    let choices = present_values(row, config.preference_cols);
    let pitched = cell_or_empty(row, config.pitcher_col);
    StudentView {
        name: cell_or_empty(row, config.name_col),
        netid: cell_or_empty(row, config.netid_col),
        choices: choices,
        teammates: present_values(row, config.teammate_cols),
        is_pitcher: pitched.len() > 0 && choices.len() > 0 && pitched == choices[0],
    }
}

/// Appends to `acc` each text of `xs` that it does not hold yet.
pub open spec fn add_new(acc: Seq<Seq<char>>, xs: Seq<Seq<char>>) -> Seq<Seq<char>>
    decreases xs.len(),
{
    if xs.len() == 0 {
        acc
    } else {
        let a = add_new(acc, xs.drop_last());
        if a.contains(xs.last()) {
            a
        } else {
            a.push(xs.last())
        }
    }
}

/// Every project that some student ranked, once each, in order of first mention.
pub open spec fn ranked_projects(students: Seq<StudentView>) -> Seq<Seq<char>>
    decreases students.len(),
{
    if students.len() == 0 {
        Seq::empty()
    } else {
        add_new(ranked_projects(students.drop_last()), students.last().choices)
    }
}

pub(crate) proof fn lemma_add_new_distinct(acc: Seq<Seq<char>>, xs: Seq<Seq<char>>)
    requires
        acc.no_duplicates(),
    ensures
        add_new(acc, xs).no_duplicates(),
    decreases xs.len(),
{
    if xs.len() > 0 {
        lemma_add_new_distinct(acc, xs.drop_last());
    }
}

/// No project is listed twice.
pub proof fn lemma_ranked_distinct(students: Seq<StudentView>)
    ensures
        ranked_projects(students).no_duplicates(),
    decreases students.len(),
{
    if students.len() > 0 {
        lemma_ranked_distinct(students.drop_last());
        lemma_add_new_distinct(ranked_projects(students.drop_last()), students.last().choices);
    }
}


pub(crate) proof fn lemma_add_new_has(acc: Seq<Seq<char>>, xs: Seq<Seq<char>>)
    ensures
        forall|x: Seq<char>| acc.contains(x) || xs.contains(x) ==> #[trigger] add_new(acc, xs).contains(x),
        forall|x: Seq<char>| #[trigger] add_new(acc, xs).contains(x) ==> acc.contains(x) || xs.contains(x),
    decreases xs.len(),
{
    if xs.len() > 0 {
        let d = xs.drop_last();
        lemma_add_new_has(acc, d);
        let a = add_new(acc, d);
        assert forall|x: Seq<char>| acc.contains(x) || xs.contains(x) implies #[trigger] add_new(acc, xs).contains(x) by {
            if xs.contains(x) && x != xs.last() {
                let i = choose|i: int| 0 <= i < xs.len() && xs[i] == x;
                assert(d[i] == x);
            }
            if a.contains(x) && !a.contains(xs.last()) {
                let i = choose|i: int| 0 <= i < a.len() && a[i] == x;
                assert(a.push(xs.last())[i] == x);
            }
            if x == xs.last() && !a.contains(xs.last()) {
                assert(a.push(xs.last())[a.len() as int] == x);
            }
        }
        assert forall|x: Seq<char>| #[trigger] add_new(acc, xs).contains(x) implies acc.contains(x) || xs.contains(x) by {
            if a.contains(x) {
                if d.contains(x) {
                    let i = choose|i: int| 0 <= i < d.len() && d[i] == x;
                    assert(xs[i] == x);
                }
            } else if !a.contains(xs.last()) {
                let r = a.push(xs.last());
                assert(add_new(acc, xs) == r);
                let i = choose|i: int| 0 <= i < r.len() && r[i] == x;
                if i < a.len() {
                    assert(a[i] == x);
                }
                assert(xs[xs.len() - 1] == x);
            } else {
                assert(add_new(acc, xs) == a);
            }
        }
    }
}

/// A text is a listed project exactly when some student ranked it.
pub proof fn lemma_ranked_contains(students: Seq<StudentView>)
    ensures
        forall|i: int, j: int| 0 <= i < students.len() && 0 <= j < students[i].choices.len()
            ==> #[trigger] ranked_projects(students).contains(students[i].choices[j]),
        forall|x: Seq<char>| #[trigger] ranked_projects(students).contains(x) ==> exists|i: int|
            0 <= i < students.len() && (#[trigger] students[i].choices).contains(x),
    decreases students.len(),
{
    if students.len() > 0 {
        let d = students.drop_last();
        lemma_ranked_contains(d);
        lemma_add_new_has(ranked_projects(d), students.last().choices);
        assert forall|i: int, j: int| 0 <= i < students.len() && 0 <= j < students[i].choices.len()
            implies #[trigger] ranked_projects(students).contains(students[i].choices[j]) by {
            if i < d.len() {
                assert(d[i] == students[i]);
                assert(ranked_projects(d).contains(d[i].choices[j]));
            } else {
                assert(students.last().choices.contains(students[i].choices[j]));
            }
        }
        assert forall|x: Seq<char>| #[trigger] ranked_projects(students).contains(x) implies exists|i: int|
            0 <= i < students.len() && (#[trigger] students[i].choices).contains(x) by {
            if ranked_projects(d).contains(x) {
                let i = choose|i: int| 0 <= i < d.len() && (#[trigger] d[i].choices).contains(x);
                assert(students[i] == d[i]);
            } else {
                assert(students[students.len() - 1].choices.contains(x));
            }
        }
    }
}

fn cell_or_empty_exec(row: &Row, col: &String) -> (r: String)
    ensures
        r@ == cell_or_empty(row@, col@),
{
    match row.get(col) {
        Some(v) => v.clone(),
        None => String::new(),
    }
}

fn present_values_exec(row: &Row, cols: &Vec<String>) -> (r: Vec<String>)
    ensures
        strs(r@) == present_values(row@, strs(cols@)),
{
    let mut r: Vec<String> = Vec::new();
    let mut i: usize = 0;
    while i < cols.len()
        invariant
            i <= cols@.len(),
            strs(r@) == present_values(row@, strs(cols@).take(i as int)),
        decreases cols@.len() - i,
    {
        proof {
            assert(strs(cols@).take(i + 1).drop_last() =~= strs(cols@).take(i as int));
        }
        match row.get(&cols[i]) {
            Some(v) => {
                if !v.as_str().is_empty() {
                    r.push(v.clone());
                }
            },
            None => {},
        }
        proof {
            assert(strs(r@) =~= present_values(row@, strs(cols@).take(i + 1)));
        }
        i = i + 1;
    }
    proof {
        assert(strs(cols@).take(cols@.len() as int) =~= strs(cols@));
    }
    r
}

/// Reads the student that `row` describes: name and NetID (empty where
/// missing), the non-empty choice and teammate cells in column order, and
/// whether the pitched project is non-empty and equal to the first choice.
pub fn build_student(config: &SolverConfig, row: &Row) -> (s: Student)
    ensures
        s@ == student_of_row(config@, row@),
        s@.choices == config@.preference_cols.filter_map(filled(row@)),
        s@.teammates == config@.teammate_cols.filter_map(filled(row@)),
{
    proof {
        law_student_of_row(config@, row@);
    }
    let pitched = cell_or_empty_exec(row, &config.pitcher_col);
    let choices = present_values_exec(row, &config.preference_cols);
    let is_pitcher = !pitched.as_str().is_empty() && choices.len() > 0 && pitched == choices[0];
    let name = cell_or_empty_exec(row, &config.name_col);
    let netid = cell_or_empty_exec(row, &config.netid_col);
    let teammates = present_values_exec(row, &config.teammate_cols);
    Student { name, netid, choices, teammates, is_pitcher }
}

/// The students of all records, in record order.
pub fn build_students(config: &SolverConfig, rows: &[Row]) -> (r: Vec<Student>)
    ensures
        students_view(r@) == rows@.map_values(|row: Row| student_of_row(config@, row@)),
{
    let mut r: Vec<Student> = Vec::new();
    let mut i: usize = 0;
    while i < rows.len()
        invariant
            i <= rows@.len(),
            students_view(r@) == rows@.take(i as int).map_values(
                |row: Row| student_of_row(config@, row@),
            ),
        decreases rows@.len() - i,
    {
        let s = build_student(config, &rows[i]);
        let ghost prev = r@;
        r.push(s);
        proof {
            let f = |row: Row| student_of_row(config@, row@);
            assert(students_view(prev).len() == rows@.take(i as int).map_values(f).len());
            assert(prev.len() == i);
            assert forall|k: int| 0 <= k < i implies students_view(r@)[k] == rows@.take(i + 1).map_values(f)[k] by {
                assert(r@[k] == prev[k]);
                assert(students_view(prev)[k] == rows@.take(i as int).map_values(f)[k]);
            }
            assert(students_view(r@)[i as int] == rows@.take(i + 1).map_values(f)[i as int]);
            assert(students_view(r@) =~= rows@.take(i + 1).map_values(
                |row: Row| student_of_row(config@, row@),
            ));
        }
        i = i + 1;
    }
    proof {
        assert(rows@.take(rows@.len() as int) =~= rows@);
    }
    r
}

fn contains_text(v: &Vec<String>, x: &String) -> (r: bool)
    ensures
        r == strs(v@).contains(x@),
{
    let mut i: usize = 0;
    while i < v.len()
        invariant
            i <= v@.len(),
            forall|j: int| 0 <= j < i ==> strs(v@)[j] != x@,
        decreases v@.len() - i,
    {
        if v[i] == *x {
            proof {
                assert(strs(v@)[i as int] == x@);
            }
            return true;
        }
        i = i + 1;
    }
    false
}

/// Every project that some student ranked, each once, in order of first
/// mention.
pub fn collect_projects(students: &Vec<Student>) -> (r: Vec<String>)
    ensures
        strs(r@) == ranked_projects(students_view(students@)),
{
    let mut r: Vec<String> = Vec::new();
    let mut i: usize = 0;
    while i < students.len()
        invariant
            i <= students@.len(),
            strs(r@) == ranked_projects(students_view(students@).take(i as int)),
        decreases students@.len() - i,
    {
        let ghost before = strs(r@);
        let choices = &students[i].choices;
        let mut j: usize = 0;
        while j < choices.len()
            invariant
                j <= choices@.len(),
                strs(r@) == add_new(before, strs(choices@).take(j as int)),
            decreases choices@.len() - j,
        {
            proof {
                assert(strs(choices@).take(j + 1).drop_last() =~= strs(choices@).take(j as int));
            }
            if !contains_text(&r, &choices[j]) {
                r.push(choices[j].clone());
            }
            proof {
                assert(strs(r@) =~= add_new(before, strs(choices@).take(j + 1)));
            }
            j = j + 1;
        }
        proof {
            let sv = students_view(students@);
            assert(strs(choices@).take(choices@.len() as int) =~= strs(choices@));
            assert(sv.take(i + 1).drop_last() =~= sv.take(i as int));
            assert(sv.take(i + 1).last() == students@[i as int]@);
        }
        i = i + 1;
    }
    proof {
        assert(students_view(students@).take(students@.len() as int) =~= students_view(students@));
    }
    r
}

/// The records as plain maps.
pub open spec fn rows_view(rows: Seq<Row>) -> Seq<Map<Seq<char>, Seq<char>>> {
    rows.map_values(|r: Row| r@)
}

/// The students that the records describe, in record order.
pub open spec fn students_of_rows(config: ConfigView, rows: Seq<Map<Seq<char>, Seq<char>>>) -> Seq<StudentView> {
    rows.map_values(|r: Map<Seq<char>, Seq<char>>| student_of_row(config, r))
}

/// What `solve` answers for `config` and the records `rows` (see
/// `assign_teams`).
pub open spec fn solve_outcome(config: ConfigView, rows: Seq<Map<Seq<char>, Seq<char>>>) -> Option<Seq<TeamView>> {
    assignment_outcome(students_of_rows(config, rows), config.min_team_size as int, config.max_team_size as int)
}

/// Reads the students from the records and assigns them to teams on the
/// projects they ranked: every student in one team (the members' names are
/// the records' names), every team between the minimum and the maximum size
/// on a project that some record ranked, every pitcher in the team of the
/// project they pitched; `None` exactly where no such assignment exists.
/// Of all such assignments it takes the best (`is_best` in `assignment`):
/// as few students as possible at a project they did not rank (see
/// `law_choices_kept` in `laws`), then the earlier records at the projects
/// they prefer.
pub fn solve(config: &SolverConfig, raw_data: &[Row]) -> (r: Option<Teams>)
    ensures
        match r {
            Some(t) => {
                &&& solve_outcome(config@, rows_view(raw_data@)) == Some(t@)
                &&& projects_distinct(t@)
                &&& answer_ok(
                    students_of_rows(config@, rows_view(raw_data@)),
                    config@.min_team_size as int,
                    config@.max_team_size as int,
                    t@,
                )
                &&& member_names(t@) == record_names(config@, rows_view(raw_data@))
                &&& forall|i: int, k: int|
                    0 <= i < raw_data@.len() && #[trigger] first_filled(raw_data@[i]@, config@.preference_cols, k)
                        && filled_cell(raw_data@[i]@, config@.pitcher_col) == filled_cell(
                        raw_data@[i]@,
                        config@.preference_cols[k],
                    ) ==> exists|x: int|
                        0 <= x < t@.len() && (#[trigger] t@[x]).0 == raw_data@[i]@[config@.preference_cols[k]]
                            && t@[x].1.contains(cell_or_empty(raw_data@[i]@, config@.name_col))
                &&& forall|x: int| 0 <= x < t@.len() ==> exists|i: int, k: int|
                    0 <= i < raw_data@.len() && 0 <= k < config@.preference_cols.len() && #[trigger] filled_cell(
                        raw_data@[i]@,
                        config@.preference_cols[k],
                    ) == Some((#[trigger] t@[x]).0)
            },
            None => solve_outcome(config@, rows_view(raw_data@)) is None && !feasible(
                students_of_rows(config@, rows_view(raw_data@)),
                config@.min_team_size as int,
                config@.max_team_size as int,
            ),
        },
{
    let students = build_students(config, raw_data);
    proof {
        let sv = students_view(students@);
        let f = |r: Map<Seq<char>, Seq<char>>| student_of_row(config@, r);
        assert(sv =~= rows_view(raw_data@).map_values(f)) by {
            assert forall|i: int| 0 <= i < sv.len() implies sv[i] == rows_view(raw_data@).map_values(f)[i] by {
                assert(sv[i] == raw_data@.map_values(|row: Row| student_of_row(config@, row@))[i]);
            }
        }
    }
    let r = assign_teams(&students, config.min_team_size, config.max_team_size);
    proof {
        law_solve(config@, rows_view(raw_data@));
        law_solve_pitchers(config@, rows_view(raw_data@));
        if r is Some {
            let t = r->Some_0;
            let rv = rows_view(raw_data@);
            assert forall|i: int, k: int|
                0 <= i < raw_data@.len() && #[trigger] first_filled(raw_data@[i]@, config@.preference_cols, k)
                    && filled_cell(raw_data@[i]@, config@.pitcher_col) == filled_cell(
                    raw_data@[i]@,
                    config@.preference_cols[k],
                ) implies exists|x: int|
                    0 <= x < t@.len() && (#[trigger] t@[x]).0 == raw_data@[i]@[config@.preference_cols[k]]
                        && t@[x].1.contains(cell_or_empty(raw_data@[i]@, config@.name_col)) by {
                assert(rv[i] == raw_data@[i]@);
                assert(first_filled(rv[i], config@.preference_cols, k));
            }
            law_solve_projects(config@, rv);
            assert forall|x: int| 0 <= x < t@.len() implies exists|i: int, k: int|
                0 <= i < raw_data@.len() && 0 <= k < config@.preference_cols.len() && #[trigger] filled_cell(
                    raw_data@[i]@,
                    config@.preference_cols[k],
                ) == Some((#[trigger] t@[x]).0) by {
                let (i, k) = choose|i: int, k: int|
                    0 <= i < rv.len() && 0 <= k < config@.preference_cols.len() && #[trigger] filled_cell(
                        rv[i],
                        config@.preference_cols[k],
                    ) == Some(t@[x].0);
                assert(rv[i] == raw_data@[i]@);
            }
        }
    }
    r
}

} // verus!
