use vstd::prelude::*;

use crate::solver::{collect_projects, lemma_ranked_distinct, ranked_projects, strs, students_view, Student, StudentView};
use crate::laws::{
    active_team, all_requests, indices, law_pitcher_links, law_solution_teams, law_teammate_pairs, links_exact,
};
use crate::teams::{projects_distinct, team_view, TeamView, Teams};

verus! {

/// `a` comes before `b`: at the first position where they differ, `a` has
/// the smaller code point, or `a` is a proper prefix of `b`.
pub open spec fn text_lt(a: Seq<char>, b: Seq<char>) -> bool
    decreases a.len(),
{
    if b.len() == 0 {
        false
    } else if a.len() == 0 {
        true
    } else if a[0] == b[0] {
        text_lt(a.drop_first(), b.drop_first())
    } else {
        (a[0] as u32) < (b[0] as u32)
    }
}

/// Calls `<[String]>::sort`. Claimed, as std's documentation states: the
/// vector holds the same texts afterwards, in ascending order, where `Ord`
/// on strings orders them lexicographically, which orders characters by code
/// point.
#[verifier::external_body]
fn sort_texts(v: &mut Vec<String>)
    ensures
        strs(final(v)@).to_multiset() == strs(old(v)@).to_multiset(),
        forall|i: int, j: int|
            0 <= i < j < final(v)@.len() ==> !text_lt(strs(final(v)@)[j], strs(final(v)@)[i]),
{
    v.sort();
}

/// Every project that some student ranked, once each, sorted.
pub fn sorted_projects(students: &Vec<Student>) -> (r: Vec<String>)
    ensures
        strs(r@).to_multiset() == ranked_projects(students_view(students@)).to_multiset(),
        strs(r@).no_duplicates(),
        forall|i: int, j: int| 0 <= i < j < r@.len() ==> !text_lt(strs(r@)[j], strs(r@)[i]),
{
    let mut r = collect_projects(students);
    proof {
        lemma_ranked_distinct(students_view(students@));
        strs(r@).lemma_multiset_has_no_duplicates();
    }
    sort_texts(&mut r);
    proof {
        let m = strs(r@).to_multiset();
        assert forall|x: Seq<char>| m.contains(x) implies m.count(x) == 1 by {}
        strs(r@).lemma_multiset_has_no_duplicates_conv();
    }
    r
}

/// Whether `i` is the first position of `x` in `xs`.
pub open spec fn is_first_position(xs: Seq<Seq<char>>, x: Seq<char>, i: int) -> bool {
    0 <= i < xs.len() && xs[i] == x && forall|j: int| 0 <= j < i ==> xs[j] != x
}

/// The first position of `x` in `xs`, if it occurs.
pub open spec fn first_position(xs: Seq<Seq<char>>, x: Seq<char>) -> Option<int> {
    if xs.contains(x) {
        Some(choose|i: int| is_first_position(xs, x, i))
    } else {
        None
    }
}

/// Whether `i` is the last position of `x` in `xs`.
pub open spec fn is_last_position(xs: Seq<Seq<char>>, x: Seq<char>, i: int) -> bool {
    0 <= i < xs.len() && xs[i] == x && forall|j: int| i < j < xs.len() ==> xs[j] != x
}

/// The last position of `x` in `xs`, if it occurs.
pub open spec fn last_position(xs: Seq<Seq<char>>, x: Seq<char>) -> Option<int> {
    if xs.contains(x) {
        Some(choose|i: int| is_last_position(xs, x, i))
    } else {
        None
    }
}

/// The position of `x` in `xs`, the first one if it occurs more than once:
/// the rank of a project among a student's choices, or a project's place
/// among all projects.
pub fn first_index(xs: &Vec<String>, x: &String) -> (r: Option<usize>)
    ensures
        match r {
            Some(i) => i < xs@.len() && is_first_position(strs(xs@), x@, i as int) && first_position(strs(xs@), x@) == Some(i as int),
            None => first_position(strs(xs@), x@) is None,
        },
{
    let ghost v = strs(xs@);
    let mut i: usize = 0;
    while i < xs.len()
        invariant
            i <= xs@.len(),
            v == strs(xs@),
            forall|j: int| 0 <= j < i ==> v[j] != x@,
        decreases xs@.len() - i,
    {
        if xs[i] == *x {
            proof {
                assert(is_first_position(v, x@, i as int));
                assert(v.contains(x@));
                let c = choose|c: int| is_first_position(v, x@, c);
                assert(c == i) by {
                    if c < i {
                        assert(v[c] != x@);
                    } else if c > i {
                        assert(v[i as int] != x@);
                    }
                }
            }
            return Some(i);
        }
        i = i + 1;
    }
    proof {
        assert(!v.contains(x@)) by {
            if v.contains(x@) {
                let c = choose|c: int| 0 <= c < v.len() && v[c] == x@;
                assert(v[c] != x@);
            }
        }
    }
    None
}

/// The NetIDs of the students, in order.
pub open spec fn netids(students: Seq<StudentView>) -> Seq<Seq<char>> {
    students.map_values(|s: StudentView| s.netid)
}

/// The student with NetID `netid`, the last one if several share it.
pub fn netid_index(students: &Vec<Student>, netid: &String) -> (r: Option<usize>)
    ensures
        match r {
            Some(i) => last_position(netids(students_view(students@)), netid@) == Some(i as int),
            None => last_position(netids(students_view(students@)), netid@) is None,
        },
{
    let ghost v = netids(students_view(students@));
    let mut i: usize = students.len();
    while i > 0
        invariant
            i <= students@.len(),
            v == netids(students_view(students@)),
            v.len() == students@.len(),
            forall|j: int| i <= j < v.len() ==> v[j] != netid@,
        decreases i,
    {
        i = i - 1;
        proof {
            assert(v[i as int] == students@[i as int].netid@);
        }
        if students[i].netid == *netid {
            proof {
                assert(is_last_position(v, netid@, i as int));
                assert(v.contains(netid@));
                let c = choose|c: int| is_last_position(v, netid@, c);
                assert(c == i) by {
                    if c < i {
                        assert(v[i as int] != netid@);
                    } else if c > i {
                        assert(v[c] != netid@);
                    }
                }
            }
            return Some(i);
        }
    }
    proof {
        assert(!v.contains(netid@)) by {
            if v.contains(netid@) {
                let c = choose|c: int| 0 <= c < v.len() && v[c] == netid@;
                assert(v[c] != netid@);
            }
        }
    }
    None
}

/// The pairs (`s`, `t`) for the requests in `mates` of student `s`, in order:
/// one for each request whose NetID names student `t` (the last one with
/// it) where `s < t`.
pub open spec fn request_pairs(students: Seq<StudentView>, s: int, mates: Seq<Seq<char>>) -> Seq<(usize, usize)>
    decreases mates.len(),
{
    if mates.len() == 0 {
        Seq::empty()
    } else {
        let prev = request_pairs(students, s, mates.drop_last());
        match last_position(netids(students), mates.last()) {
            Some(t) => if s < t {
                prev.push((s as usize, t as usize))
            } else {
                prev
            },
            None => prev,
        }
    }
}

/// The teammate pairs of the first `i` students, in order.
pub open spec fn teammate_pairs_upto(students: Seq<StudentView>, i: nat) -> Seq<(usize, usize)>
    decreases i,
{
    if i == 0 {
        Seq::empty()
    } else {
        teammate_pairs_upto(students, (i - 1) as nat) + request_pairs(
            students,
            i - 1,
            students[i - 1].teammates,
        )
    }
}

/// The pairs of students that asked to work together and on which the model
/// puts a penalty for being apart: for each student in order and each of
/// their requests in order, the pair (student, requested student) where the
/// requested NetID belongs to a later student.
pub fn teammate_pairs(students: &Vec<Student>) -> (r: Vec<(usize, usize)>)
    ensures
        r@ == teammate_pairs_upto(students_view(students@), students@.len()),
        r@ == all_requests(students_view(students@), students@.len()).flatten(),
{
    proof {
        law_teammate_pairs(students_view(students@));
    }
    let ghost sv = students_view(students@);
    let mut r: Vec<(usize, usize)> = Vec::new();
    let mut s: usize = 0;
    while s < students.len()
        invariant
            s <= students@.len(),
            sv == students_view(students@),
            r@ == teammate_pairs_upto(sv, s as nat),
        decreases students@.len() - s,
    {
        let mates = &students[s].teammates;
        let ghost before = r@;
        proof {
            assert(sv[s as int] == students@[s as int]@);
        }
        let mut k: usize = 0;
        while k < mates.len()
            invariant
                k <= mates@.len(),
                s < students@.len(),
                sv == students_view(students@),
                mates == students@[s as int].teammates,
                r@ == before + request_pairs(sv, s as int, strs(mates@).take(k as int)),
            decreases mates@.len() - k,
        {
            proof {
                assert(strs(mates@).take(k + 1).drop_last() =~= strs(mates@).take(k as int));
                assert(strs(mates@).take(k + 1).last() == mates@[k as int]@);
            }
            let ghost prev = r@;
            match netid_index(students, &mates[k]) {
                Some(t) => {
                    if s < t {
                        r.push((s, t));
                    }
                },
                None => {},
            }
            proof {
                assert(r@ =~= before + request_pairs(sv, s as int, strs(mates@).take(k + 1)));
            }
            k = k + 1;
        }
        proof {
            assert(strs(mates@).take(mates@.len() as int) =~= strs(mates@));
            assert(sv[s as int].teammates == strs(mates@));
        }
        s = s + 1;
    }
    r
}

/// For the first `i` students, each pitcher with the position of the
/// project they pitched among `projects`, where it is there.
pub open spec fn pitcher_links_upto(students: Seq<StudentView>, projects: Seq<Seq<char>>, i: nat) -> Seq<(usize, usize)>
    decreases i,
{
    if i == 0 {
        Seq::empty()
    } else {
        let prev = pitcher_links_upto(students, projects, (i - 1) as nat);
        let s = students[i - 1];
        if s.is_pitcher {
            match first_position(projects, s.choices[0]) {
                Some(p) => prev.push(((i - 1) as usize, p as usize)),
                None => prev,
            }
        } else {
            prev
        }
    }
}

/// Each pitcher, in order, with the position among `projects` of the
/// project they pitched (their first choice): the model ties the pitcher's
/// place on that project to the project being active.
pub fn pitcher_links(students: &Vec<Student>, projects: &Vec<String>) -> (r: Vec<(usize, usize)>)
    requires
        forall|i: int| 0 <= i < students@.len() && (#[trigger] students@[i]).is_pitcher ==> students@[i].choices@.len() > 0,
    ensures
        r@ == pitcher_links_upto(students_view(students@), strs(projects@), students@.len()),
        links_exact(students_view(students@), strs(projects@), students@.len() as int, r@),
{
    let n = students.len();
    let np = projects.len();
    proof {
        assert(students_view(students@).len() == n && strs(projects@).len() == np);
        law_pitcher_links(students_view(students@), strs(projects@));
    }
    let ghost sv = students_view(students@);
    let mut r: Vec<(usize, usize)> = Vec::new();
    let mut s: usize = 0;
    while s < students.len()
        invariant
            s <= students@.len(),
            sv == students_view(students@),
            forall|i: int| 0 <= i < students@.len() && (#[trigger] students@[i]).is_pitcher ==> students@[i].choices@.len() > 0,
            r@ == pitcher_links_upto(sv, strs(projects@), s as nat),
        decreases students@.len() - s,
    {
        proof {
            assert(sv[s as int] == students@[s as int]@);
        }
        if students[s].is_pitcher {
            proof {
                assert(strs(students@[s as int].choices@)[0] == students@[s as int].choices@[0]@);
            }
            match first_index(projects, &students[s].choices[0]) {
                Some(p) => {
                    r.push((s, p));
                },
                None => {},
            }
        }
        s = s + 1;
    }
    r
}

/// The names of the first `s` students chosen for project `p`, in order.
pub open spec fn chosen_members(students: Seq<StudentView>, chosen: Seq<Seq<bool>>, p: int, s: nat) -> Seq<Seq<char>>
    decreases s,
{
    if s == 0 {
        Seq::empty()
    } else {
        let prev = chosen_members(students, chosen, p, (s - 1) as nat);
        if chosen[s - 1][p] {
            prev.push(students[s - 1].name)
        } else {
            prev
        }
    }
}

/// The teams of a solution for the first `p` projects: each active project,
/// in order, with the names of the students chosen for it.
pub open spec fn solution_teams(
    students: Seq<StudentView>,
    projects: Seq<Seq<char>>,
    active: Seq<bool>,
    chosen: Seq<Seq<bool>>,
    p: nat,
) -> Seq<TeamView>
    decreases p,
{
    if p == 0 {
        Seq::empty()
    } else {
        let prev = solution_teams(students, projects, active, chosen, (p - 1) as nat);
        if active[p - 1] {
            prev.push((projects[p - 1], chosen_members(students, chosen, p - 1, students.len())))
        } else {
            prev
        }
    }
}

proof fn lemma_solution_teams_keys(
    students: Seq<StudentView>,
    projects: Seq<Seq<char>>,
    active: Seq<bool>,
    chosen: Seq<Seq<bool>>,
    p: nat,
)
    requires
        p <= projects.len(),
    ensures
        forall|a: int| 0 <= a < solution_teams(students, projects, active, chosen, p).len() ==>
            projects.take(p as int).contains((#[trigger] solution_teams(students, projects, active, chosen, p)[a]).0),
        projects.no_duplicates() ==> projects_distinct(solution_teams(students, projects, active, chosen, p)),
    decreases p,
{
    if p > 0 {
        lemma_solution_teams_keys(students, projects, active, chosen, (p - 1) as nat);
        let prev = solution_teams(students, projects, active, chosen, (p - 1) as nat);
        let cur = solution_teams(students, projects, active, chosen, p);
        let tp = projects.take(p as int);
        let tq = projects.take(p - 1);
        assert forall|a: int| 0 <= a < cur.len() implies tp.contains((#[trigger] cur[a]).0) by {
            if a < prev.len() {
                assert(cur[a] == prev[a]);
                assert(tq.contains(prev[a].0));
                let b = choose|b: int| 0 <= b < tq.len() && tq[b] == prev[a].0;
                assert(tp[b] == tq[b]);
            } else {
                assert(tp[p - 1] == cur[a].0);
            }
        }
        if projects.no_duplicates() && p - 1 < active.len() && active[p - 1] {
            assert forall|i: int, j: int| 0 <= i < cur.len() && 0 <= j < cur.len() && i != j implies (#[trigger] cur[i]).0 != (#[trigger] cur[j]).0 by {
                if i < prev.len() && j < prev.len() {
                    assert(cur[i] == prev[i]);
                    assert(cur[j] == prev[j]);
                } else if i < prev.len() {
                    assert(cur[i] == prev[i]);
                    assert(tq.contains(prev[i].0));
                    let b = choose|b: int| 0 <= b < tq.len() && tq[b] == prev[i].0;
                    assert(projects[b] != projects[p - 1]);
                } else {
                    assert(cur[j] == prev[j]);
                    assert(tq.contains(prev[j].0));
                    let b = choose|b: int| 0 <= b < tq.len() && tq[b] == prev[j].0;
                    assert(projects[b] != projects[p - 1]);
                }
            }
        }
    }
}

/// The answer that a solution of the model gives: for each project marked
/// active, in order, the names of the students marked chosen for it, in
/// student order.
pub fn teams_from_solution(
    students: &Vec<Student>,
    projects: &Vec<String>,
    active: &Vec<bool>,
    chosen: &Vec<Vec<bool>>,
) -> (t: Teams)
    requires
        strs(projects@).no_duplicates(),
        active@.len() == projects@.len(),
        chosen@.len() == students@.len(),
        forall|s: int| 0 <= s < chosen@.len() ==> (#[trigger] chosen@[s])@.len() == projects@.len(),
    ensures
        t@ == solution_teams(
            students_view(students@),
            strs(projects@),
            active@,
            chosen@.map_values(|c: Vec<bool>| c@),
            projects@.len(),
        ),
        t@ == indices(projects@.len()).filter_map(
            active_team(students_view(students@), strs(projects@), active@, chosen@.map_values(|c: Vec<bool>| c@)),
        ),
        projects_distinct(t@),
{
    proof {
        law_solution_teams(students_view(students@), strs(projects@), active@, chosen@.map_values(|c: Vec<bool>| c@));
    }
    let ghost sv = students_view(students@);
    let ghost cv = chosen@.map_values(|c: Vec<bool>| c@);
    let ghost pv = strs(projects@);
    let mut out: Vec<(String, Vec<String>)> = Vec::new();
    let mut p: usize = 0;
    while p < projects.len()
        invariant
            p <= projects@.len(),
            sv == students_view(students@),
            cv == chosen@.map_values(|c: Vec<bool>| c@),
            pv == strs(projects@),
            active@.len() == projects@.len(),
            chosen@.len() == students@.len(),
            forall|s: int| 0 <= s < chosen@.len() ==> (#[trigger] chosen@[s])@.len() == projects@.len(),
            out@.map_values(|e: (String, Vec<String>)| team_view(e)) == solution_teams(sv, pv, active@, cv, p as nat),
        decreases projects@.len() - p,
    {
        if active[p] {
            let mut names: Vec<String> = Vec::new();
            let mut s: usize = 0;
            while s < students.len()
                invariant
                    s <= students@.len(),
                    p < projects@.len(),
                    sv == students_view(students@),
                    cv == chosen@.map_values(|c: Vec<bool>| c@),
                    chosen@.len() == students@.len(),
                    forall|s: int| 0 <= s < chosen@.len() ==> (#[trigger] chosen@[s])@.len() == projects@.len(),
                    strs(names@) == chosen_members(sv, cv, p as int, s as nat),
                decreases students@.len() - s,
            {
                proof {
                    assert(cv[s as int] == chosen@[s as int]@);
                    assert(sv[s as int] == students@[s as int]@);
                }
                if chosen[s][p] {
                    let ghost prev = names@;
                    names.push(students[s].name.clone());
                    proof {
                        assert(strs(names@) =~= strs(prev).push(sv[s as int].name));
                    }
                }
                s = s + 1;
            }
            let ghost prev = out@;
            out.push((projects[p].clone(), names));
            proof {
                let g = |e: (String, Vec<String>)| team_view(e);
                let want = solution_teams(sv, pv, active@, cv, p as nat).push((pv[p as int], chosen_members(sv, cv, p as int, students@.len())));
                assert(prev.map_values(g).len() == solution_teams(sv, pv, active@, cv, p as nat).len());
                assert forall|m: int| 0 <= m < prev.len() implies out@.map_values(g)[m] == want[m] by {
                    assert(out@[m] == prev[m]);
                    assert(prev.map_values(g)[m] == solution_teams(sv, pv, active@, cv, p as nat)[m]);
                }
                assert(out@.map_values(g) =~= want);
            }
        }
        p = p + 1;
    }
    proof {
        lemma_solution_teams_keys(sv, pv, active@, cv, projects@.len());
    }
    Teams::from_entries(out)
}

} // verus!
