use vstd::prelude::*;

verus! {

/// A team as plain values: the project's name and its members' names.
pub type TeamView = (Seq<char>, Seq<Seq<char>>);

/// The plain value of one stored team.
pub open spec fn team_view(e: (String, Vec<String>)) -> TeamView {
    (e.0@, e.1@.map_values(|s: String| s@))
}

/// No project name occurs twice.
pub open spec fn projects_distinct(ts: Seq<TeamView>) -> bool {
    forall|i: int, j: int|
        0 <= i < ts.len() && 0 <= j < ts.len() && i != j ==> (#[trigger] ts[i]).0
            != (#[trigger] ts[j]).0
}

/// Whether a team for project `p` is among `ts`.
pub open spec fn has_project(ts: Seq<TeamView>, p: Seq<char>) -> bool {
    exists|i: int| 0 <= i < ts.len() && (#[trigger] ts[i]).0 == p
}

/// The position of the team for project `p`.
pub open spec fn project_index(ts: Seq<TeamView>, p: Seq<char>) -> int {
    choose|i: int| 0 <= i < ts.len() && (#[trigger] ts[i]).0 == p
}

/// The teams of an answer: each project once, with the names of its members.
pub struct Teams {
    entries: Vec<(String, Vec<String>)>,
}

impl View for Teams {
    type V = Seq<TeamView>;

    closed spec fn view(&self) -> Seq<TeamView> {
        self.entries@.map_values(|e: (String, Vec<String>)| team_view(e))
    }
}

impl Teams {
    #[verifier::type_invariant]
    spec fn distinct(self) -> bool {
        projects_distinct(self.entries@.map_values(|e: (String, Vec<String>)| team_view(e)))
    }

    pub(crate) fn from_entries(entries: Vec<(String, Vec<String>)>) -> (t: Teams)
        requires
            projects_distinct(entries@.map_values(|e: (String, Vec<String>)| team_view(e))),
        ensures
            t@ == entries@.map_values(|e: (String, Vec<String>)| team_view(e)),
    {
        Teams { entries }
    }

    /// The number of teams.
    pub fn len(&self) -> (n: usize)
        ensures
            n == self@.len(),
    {
        self.entries.len()
    }

    /// The teams in order, as stored.
    pub fn entries(&self) -> (r: &Vec<(String, Vec<String>)>)
        ensures
            r@.map_values(|e: (String, Vec<String>)| team_view(e)) == self@,
    {
        &self.entries
    }

    fn find(&self, key: &str) -> (r: Option<usize>)
        ensures
            match r {
                Some(i) => i < self@.len() && self@[i as int].0 == key@,
                None => !has_project(self@, key@),
            },
    {
        let k = key.to_owned();
        let mut i: usize = 0;
        while i < self.entries.len()
            invariant
                i <= self@.len(),
                self@.len() == self.entries@.len(),
                k@ == key@,
                forall|j: int| 0 <= j < i ==> (#[trigger] self@[j]).0 != key@,
            decreases self.entries@.len() - i,
        {
            if self.entries[i].0 == k {
                return Some(i);
            }
            i = i + 1;
        }
        None
    }

    /// Whether the answer has a team for `project`.
    pub fn contains_key(&self, project: &str) -> (b: bool)
        ensures
            b == has_project(self@, project@),
    {
        self.find(project).is_some()
    }

    /// The member names of the team for `project`, if there is one.
    pub fn get(&self, project: &str) -> (r: Option<&Vec<String>>)
        ensures
            match r {
                Some(v) => has_project(self@, project@) && v@.map_values(|s: String| s@)
                    == self@[project_index(self@, project@)].1,
                None => !has_project(self@, project@),
            },
    {
        proof {
            use_type_invariant(self);
        }
        match self.find(project) {
            Some(i) => {
                proof {
                    let j = project_index(self@, project@);
                    assert(has_project(self@, project@));
                    assert(self@[j].0 == project@);
                    assert(i == j);
                }
                Some(&self.entries[i].1)
            },
            None => None,
        }
    }
}

} // verus!
