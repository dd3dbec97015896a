use vstd::prelude::*;

verus! {

/// One record of the preference table: a column name mapped to its cell.
///
/// Each column name occurs at most once; writing a column that is already
/// there replaces its cell.
pub struct Row {
    cells: Vec<(String, String)>,
}

/// Whether some cell of `cells` has the column `k`.
pub open spec fn has_column(cells: Seq<(String, String)>, k: Seq<char>) -> bool {
    exists|i: int| 0 <= i < cells.len() && (#[trigger] cells[i]).0@ == k
}

/// The position of the cell with column `k`.
pub open spec fn column_index(cells: Seq<(String, String)>, k: Seq<char>) -> int {
    choose|i: int| 0 <= i < cells.len() && (#[trigger] cells[i]).0@ == k
}

/// No column name occurs twice.
pub open spec fn columns_distinct(cells: Seq<(String, String)>) -> bool {
    forall|i: int, j: int|
        0 <= i < cells.len() && 0 <= j < cells.len() && i != j ==> (#[trigger] cells[i]).0@
            != (#[trigger] cells[j]).0@
}

/// The map from column names to cells that `cells` stands for.
pub open spec fn cells_map(cells: Seq<(String, String)>) -> Map<Seq<char>, Seq<char>> {
    Map::new(|k: Seq<char>| has_column(cells, k), |k: Seq<char>| cells[column_index(cells, k)].1@)
}

impl View for Row {
    type V = Map<Seq<char>, Seq<char>>;

    closed spec fn view(&self) -> Map<Seq<char>, Seq<char>> {
        cells_map(self.cells@)
    }
}

impl Row {
    #[verifier::type_invariant]
    spec fn distinct(self) -> bool {
        columns_distinct(self.cells@)
    }

    /// The empty record.
    pub fn new() -> (r: Row)
        ensures
            r@ == Map::<Seq<char>, Seq<char>>::empty(),
    {
        let r = Row { cells: Vec::new() };
        assert(r@ =~= Map::<Seq<char>, Seq<char>>::empty());
        r
    }

    fn find(&self, key: &String) -> (r: Option<usize>)
        ensures
            match r {
                Some(i) => i < self.cells@.len() && self.cells@[i as int].0@ == key@,
                None => !has_column(self.cells@, key@),
            },
    {
        let mut i: usize = 0;
        while i < self.cells.len()
            invariant
                i <= self.cells@.len(),
                forall|j: int| 0 <= j < i ==> (#[trigger] self.cells@[j]).0@ != key@,
            decreases self.cells@.len() - i,
        {
            if self.cells[i].0 == *key {
                return Some(i);
            }
            i = i + 1;
        }
        None
    }

    /// The cell of column `key`, if the record has that column.
    pub fn get(&self, key: &String) -> (r: Option<&String>)
        ensures
            match r {
                Some(v) => self@.contains_key(key@) && v@ == self@[key@],
                None => !self@.contains_key(key@),
            },
    {
        proof {
            use_type_invariant(self);
        }
        match self.find(key) {
            Some(i) => {
                proof {
                    let j = column_index(self.cells@, key@);
                    assert(has_column(self.cells@, key@));
                    assert(self.cells@[j].0@ == key@);
                }
                Some(&self.cells[i].1)
            },
            None => None,
        }
    }

    /// Sets the cell of column `key` to `value`, replacing any earlier one.
    pub fn insert(&mut self, key: String, value: String)
        ensures
            final(self)@ == old(self)@.insert(key@, value@),
    {
        proof {
            use_type_invariant(&*self);
        }
        let ghost old_cells = self.cells@;
        match self.find(&key) {
            Some(i) => {
                let mut cells: Vec<(String, String)> = Vec::new();
                std::mem::swap(&mut cells, &mut self.cells);
                cells.set(i, (key, value));
                proof {
                    assert(columns_distinct(cells@));
                }
                self.cells = cells;
                proof {
                    let c = self.cells@;
                    assert(columns_distinct(c));
                    assert forall|k: Seq<char>| #[trigger] has_column(c, k) == has_column(old_cells, k) by {
                        if has_column(c, k) {
                            let j = choose|j: int| 0 <= j < c.len() && (#[trigger] c[j]).0@ == k;
                            assert(old_cells[j].0@ == k);
                        }
                        if has_column(old_cells, k) {
                            let j = choose|j: int| 0 <= j < old_cells.len() && (#[trigger] old_cells[j]).0@ == k;
                            assert(c[j].0@ == k);
                        }
                    }
                    assert forall|k: Seq<char>| has_column(c, k) implies
                        #[trigger] cells_map(c)[k] == (if k == key@ { value@ } else { cells_map(old_cells)[k] }) by {
                        let j = column_index(c, k);
                        if k != key@ {
                            let j0 = column_index(old_cells, k);
                            assert(old_cells[j].0@ == k);
                            assert(j0 == j);
                        }
                    }
                    assert(self@ =~= old(self)@.insert(key@, value@));
                }
            },
            None => {
                let mut cells: Vec<(String, String)> = Vec::new();
                std::mem::swap(&mut cells, &mut self.cells);
                cells.push((key, value));
                proof {
                    assert(columns_distinct(cells@));
                }
                self.cells = cells;
                proof {
                    let c = self.cells@;
                    let n = old_cells.len() as int;
                    assert(columns_distinct(c));
                    assert forall|k: Seq<char>| #[trigger] has_column(c, k) == (has_column(old_cells, k) || k == key@) by {
                        if has_column(c, k) {
                            let j = choose|j: int| 0 <= j < c.len() && (#[trigger] c[j]).0@ == k;
                            if j < n {
                                assert(old_cells[j].0@ == k);
                            }
                        }
                        if has_column(old_cells, k) {
                            let j = choose|j: int| 0 <= j < old_cells.len() && (#[trigger] old_cells[j]).0@ == k;
                            assert(c[j].0@ == k);
                        }
                        if k == key@ {
                            assert(c[n].0@ == k);
                        }
                    }
                    assert forall|k: Seq<char>| has_column(c, k) implies
                        #[trigger] cells_map(c)[k] == (if k == key@ { value@ } else { cells_map(old_cells)[k] }) by {
                        let j = column_index(c, k);
                        if k != key@ {
                            let j0 = column_index(old_cells, k);
                            assert(c[j0].0@ == k);
                            assert(j0 == j);
                        } else {
                            assert(c[n].0@ == k);
                        }
                    }
                    assert(self@ =~= old(self)@.insert(key@, value@));
                }
            },
        }
    }
}

} // verus!
