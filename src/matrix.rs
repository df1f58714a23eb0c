use vstd::prelude::*;
use crate::rank::{rank_values, doubled_ranks, MAX_RANKED};

verus! {

/// A dense row-major matrix of order keys; `None` marks a missing observation.
pub struct KeyMatrix {
    rows: usize,
    cols: usize,
    cells: Vec<Option<u64>>,
}

impl KeyMatrix {
    /// The number of rows.
    pub closed spec fn row_count(&self) -> nat {
        self.rows as nat
    }

    /// The number of columns.
    pub closed spec fn col_count(&self) -> nat {
        self.cols as nat
    }

    /// The cell in row `i`, column `c`.
    pub closed spec fn cell(&self, i: int, c: int) -> Option<u64> {
        self.cells@[i * self.cols + c]
    }

    /// Both dimensions are positive and the cells fill them exactly.
    pub closed spec fn wf(&self) -> bool {
        &&& self.rows > 0
        &&& self.cols > 0
        &&& self.cells@.len() == self.rows * self.cols
    }

    /// Both rows observe column `c`.
    pub open spec fn joint_at(&self, i: int, j: int, c: int) -> bool {
        self.cell(i, c) is Some && self.cell(j, c) is Some
    }

    /// The columns below `m` that rows `i` and `j` both observe, ascending.
    pub open spec fn joint_upto(&self, i: int, j: int, m: int) -> Seq<int>
        decreases m,
    {
        if m <= 0 {
            Seq::empty()
        } else if self.joint_at(i, j, m - 1) {
            self.joint_upto(i, j, m - 1).push(m - 1)
        } else {
            self.joint_upto(i, j, m - 1)
        }
    }

    /// The columns that rows `i` and `j` both observe, ascending.
    pub open spec fn joint(&self, i: int, j: int) -> Seq<int> {
        self.joint_upto(i, j, self.col_count() as int)
    }

    /// Row `i` read at the given columns.
    pub open spec fn keys_on(&self, i: int, columns: Seq<int>) -> Seq<u64> {
        columns.map_values(|c: int| self.cell(i, c)->Some_0)
    }

    /// Row `i` read at every column.
    pub open spec fn row_keys(&self, i: int) -> Seq<u64> {
        Seq::new(self.col_count(), |c: int| self.cell(i, c)->Some_0)
    }

    /// Builds a matrix of `rows` by `cols` cells; `None` where a dimension is
    /// zero or `cells` does not hold exactly `rows * cols` of them.
    pub fn new(rows: usize, cols: usize, cells: Vec<Option<u64>>) -> (r: Option<KeyMatrix>)
        ensures
            (rows == 0 || cols == 0 || cells@.len() != rows * cols) <==> r is None,
            r matches Some(m) ==> {
                &&& m.wf()
                &&& m.row_count() == rows
                &&& m.col_count() == cols
                &&& forall|i: int, c: int| 0 <= i < rows && 0 <= c < cols
                    ==> #[trigger] m.cell(i, c) == cells@[i * cols + c]
            },
    {
        if rows == 0 || cols == 0 {
            return None;
        }
        let n = cells.len();
        if n / cols != rows || n % cols != 0 {
            proof {
                if cells@.len() == rows * cols {
                    vstd::arithmetic::div_mod::lemma_div_multiples_vanish(rows as int, cols as int);
                    vstd::arithmetic::div_mod::lemma_mod_multiples_basic(rows as int, cols as int);
                    assert(rows * cols == cols * rows) by (nonlinear_arith);
                }
            }
            return None;
        }
        proof {
            vstd::arithmetic::div_mod::lemma_fundamental_div_mod(n as int, cols as int);
            assert(rows * cols == cols * rows) by (nonlinear_arith);
        }
        Some(KeyMatrix { rows, cols, cells })
    }

    pub fn rows(&self) -> (r: usize)
        ensures
            r == self.row_count(),
    {
        self.rows
    }

    pub fn cols(&self) -> (r: usize)
        ensures
            r == self.col_count(),
    {
        self.cols
    }

    proof fn lemma_index(&self, i: int, c: int)
        requires
            self.wf(),
            0 <= i < self.rows,
            0 <= c < self.cols,
        ensures
            0 <= i * self.cols + c < self.cells@.len(),
    {
        assert(i * self.cols + c < (i + 1) * self.cols) by (nonlinear_arith)
            requires
                c < self.cols;
        assert((i + 1) * self.cols <= self.rows * self.cols) by (nonlinear_arith)
            requires
                i + 1 <= self.rows;
        assert(0 <= i * self.cols) by (nonlinear_arith)
            requires
                0 <= i;
    }

    proof fn lemma_joint_upto_bounds(&self, i: int, j: int, m: int)
        ensures
            self.joint_upto(i, j, m).len() <= if m < 0 { 0 } else { m },
            forall|t: int| 0 <= t < self.joint_upto(i, j, m).len()
                ==> 0 <= #[trigger] self.joint_upto(i, j, m)[t] < m
                    && self.joint_at(i, j, self.joint_upto(i, j, m)[t]),
        decreases m,
    {
        if m > 0 {
            self.lemma_joint_upto_bounds(i, j, m - 1);
        }
    }

    /// The columns that rows `i` and `j` both observe, ascending.
    pub fn joint_columns(&self, i: usize, j: usize) -> (r: Vec<usize>)
        requires
            self.wf(),
            i < self.row_count(),
            j < self.row_count(),
        ensures
            r@.map_values(|c: usize| c as int) == self.joint(i as int, j as int),
    {
        let mut r: Vec<usize> = Vec::new();
        let mut c: usize = 0;
        while c < self.cols
            invariant
                self.wf(),
                i < self.rows,
                j < self.rows,
                c <= self.cols,
                r@.map_values(|c: usize| c as int) == self.joint_upto(i as int, j as int, c as int),
            decreases self.cols - c,
        {
            let len = self.cells.len();
            proof {
                self.lemma_index(i as int, c as int);
                self.lemma_index(j as int, c as int);
                assert(i * self.cols + c < len && j * self.cols + c < len);
            }
            let base_i = i * self.cols;
            let base_j = j * self.cols;
            if self.cells[base_i + c].is_some() && self.cells[base_j + c].is_some() {
                let ghost before = r@;
                r.push(c);
                assert(r@.map_values(|c: usize| c as int)
                    =~= before.map_values(|c: usize| c as int).push(c as int));
            }
            c = c + 1;
        }
        r
    }

    /// The columns that rows `i` and `j` both observe, or `None` where fewer
    /// than two are: a correlation needs at least two shared observations.
    pub fn pair_support(&self, i: usize, j: usize) -> (r: Option<Vec<usize>>)
        requires
            self.wf(),
            i < self.row_count(),
            j < self.row_count(),
        ensures
            r is None <==> self.joint(i as int, j as int).len() < 2,
            r matches Some(v) ==> v@.map_values(|c: usize| c as int) == self.joint(i as int, j as int),
    {
        let columns = self.joint_columns(i, j);
        if columns.len() < 2 {
            None
        } else {
            Some(columns)
        }
    }

    /// Row `i` read at the given columns.
    pub fn keys_at(&self, i: usize, columns: &Vec<usize>) -> (r: Vec<u64>)
        requires
            self.wf(),
            i < self.row_count(),
            forall|t: int| 0 <= t < columns@.len() ==> {
                &&& #[trigger] columns@[t] < self.col_count()
                &&& self.cell(i as int, columns@[t] as int) is Some
            },
        ensures
            r@ == self.keys_on(i as int, columns@.map_values(|c: usize| c as int)),
    {
        let mut r: Vec<u64> = Vec::with_capacity(columns.len());
        let mut t: usize = 0;
        while t < columns.len()
            invariant
                self.wf(),
                i < self.rows,
                t <= columns@.len(),
                forall|t: int| 0 <= t < columns@.len() ==> {
                    &&& #[trigger] columns@[t] < self.col_count()
                    &&& self.cell(i as int, columns@[t] as int) is Some
                },
                r@ == self.keys_on(i as int, columns@.subrange(0, t as int).map_values(|c: usize| c as int)),
            decreases columns@.len() - t,
        {
            let c = columns[t];
            let len = self.cells.len();
            proof {
                self.lemma_index(i as int, c as int);
                assert(i * self.cols + c < len);
            }
            let key = match self.cells[i * self.cols + c] {
                Some(k) => k,
                None => 0,
            };
            proof {
                assert(columns@.subrange(0, t as int + 1).map_values(|c: usize| c as int)
                    =~= columns@.subrange(0, t as int).map_values(|c: usize| c as int).push(c as int));
            }
            r.push(key);
            proof {
                assert(r@ =~= self.keys_on(i as int, columns@.subrange(0, t as int + 1).map_values(|c: usize| c as int)));
            }
            t = t + 1;
        }
        proof {
            assert(columns@.subrange(0, columns@.len() as int) =~= columns@);
        }
        r
    }

    /// The ranks of rows `i` and `j` over the columns both observe, each row
    /// ranked on its own (see `rank_values`); `None` where fewer than two
    /// columns are shared.
    pub fn pair_ranks(&self, i: usize, j: usize) -> (r: Option<(Vec<u64>, Vec<u64>)>)
        requires
            self.wf(),
            i < self.row_count(),
            j < self.row_count(),
            self.col_count() <= MAX_RANKED,
        ensures
            r is None <==> self.joint(i as int, j as int).len() < 2,
            r matches Some((ri, rj)) ==> {
                &&& ri@.map_values(|x: u64| x as nat)
                    == doubled_ranks(self.keys_on(i as int, self.joint(i as int, j as int)))
                &&& rj@.map_values(|x: u64| x as nat)
                    == doubled_ranks(self.keys_on(j as int, self.joint(i as int, j as int)))
            },
    {
        match self.pair_support(i, j) {
            None => None,
            Some(columns) => {
                proof {
                    self.lemma_joint_upto_bounds(i as int, j as int, self.cols as int);
                    assert forall|t: int| 0 <= t < columns@.len() implies {
                        &&& #[trigger] columns@[t] < self.col_count()
                        &&& self.cell(i as int, columns@[t] as int) is Some
                        &&& self.cell(j as int, columns@[t] as int) is Some
                    } by {
                        assert(columns@.map_values(|c: usize| c as int)[t] == columns@[t] as int);
                    }
                }
                let xs = self.keys_at(i, &columns);
                let ys = self.keys_at(j, &columns);
                let ri = rank_values(&xs);
                let rj = rank_values(&ys);
                proof {
                    assert(ri@.map_values(|x: u64| x as nat) =~= doubled_ranks(xs@));
                    assert(rj@.map_values(|x: u64| x as nat) =~= doubled_ranks(ys@));
                }
                Some((ri, rj))
            },
        }
    }

    proof fn lemma_joint_upto_full(&self, i: int, j: int, m: int)
        requires
            0 <= m <= self.col_count(),
            forall|c: int| 0 <= c < self.col_count() ==> #[trigger] self.joint_at(i, j, c),
        ensures
            self.joint_upto(i, j, m) == Seq::new(m as nat, |c: int| c),
        decreases m,
    {
        if m > 0 {
            self.lemma_joint_upto_full(i, j, m - 1);
            assert(self.joint_upto(i, j, m) =~= Seq::new(m as nat, |c: int| c));
        } else {
            assert(self.joint_upto(i, j, m) =~= Seq::new(m as nat, |c: int| c));
        }
    }

    /// Where rows `i` and `j` have no missing cell, the columns they share are
    /// all columns, so the ranks that `pair_ranks` gives them are the ranks of
    /// the whole rows: the same as ranking every row of the matrix first.
    pub proof fn lemma_full_rows_rank_whole(&self, i: int, j: int)
        requires
            self.wf(),
            0 <= i < self.row_count(),
            0 <= j < self.row_count(),
            forall|c: int| 0 <= c < self.col_count()
                ==> #[trigger] self.cell(i, c) is Some && self.cell(j, c) is Some,
        ensures
            self.joint(i, j) == Seq::new(self.col_count(), |c: int| c),
            self.keys_on(i, self.joint(i, j)) == self.row_keys(i),
            self.keys_on(j, self.joint(i, j)) == self.row_keys(j),
            doubled_ranks(self.keys_on(i, self.joint(i, j))) == doubled_ranks(self.row_keys(i)),
            doubled_ranks(self.keys_on(j, self.joint(i, j))) == doubled_ranks(self.row_keys(j)),
    {
        assert forall|c: int| 0 <= c < self.col_count() implies #[trigger] self.joint_at(i, j, c) by {
            assert(self.cell(i, c) is Some);
        }
        self.lemma_joint_upto_full(i, j, self.col_count() as int);
        assert(self.keys_on(i, self.joint(i, j)) =~= self.row_keys(i));
        assert(self.keys_on(j, self.joint(i, j)) =~= self.row_keys(j));
    }
}

} // verus!
