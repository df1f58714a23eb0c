use vstd::prelude::*;

verus! {

/// How the sign of a correlation is treated when edges are selected.
#[derive(Clone, Copy, Debug, PartialEq, Eq, Structural)]
pub enum Mode {
    /// Only positive correlations make edges.
    Signed,
    /// Correlations make edges by their absolute value.
    Absolute,
}

impl Mode {
    /// Decodes a flag of the foreign interface: zero is `Signed`, anything else `Absolute`.
    pub fn from_flag(take_abs: u32) -> (r: Mode)
        ensures
            r == (if take_abs == 0 { Mode::Signed } else { Mode::Absolute }),
    {
        if take_abs == 0 {
            Mode::Signed
        } else {
            Mode::Absolute
        }
    }
}

/// The number of unordered pairs among the rows below `i`: pair `(i, j)` with
/// `j < i` has index `tri(i) + j`, which numbers the pairs in scan order.
pub open spec fn tri(i: nat) -> nat
    decreases i,
{
    if i == 0 {
        0
    } else {
        tri((i - 1) as nat) + (i - 1) as nat
    }
}

/// The weight that a correlation of `c` hundredths gets, or `None` where it
/// makes no edge: no correlation, a non-positive one in `Signed` mode, or a
/// weight below `min`.
pub open spec fn kept(c: Option<i32>, min: i64, mode: Mode) -> Option<nat> {
    match c {
        None => None,
        Some(v) => {
            let w: int = if mode == Mode::Absolute && v < 0 { -v } else { v as int };
            if mode == Mode::Signed && v <= 0 {
                None
            } else if w < min {
                None
            } else {
                Some(w as nat)
            }
        },
    }
}

/// The edges `(i, t, weight)` for `t < j`, in ascending `t`.
pub open spec fn row_edges(corrs: Seq<Option<i32>>, min: i64, mode: Mode, i: nat, j: nat) -> Seq<(nat, nat, nat)>
    decreases j,
{
    if j == 0 {
        Seq::empty()
    } else {
        let t = (j - 1) as nat;
        let before = row_edges(corrs, min, mode, i, t);
        match kept(corrs[(tri(i) + t) as int], min, mode) {
            Some(w) => before.push((i, t, w)),
            None => before,
        }
    }
}

/// The edges of all pairs whose larger row is below `i`, in scan order.
pub open spec fn all_edges(corrs: Seq<Option<i32>>, min: i64, mode: Mode, i: nat) -> Seq<(nat, nat, nat)>
    decreases i,
{
    if i == 0 {
        Seq::empty()
    } else {
        let s = (i - 1) as nat;
        all_edges(corrs, min, mode, s) + row_edges(corrs, min, mode, s, s)
    }
}

/// `a` comes before `b` in the scan: by source row, then by target row.
pub open spec fn precedes(a: (nat, nat, nat), b: (nat, nat, nat)) -> bool {
    a.0 < b.0 || (a.0 == b.0 && a.1 < b.1)
}

/// A sparse edge list held as three parallel sequences: sources, targets, and
/// weights in hundredths.
pub struct EdgeList {
    sources: Vec<u32>,
    targets: Vec<u32>,
    weights: Vec<u32>,
}

impl View for EdgeList {
    type V = Seq<(nat, nat, nat)>;

    closed spec fn view(&self) -> Seq<(nat, nat, nat)> {
        Seq::new(
            self.weights@.len(),
            |k: int| (self.sources@[k] as nat, self.targets@[k] as nat, self.weights@[k] as nat),
        )
    }
}

impl EdgeList {
    /// The three sequences are equally long.
    pub closed spec fn wf(&self) -> bool {
        &&& self.sources@.len() == self.weights@.len()
        &&& self.targets@.len() == self.weights@.len()
    }

    /// The number of edges.
    pub fn len(&self) -> (r: usize)
        requires
            self.wf(),
        ensures
            r == self@.len(),
    {
        self.weights.len()
    }

    /// Hands the three sequences over, each as long as the list.
    pub fn into_parts(self) -> (r: (Vec<u32>, Vec<u32>, Vec<u32>))
        requires
            self.wf(),
        ensures
            r.0@.len() == self@.len(),
            r.1@.len() == self@.len(),
            r.2@.len() == self@.len(),
            forall|k: int| 0 <= k < self@.len() ==> #[trigger] self@[k] == (
                r.0@[k] as nat,
                r.1@[k] as nat,
                r.2@[k] as nat,
            ),
    {
        (self.sources, self.targets, self.weights)
    }
}

proof fn lemma_tri_step(i: nat, j: nat, rows: nat)
    requires
        j < i < rows,
    ensures
        tri(i) + j < tri(rows),
        tri(i) + i == tri(i + 1),
    decreases rows,
{
    if rows > i + 1 {
        lemma_tri_step(i, j, (rows - 1) as nat);
    }
}

/// The weight of one correlation under `mode` and `min`, as `kept` gives it.
pub fn keep_weight(c: Option<i32>, min: i64, mode: Mode) -> (r: Option<u32>)
    ensures
        r matches Some(w) ==> kept(c, min, mode) == Some(w as nat),
        r is None <==> kept(c, min, mode) is None,
{
    match c {
        None => None,
        Some(v) => {
            if mode == Mode::Signed && v <= 0 {
                return None;
            }
            let w: i64 = if mode == Mode::Absolute && v < 0 { -(v as i64) } else { v as i64 };
            if w < min {
                None
            } else {
                Some(w as u32)
            }
        },
    }
}

/// Scans every pair `(i, j)` with `j < i < rows`, `i` ascending and then `j`
/// ascending, and keeps an edge `(i, j, w)` for each correlation
/// `corrs[tri(i) + j]` that `kept` gives a weight `w`.
pub fn select_edges(rows: usize, corrs: &Vec<Option<i32>>, min: i64, mode: Mode) -> (r: EdgeList)
    requires
        corrs@.len() == tri(rows as nat),
        rows <= u32::MAX as nat + 1,
    ensures
        r.wf(),
        r@ == all_edges(corrs@, min, mode, rows as nat),
{
    let mut out = EdgeList { sources: Vec::new(), targets: Vec::new(), weights: Vec::new() };
    let n = corrs.len();
    let mut p: usize = 0;
    let mut i: usize = 0;
    assert(out@ =~= all_edges(corrs@, min, mode, 0));
    while i < rows
        invariant
            corrs@.len() == tri(rows as nat),
            n == corrs@.len(),
            rows <= u32::MAX as nat + 1,
            i <= rows,
            p == tri(i as nat),
            out.wf(),
            out@ == all_edges(corrs@, min, mode, i as nat),
        decreases rows - i,
    {
        let mut j: usize = 0;
        let ghost done = out@;
        assert(done + row_edges(corrs@, min, mode, i as nat, 0) =~= done);
        while j < i
            invariant
                corrs@.len() == tri(rows as nat),
                n == corrs@.len(),
                rows <= u32::MAX as nat + 1,
                i < rows,
                j <= i,
                p == tri(i as nat) + j,
                out.wf(),
                done == all_edges(corrs@, min, mode, i as nat),
                out@ == done + row_edges(corrs@, min, mode, i as nat, j as nat),
            decreases i - j,
        {
            proof {
                lemma_tri_step(i as nat, j as nat, rows as nat);
            }
            match keep_weight(corrs[p], min, mode) {
                Some(w) => {
                    let ghost before = out@;
                    out.sources.push(i as u32);
                    out.targets.push(j as u32);
                    out.weights.push(w);
                    assert(out@ =~= before.push((i as nat, j as nat, w as nat)));
                    assert(out@ =~= done + row_edges(corrs@, min, mode, i as nat, j as nat + 1));
                },
                None => {},
            }
            p = p + 1;
            j = j + 1;
        }
        proof {
            if i > 0 {
                lemma_tri_step(i as nat, 0, rows as nat);
            } else {
                assert(tri(1) == 0);
            }
            assert(all_edges(corrs@, min, mode, i as nat + 1) == done + row_edges(corrs@, min, mode, i as nat, i as nat));
        }
        i = i + 1;
    }
    out
}

/// What holds of every edge that is kept: its rows are ordered, its weight
/// reaches `min`, and in `Signed` mode it is positive.
pub open spec fn edge_ok(e: (nat, nat, nat), min: i64, mode: Mode) -> bool {
    &&& e.1 < e.0
    &&& e.2 >= min
    &&& mode == Mode::Signed ==> e.2 > 0
}

proof fn lemma_kept_ok(c: Option<i32>, min: i64, mode: Mode)
    ensures
        kept(c, min, mode) matches Some(w) ==> {
            &&& w >= min
            &&& mode == Mode::Signed ==> w > 0
        },
{
}

proof fn lemma_row_edges_ordered(corrs: Seq<Option<i32>>, min: i64, mode: Mode, i: nat, j: nat)
    requires
        j <= i,
    ensures
        forall|k: int| 0 <= k < row_edges(corrs, min, mode, i, j).len() ==> {
            let e = #[trigger] row_edges(corrs, min, mode, i, j)[k];
            &&& e.0 == i
            &&& e.1 < j
            &&& edge_ok(e, min, mode)
        },
        forall|a: int, b: int| 0 <= a < b < row_edges(corrs, min, mode, i, j).len()
            ==> precedes(#[trigger] row_edges(corrs, min, mode, i, j)[a], #[trigger] row_edges(corrs, min, mode, i, j)[b]),
    decreases j,
{
    if j > 0 {
        let t = (j - 1) as nat;
        lemma_row_edges_ordered(corrs, min, mode, i, t);
        let before = row_edges(corrs, min, mode, i, t);
        let now = row_edges(corrs, min, mode, i, j);
        match kept(corrs[(tri(i) + t) as int], min, mode) {
            Some(w) => {
                assert(now == before.push((i, t, w)));
                assert forall|k: int| 0 <= k < now.len() implies {
                    let e = #[trigger] now[k];
                    &&& e.0 == i
                    &&& e.1 < j
                    &&& edge_ok(e, min, mode)
                } by {
                    if k < before.len() {
                        assert(now[k] == before[k]);
                    } else {
                        lemma_kept_ok(corrs[(tri(i) + t) as int], min, mode);
                        assert(now[k] == (i, t, w));
                    }
                }
                assert forall|a: int, b: int| 0 <= a < b < now.len() implies precedes(#[trigger] now[a], #[trigger] now[b]) by {
                    assert(now[a] == before[a]);
                    if b < before.len() {
                        assert(now[b] == before[b]);
                    }
                }
            },
            None => {},
        }
    }
}

/// The edges come out in strict scan order: by source row ascending, then by
/// target row ascending, so no unordered pair appears twice. Each edge joins a
/// source row below `rows` to a smaller target row, with a weight of at least
/// `min`, positive in `Signed` mode.
pub proof fn lemma_edges_in_scan_order(corrs: Seq<Option<i32>>, min: i64, mode: Mode, rows: nat)
    ensures
        forall|k: int| 0 <= k < all_edges(corrs, min, mode, rows).len() ==> {
            let e = #[trigger] all_edges(corrs, min, mode, rows)[k];
            &&& e.0 < rows
            &&& edge_ok(e, min, mode)
        },
        forall|a: int, b: int| 0 <= a < b < all_edges(corrs, min, mode, rows).len()
            ==> precedes(#[trigger] all_edges(corrs, min, mode, rows)[a], #[trigger] all_edges(corrs, min, mode, rows)[b]),
    decreases rows,
{
    if rows > 0 {
        let s = (rows - 1) as nat;
        lemma_edges_in_scan_order(corrs, min, mode, s);
        lemma_row_edges_ordered(corrs, min, mode, s, s);
        let front = all_edges(corrs, min, mode, s);
        let back = row_edges(corrs, min, mode, s, s);
        let all = all_edges(corrs, min, mode, rows);
        assert(all == front + back);
        assert forall|k: int| 0 <= k < all.len() implies {
            let e = #[trigger] all[k];
            &&& e.0 < rows
            &&& edge_ok(e, min, mode)
        } by {
            if k >= front.len() {
                assert(all[k] == back[k - front.len()]);
            }
        }
        assert forall|a: int, b: int| 0 <= a < b < all.len() implies precedes(#[trigger] all[a], #[trigger] all[b]) by {
            if b < front.len() {
            } else if a >= front.len() {
                assert(all[a] == back[a - front.len()]);
                assert(all[b] == back[b - front.len()]);
            } else {
                assert(all[a] == front[a]);
                assert(all[b] == back[b - front.len()]);
            }
        }
    }
}

} // verus!
