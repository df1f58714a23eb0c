use vstd::prelude::*;

verus! {

/// Longest sequence of keys that can be ranked: twice its length must fit in a `u64`.
pub const MAX_RANKED: u64 = 0x7fff_ffff_ffff_fffe;

/// How many keys of `s` lie strictly below `x`.
pub open spec fn count_below(s: Seq<u64>, x: u64) -> nat
    decreases s.len(),
{
    if s.len() == 0 {
        0
    } else {
        count_below(s.drop_last(), x) + if s.last() < x { 1nat } else { 0nat }
    }
}

/// How many keys of `s` equal `x`.
pub open spec fn count_equal(s: Seq<u64>, x: u64) -> nat
    decreases s.len(),
{
    if s.len() == 0 {
        0
    } else {
        count_equal(s.drop_last(), x) + if s.last() == x { 1nat } else { 0nat }
    }
}

/// Twice the 1-based rank of `x` among `s`, ties averaged. In ascending order
/// the run of keys equal to `x` occupies the positions `below + 1` through
/// `below + equal`; their mean, doubled, is `2 * below + equal + 1`.
pub open spec fn doubled_rank(s: Seq<u64>, x: u64) -> nat {
    2 * count_below(s, x) + count_equal(s, x) + 1
}

/// The doubled rank of each key of `s`, in the positions of `s`.
pub open spec fn doubled_ranks(s: Seq<u64>) -> Seq<nat> {
    Seq::new(s.len(), |k: int| doubled_rank(s, s[k]))
}

/// Each key paired with its position.
pub open spec fn positions(keys: Seq<u64>) -> Seq<(u64, usize)> {
    Seq::new(keys.len(), |k: int| (keys[k], k as usize))
}

/// How many pairs of `q` satisfy `f`.
pub open spec fn count_where(q: Seq<(u64, usize)>, f: spec_fn((u64, usize)) -> bool) -> nat
    decreases q.len(),
{
    if q.len() == 0 {
        0
    } else {
        count_where(q.drop_last(), f) + if f(q.last()) { 1nat } else { 0nat }
    }
}

proof fn lemma_count_remove(q: Seq<(u64, usize)>, f: spec_fn((u64, usize)) -> bool, i: int)
    requires
        0 <= i < q.len(),
    ensures
        count_where(q, f) == count_where(q.remove(i), f) + if f(q[i]) { 1nat } else { 0nat },
    decreases q.len(),
{
    if i == q.len() - 1 {
        assert(q.remove(i) =~= q.drop_last());
    } else {
        lemma_count_remove(q.drop_last(), f, i);
        assert(q.remove(i).drop_last() =~= q.drop_last().remove(i));
        assert(q.remove(i).last() == q.last());
    }
}

proof fn lemma_count_perm(q1: Seq<(u64, usize)>, q2: Seq<(u64, usize)>, f: spec_fn((u64, usize)) -> bool)
    requires
        q1.to_multiset() == q2.to_multiset(),
    ensures
        count_where(q1, f) == count_where(q2, f),
    decreases q1.len(),
{
    broadcast use vstd::seq_lib::group_to_multiset_ensures;
    broadcast use vstd::multiset::group_multiset_axioms;

    if q1.len() == 0 {
        assert(q2.to_multiset().len() == 0);
    } else {
        let e = q1.last();
        let rest = q1.drop_last();
        assert(rest.push(e) =~= q1);
        assert(q1.to_multiset().count(e) > 0);
        assert(q2.contains(e));
        let i = q2.index_of(e);
        lemma_count_remove(q2, f, i);
        assert(q1.remove(q1.len() - 1) =~= rest);
        assert(rest.to_multiset() == q1.to_multiset().remove(e));
        assert(q2.remove(i).to_multiset() == q2.to_multiset().remove(e));
        lemma_count_perm(rest, q2.remove(i), f);
    }
}

proof fn lemma_count_range(q: Seq<(u64, usize)>, f: spec_fn((u64, usize)) -> bool, lo: int, hi: int)
    requires
        0 <= lo <= hi,
        forall|t: int| 0 <= t < q.len() ==> (f(#[trigger] q[t]) <==> lo <= t < hi),
    ensures
        count_where(q, f) == if hi <= q.len() { hi - lo } else if lo <= q.len() { q.len() - lo } else { 0 },
    decreases q.len(),
{
    if q.len() > 0 {
        let r = q.drop_last();
        assert forall|t: int| 0 <= t < r.len() implies (f(#[trigger] r[t]) <==> lo <= t < hi) by {
            assert(r[t] == q[t]);
        }
        lemma_count_range(r, f, lo, hi);
        assert(f(q[q.len() - 1]) <==> lo <= q.len() - 1 < hi);
    }
}

proof fn lemma_count_positions(keys: Seq<u64>, x: u64)
    ensures
        count_where(positions(keys), |e: (u64, usize)| e.0 < x) == count_below(keys, x),
        count_where(positions(keys), |e: (u64, usize)| e.0 == x) == count_equal(keys, x),
    decreases keys.len(),
{
    if keys.len() > 0 {
        lemma_count_positions(keys.drop_last(), x);
        assert(positions(keys).drop_last() =~= positions(keys.drop_last()));
    }
}

/// Relies on `slice::sort_unstable`: the same pairs come out, in ascending
/// order, which for tuples of integers is ascending by key first.
#[verifier::external_body]
fn sort_pairs(v: &mut Vec<(u64, usize)>)
    ensures
        final(v)@.to_multiset() == old(v)@.to_multiset(),
        forall|a: int, b: int| 0 <= a < b < final(v)@.len() ==> final(v)@[a].0 <= final(v)@[b].0,
{
    v.sort_unstable();
}

/// Rank transform with averaged ties. Keys order values (a caller maps each
/// value to a key that preserves order and equality); each result is twice the
/// value's 1-based rank, so that a tie between ranks 2 and 3 reads 5.
/// Positions are sorted by key, and each run of equal keys gets the mean of
/// the ranks it spans.
pub fn rank_values(keys: &Vec<u64>) -> (r: Vec<u64>)
    requires
        keys@.len() <= MAX_RANKED,
    ensures
        r@.len() == keys@.len(),
        forall|k: int| 0 <= k < keys@.len() ==> r@[k] == doubled_rank(keys@, keys@[k]),
{
    broadcast use vstd::seq_lib::group_to_multiset_ensures;
    broadcast use vstd::multiset::group_multiset_axioms;

    let n = keys.len();
    let mut pairs: Vec<(u64, usize)> = Vec::with_capacity(n);
    let mut ranks: Vec<u64> = Vec::with_capacity(n);
    let mut k: usize = 0;
    while k < n
        invariant
            n == keys@.len(),
            k <= n,
            pairs@ == positions(keys@).subrange(0, k as int),
            ranks@.len() == k,
        decreases n - k,
    {
        pairs.push((keys[k], k));
        ranks.push(0);
        assert(pairs@ =~= positions(keys@).subrange(0, k as int + 1));
        k = k + 1;
    }
    let ghost pos = positions(keys@);
    assert(pairs@ =~= pos);
    sort_pairs(&mut pairs);
    let ghost s = pairs@;
    proof {
        assert(s.to_multiset().len() == s.len());
        assert(pos.to_multiset().len() == pos.len());
        assert forall|t: int| 0 <= t < n implies #[trigger] s[t] == pos[s[t].1 as int] && s[t].1 < n by {
            assert(s.contains(s[t]));
            assert(s.to_multiset().count(s[t]) > 0);
            assert(pos.contains(s[t]));
        }
        assert(pos.no_duplicates());
        pos.lemma_multiset_has_no_duplicates();
        s.lemma_multiset_has_no_duplicates_conv();
        assert forall|k: int| 0 <= k < n implies s.contains(#[trigger] pos[k]) by {
            assert(pos.to_multiset().count(pos[k]) > 0);
        }
    }
    let mut i: usize = 0;
    while i < n
        invariant
            n == keys@.len(),
            n <= MAX_RANKED,
            i <= n,
            s == pairs@,
            s.len() == n,
            ranks@.len() == n,
            forall|a: int, b: int| 0 <= a < b < n ==> s[a].0 <= s[b].0,
            forall|t: int| 0 <= t < n ==> #[trigger] s[t] == pos[s[t].1 as int] && s[t].1 < n,
            s.no_duplicates(),
            forall|k: int| 0 <= k < n ==> s.contains(#[trigger] pos[k]),
            pos == positions(keys@),
            s.to_multiset() == pos.to_multiset(),
            0 < i < n ==> s[i - 1].0 != s[i as int].0,
            forall|t: int| 0 <= t < i ==> ranks@[#[trigger] s[t].1 as int] == doubled_rank(keys@, s[t].0),
        decreases n - i,
    {
        let x = pairs[i].0;
        let mut j: usize = i;
        while j + 1 < n && pairs[j + 1].0 == x
            invariant
                s == pairs@,
                s.len() == n,
                i <= j < n,
                forall|t: int| i <= t <= j ==> #[trigger] s[t].0 == x,
            decreases n - j,
        {
            j = j + 1;
        }
        proof {
            let below = |e: (u64, usize)| e.0 < x;
            let equal = |e: (u64, usize)| e.0 == x;
            assert forall|t: int| 0 <= t < s.len() implies (below(#[trigger] s[t]) <==> 0 <= t < i) by {
                if t < i && s[t].0 == x {
                    assert(s[t].0 <= s[i - 1].0 && s[i - 1].0 <= s[i as int].0);
                }
            }
            assert forall|t: int| 0 <= t < s.len() implies (equal(#[trigger] s[t]) <==> i <= t < j + 1) by {
                if t < i && s[t].0 == x {
                    assert(s[t].0 <= s[i - 1].0 && s[i - 1].0 <= s[i as int].0);
                }
                if t > j + 1 && s[t].0 == x {
                    assert(s[j + 1].0 <= s[t].0 && s[j as int].0 <= s[j + 1].0);
                }
            }
            lemma_count_range(s, below, 0, i as int);
            lemma_count_range(s, equal, i as int, j + 1);
            lemma_count_perm(s, pos, below);
            lemma_count_perm(s, pos, equal);
            lemma_count_positions(keys@, x);
            assert(doubled_rank(keys@, x) == i + j + 2);
        }
        let rank: u64 = i as u64 + j as u64 + 2;
        let mut m: usize = i;
        while m <= j
            invariant
                n == keys@.len(),
                i <= m <= j + 1,
                j < n,
                s == pairs@,
                s.len() == n,
                ranks@.len() == n,
                forall|t: int| 0 <= t < n ==> #[trigger] s[t] == pos[s[t].1 as int] && s[t].1 < n,
                s.no_duplicates(),
                forall|t: int| i <= t <= j ==> #[trigger] s[t].0 == x,
                doubled_rank(keys@, x) == rank,
                forall|t: int| 0 <= t < m ==> ranks@[#[trigger] s[t].1 as int] == doubled_rank(keys@, s[t].0),
            decreases j + 1 - m,
        {
            let at = pairs[m].1;
            assert(s[m as int] == pos[at as int]);
            ranks.set(at, rank);
            assert forall|t: int| 0 <= t < m + 1 implies ranks@[#[trigger] s[t].1 as int] == doubled_rank(keys@, s[t].0) by {
                if t < m {
                    assert(s[t] != s[m as int]);
                    assert(s[t].1 != at);
                }
            }
            m = m + 1;
        }
        i = j + 1;
    }
    proof {
        assert forall|k: int| 0 <= k < keys@.len() implies ranks@[k] == doubled_rank(keys@, keys@[k]) by {
            assert(s.contains(pos[k]));
            let t = choose|t: int| 0 <= t < s.len() && s[t] == pos[k];
            assert(s[t].1 == k);
        }
    }
    ranks
}

} // verus!
