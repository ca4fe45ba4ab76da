use vstd::prelude::*;
use crate::dao::Dao;
use crate::similarity::{is_ternary, spec_similarity, lemma_similarity_bounded};
use crate::nality::{first_min_pos, lemma_first_min_pos, min_index_and_value};
use crate::phases::{get_selectors_from_flags, positions_where};
use crate::random::random_below;
use crate::rdescent::{RDescentWithRev, usize_rows};

verus! {

/// How far the values fall short of `b`, summed.
pub open spec fn sum_slack(v: Seq<i64>, b: int) -> int
    decreases v.len(),
{
    if v.len() == 0 {
        0
    } else {
        sum_slack(v.drop_last(), b) + (b - v.last())
    }
}

proof fn lemma_sum_slack_nonneg(v: Seq<i64>, b: int)
    requires
        forall|i: int| 0 <= i < v.len() ==> #[trigger] v[i] <= b,
    ensures
        sum_slack(v, b) >= 0,
    decreases v.len(),
{
    if v.len() > 0 {
        lemma_sum_slack_nonneg(v.drop_last(), b);
    }
}

proof fn lemma_sum_slack_update(v: Seq<i64>, b: int, p: int, x: i64)
    requires
        0 <= p < v.len(),
    ensures
        sum_slack(v.update(p, x), b) == sum_slack(v, b) - (b - v[p]) + (b - x),
    decreases v.len(),
{
    let w = v.update(p, x);
    if p < v.len() - 1 {
        assert(w.drop_last() =~= v.drop_last().update(p, x));
        lemma_sum_slack_update(v.drop_last(), b, p, x);
    } else {
        assert(w.drop_last() =~= v.drop_last());
    }
}

/// The similarities of the given points to a query embedding.
pub open spec fn query_sims(dao: Dao, ids: Seq<usize>, query: Seq<i8>) -> Seq<i64> {
    ids.map_values(|i: usize| spec_similarity(dao.embeddings@[i as int]@, query) as i64)
}

/// The least of a non-empty sequence of values.
pub open spec fn least_sim(v: Seq<i64>) -> i64 {
    v[first_min_pos(v, v.len() as int)]
}

/// The sum of a sequence of values.
pub open spec fn seq_sum(v: Seq<i64>) -> int
    decreases v.len(),
{
    if v.len() == 0 {
        0
    } else {
        seq_sum(v.drop_last()) + v.last()
    }
}

proof fn lemma_sum_slack_sum(v: Seq<i64>, b: int)
    ensures
        sum_slack(v, b) == v.len() * b - seq_sum(v),
    decreases v.len(),
{
    if v.len() > 0 {
        lemma_sum_slack_sum(v.drop_last(), b);
        let l = v.len() as int;
        assert(l * b == (l - 1) * b + b) by (nonlinear_arith);
    }
}

/// The entries of a table row other than the `u32::MAX` mark of a missing
/// entry, as `u32`, in column order.
pub open spec fn present_ids(row: Seq<usize>) -> Seq<u32>
    decreases row.len(),
{
    if row.len() == 0 {
        Seq::empty()
    } else {
        let p = present_ids(row.drop_last());
        if row.last() != 4294967295usize {
            p.push(row.last() as u32)
        } else {
            p
        }
    }
}

/// The present entries of the listed rows of a table, row after row.
pub open spec fn rows_ids(t: Seq<Seq<usize>>, rows: Seq<usize>) -> Seq<u32>
    decreases rows.len(),
{
    if rows.len() == 0 {
        Seq::empty()
    } else {
        rows_ids(t, rows.drop_last()) + present_ids(t[rows.last() as int])
    }
}

/// A search in progress: the results, which of them arrived since the last
/// look, the similarity a candidate has to beat, and how many replacements
/// the current look has made.
pub struct SearchState {
    pub nns: Seq<usize>,
    pub flags: Seq<bool>,
    pub threshold: i64,
    pub work: nat,
}

/// Offers one candidate to a search: a data point more similar to the query
/// than the threshold, and not among the results, replaces the first least
/// similar result and is flagged new; the threshold becomes the least
/// similarity of the results.
pub open spec fn try_candidate(dao: Dao, q: Seq<i8>, st: SearchState, id: usize) -> SearchState {
    let s = spec_similarity(dao.embeddings@[id as int]@, q) as i64;
    if s > st.threshold && !st.nns.contains(id) {
        let sims = query_sims(dao, st.nns, q);
        let p = first_min_pos(sims, sims.len() as int);
        let nns = st.nns.update(p, id);
        SearchState {
            nns,
            flags: st.flags.update(p, true),
            threshold: least_sim(query_sims(dao, nns, q)),
            work: st.work + 1,
        }
    } else {
        st
    }
}

/// Offers the candidates one after the other.
pub open spec fn try_candidates(dao: Dao, q: Seq<i8>, st: SearchState, ids: Seq<u32>) -> SearchState
    decreases ids.len(),
{
    if ids.len() == 0 {
        st
    } else {
        try_candidate(dao, q, try_candidates(dao, q, st, ids.drop_last()), ids.last() as usize)
    }
}

/// One look of a search through forward table `fwd` and reverse table
/// `rvs`: the results flagged new are taken, all flags are cleared, and the
/// forward neighbours and then the reverse neighbours of those results are
/// offered as candidates.
pub open spec fn search_look(fwd: Seq<Seq<usize>>, rvs: Seq<Seq<usize>>, dao: Dao, q: Seq<i8>, st: SearchState) -> SearchState {
    let these = positions_where(st.flags, true).map_values(|p: usize| st.nns[p as int]);
    let ids = rows_ids(fwd, these) + rows_ids(rvs, these);
    let cleared = SearchState {
        nns: st.nns,
        flags: Seq::new(st.flags.len(), |i: int| false),
        threshold: st.threshold,
        work: 0,
    };
    try_candidates(dao, q, cleared, ids)
}

/// Looks, one after the other, until one replaces nothing or `more` further
/// looks have been made.
pub open spec fn search_looks(
    fwd: Seq<Seq<usize>>,
    rvs: Seq<Seq<usize>>,
    dao: Dao,
    q: Seq<i8>,
    st: SearchState,
    more: nat,
) -> SearchState
    decreases more,
{
    let next = search_look(fwd, rvs, dao, q, st);
    if next.work == 0 || more == 0 {
        next
    } else {
        search_looks(fwd, rvs, dao, q, next, (more - 1) as nat)
    }
}

/// A search started from `start`: every point flagged new, and the
/// threshold the least similarity of the points to the query.
pub open spec fn search_start(dao: Dao, q: Seq<i8>, start: Seq<usize>) -> SearchState {
    SearchState {
        nns: start,
        flags: Seq::new(start.len(), |i: int| true),
        threshold: least_sim(query_sims(dao, start, q)),
        work: 0,
    }
}

/// Point `x` is among the results `nns`, or no more similar to the query
/// than the least similar of them.
pub open spec fn covered(dao: Dao, q: Seq<i8>, nns: Seq<usize>, x: usize) -> bool {
    nns.contains(x) || spec_similarity(dao.embeddings@[x as int]@, q) <= least_sim(query_sims(dao, nns, q))
}

/// Every present forward and reverse neighbour of point `r` is covered by
/// the results `nns`.
pub open spec fn neighbours_covered(
    fwd: Seq<Seq<usize>>,
    rvs: Seq<Seq<usize>>,
    dao: Dao,
    q: Seq<i8>,
    nns: Seq<usize>,
    r: usize,
) -> bool {
    &&& forall|c: int|
        0 <= c < fwd[r as int].len() && fwd[r as int][c] != 4294967295usize ==> covered(dao, q, nns, #[trigger] fwd[r as int][c])
    &&& forall|c: int|
        0 <= c < rvs[r as int].len() && rvs[r as int][c] != 4294967295usize ==> covered(dao, q, nns, #[trigger] rvs[r as int][c])
}

/// The similarity of a data point to a query lies within plus or minus the
/// dimension.
proof fn lemma_query_sim_bounded(dao: Dao, q: Seq<i8>, x: usize)
    requires
        dao.wf(),
        x < dao.num_data,
        q.len() == dao.dim,
        is_ternary(q),
    ensures
        -(dao.dim as int) <= spec_similarity(dao.embeddings@[x as int]@, q) <= dao.dim,
{
    lemma_similarity_bounded(dao.embeddings@[x as int]@, q);
}

/// Offering a candidate keeps the threshold at the least similarity of the
/// results, leaves the candidate covered, and keeps every covered point
/// covered: a point can leave the results only as their least similar one,
/// and the least similarity never falls.
proof fn lemma_try_candidate_covers(dao: Dao, q: Seq<i8>, st: SearchState, id: usize)
    requires
        dao.wf(),
        q.len() == dao.dim,
        is_ternary(q),
        st.nns.len() > 0,
        forall|i: int| 0 <= i < st.nns.len() ==> #[trigger] st.nns[i] < dao.num_data,
        id < dao.num_data,
        st.threshold == least_sim(query_sims(dao, st.nns, q)),
    ensures
        try_candidate(dao, q, st, id).threshold == least_sim(query_sims(dao, try_candidate(dao, q, st, id).nns, q)),
        covered(dao, q, try_candidate(dao, q, st, id).nns, id),
        forall|x: usize|
            x < dao.num_data && covered(dao, q, st.nns, x) ==> #[trigger] covered(dao, q, try_candidate(dao, q, st, id).nns, x),
{
    let k = st.nns.len() as int;
    let sims = query_sims(dao, st.nns, q);
    let after = try_candidate(dao, q, st, id);
    lemma_first_min_pos(sims, k);
    lemma_query_sim_bounded(dao, q, id);
    let s = spec_similarity(dao.embeddings@[id as int]@, q);
    if s as i64 > st.threshold && !st.nns.contains(id) {
        let p = first_min_pos(sims, k);
        let nns2 = st.nns.update(p, id);
        let sims2 = query_sims(dao, nns2, q);
        assert(sims2 =~= sims.update(p, s as i64));
        lemma_first_min_pos(sims2, k);
        let least2 = least_sim(sims2);
        assert(least2 >= st.threshold) by {
            let m = first_min_pos(sims2, k);
            if m != p {
                assert(sims2[m] == sims[m]);
            }
        }
        assert(nns2[p] == id);
        assert forall|x: usize| x < dao.num_data && covered(dao, q, st.nns, x) implies #[trigger] covered(dao, q, nns2, x) by {
            lemma_query_sim_bounded(dao, q, x);
            if st.nns.contains(x) {
                let j = choose|j: int| 0 <= j < k && st.nns[j] == x;
                if j != p {
                    assert(nns2[j] == x);
                } else {
                    assert(sims[p] == spec_similarity(dao.embeddings@[x as int]@, q) as i64);
                }
            }
        }
    }
}

/// A position holding `b` is listed by `positions_where`.
proof fn lemma_positions_where_has(f: Seq<bool>, b: bool, p: int)
    requires
        0 <= p < f.len(),
        f[p] == b,
        f.len() <= usize::MAX,
    ensures
        positions_where(f, b).contains(p as usize),
    decreases f.len(),
{
    let w = positions_where(f, b);
    if p == f.len() - 1 {
        assert(w[w.len() - 1] == p as usize);
    } else {
        lemma_positions_where_has(f.drop_last(), b, p);
        let w0 = positions_where(f.drop_last(), b);
        let j = choose|j: int| 0 <= j < w0.len() && w0[j] == p as usize;
        assert(w[j] == p as usize);
    }
}

/// A present entry of a row is among its present ids.
proof fn lemma_present_ids_has(row: Seq<usize>, c: int)
    requires
        0 <= c < row.len(),
        row[c] != 4294967295usize,
    ensures
        present_ids(row).contains(row[c] as u32),
    decreases row.len(),
{
    let w = present_ids(row);
    if c == row.len() - 1 {
        assert(w[w.len() - 1] == row[c] as u32);
    } else {
        lemma_present_ids_has(row.drop_last(), c);
        let w0 = present_ids(row.drop_last());
        assert(row.drop_last()[c] == row[c]);
        let j = choose|j: int| 0 <= j < w0.len() && w0[j] == row[c] as u32;
        assert(w[j] == row[c] as u32);
    }
}

/// A present entry of a listed row is among the rows' present ids.
proof fn lemma_rows_ids_has(t: Seq<Seq<usize>>, rows: Seq<usize>, i: int, c: int)
    requires
        0 <= i < rows.len(),
        0 <= c < t[rows[i] as int].len(),
        t[rows[i] as int][c] != 4294967295usize,
    ensures
        rows_ids(t, rows).contains(t[rows[i] as int][c] as u32),
    decreases rows.len(),
{
    let v = t[rows[i] as int][c] as u32;
    let a = rows_ids(t, rows.drop_last());
    let b = present_ids(t[rows.last() as int]);
    assert(rows_ids(t, rows) == a + b);
    if i == rows.len() - 1 {
        lemma_present_ids_has(t[rows.last() as int], c);
        let j = choose|j: int| 0 <= j < b.len() && b[j] == v;
        assert((a + b)[a.len() + j] == v);
    } else {
        assert(rows.drop_last()[i] == rows[i]);
        lemma_rows_ids_has(t, rows.drop_last(), i, c);
        let j = choose|j: int| 0 <= j < a.len() && a[j] == v;
        assert((a + b)[j] == v);
    }
}

/// Covered points stay covered, so the neighbours of a point stay covered.
proof fn lemma_neighbours_stay_covered(
    fwd: Seq<Seq<usize>>,
    rvs: Seq<Seq<usize>>,
    dao: Dao,
    q: Seq<i8>,
    before: Seq<usize>,
    after: Seq<usize>,
    r: usize,
)
    requires
        forall|x: usize| x < dao.num_data && covered(dao, q, before, x) ==> #[trigger] covered(dao, q, after, x),
        neighbours_covered(fwd, rvs, dao, q, before, r),
        forall|c: int| 0 <= c < fwd[r as int].len() ==> #[trigger] fwd[r as int][c] < dao.num_data,
        forall|c: int|
            0 <= c < rvs[r as int].len() && rvs[r as int][c] != 4294967295usize ==> #[trigger] rvs[r as int][c] < dao.num_data,
    ensures
        neighbours_covered(fwd, rvs, dao, q, after, r),
{
    assert forall|c: int| 0 <= c < fwd[r as int].len() && fwd[r as int][c] != 4294967295usize implies covered(dao, q, after, #[trigger] fwd[r as int][c]) by {
        assert(covered(dao, q, before, fwd[r as int][c]));
    }
    assert forall|c: int| 0 <= c < rvs[r as int].len() && rvs[r as int][c] != 4294967295usize implies covered(dao, q, after, #[trigger] rvs[r as int][c]) by {
        assert(covered(dao, q, before, rvs[r as int][c]));
    }
}

/// When every offered candidate is covered, so are the neighbours of every
/// point whose neighbours were offered.
proof fn lemma_look_covers(
    fwd: Seq<Seq<usize>>,
    rvs: Seq<Seq<usize>>,
    dao: Dao,
    q: Seq<i8>,
    nns: Seq<usize>,
    these: Seq<usize>,
    ids: Seq<u32>,
    i: int,
)
    requires
        ids == rows_ids(fwd, these) + rows_ids(rvs, these),
        0 <= i < these.len(),
        dao.num_data <= u32::MAX,
        forall|j: int| 0 <= j < ids.len() ==> covered(dao, q, nns, #[trigger] ids[j] as usize),
        forall|c: int| 0 <= c < fwd[these[i] as int].len() ==> #[trigger] fwd[these[i] as int][c] < dao.num_data,
        forall|c: int|
            0 <= c < rvs[these[i] as int].len() && rvs[these[i] as int][c] != 4294967295usize
                ==> #[trigger] rvs[these[i] as int][c] < dao.num_data,
    ensures
        neighbours_covered(fwd, rvs, dao, q, nns, these[i]),
{
    let r = these[i];
    let a = rows_ids(fwd, these);
    let b = rows_ids(rvs, these);
    assert forall|c: int| 0 <= c < fwd[r as int].len() && fwd[r as int][c] != 4294967295usize implies covered(dao, q, nns, #[trigger] fwd[r as int][c]) by {
        let x = fwd[r as int][c];
        lemma_rows_ids_has(fwd, these, i, c);
        let j = choose|j: int| 0 <= j < a.len() && a[j] == x as u32;
        assert(ids[j] == x as u32);
        assert(ids[j] as usize == x);
    }
    assert forall|c: int| 0 <= c < rvs[r as int].len() && rvs[r as int][c] != 4294967295usize implies covered(dao, q, nns, #[trigger] rvs[r as int][c]) by {
        let x = rvs[r as int][c];
        lemma_rows_ids_has(rvs, these, i, c);
        let j = choose|j: int| 0 <= j < b.len() && b[j] == x as u32;
        assert(ids[a.len() + j] == x as u32);
        assert(ids[a.len() + j] as usize == x);
    }
}

impl RDescentWithRev {
    /// The results of a search from `start`: looks are made until one
    /// replaces nothing. Each look that replaces something lowers the sum
    /// of what the results' similarities fall short of `dim`, so the start's
    /// such sum bounds the number of looks after the first.
    pub open spec fn search_outcome(&self, dao: Dao, q: Seq<i8>, start: Seq<usize>) -> Seq<usize> {
        search_looks(
            usize_rows(self.rdescent.neighbours),
            usize_rows(self.reverse_neighbours),
            dao,
            q,
            search_start(dao, q, start),
            sum_slack(query_sims(dao, start, q), dao.dim as int) as nat,
        ).nns
    }
}

impl RDescentWithRev {
    /// The tables fit a data set of `n` points: one row per point, forward
    /// ids below `n`, reverse ids below `n` or `u32::MAX` for a missing entry.
    pub open spec fn fits(&self, n: nat) -> bool {
        let f = usize_rows(self.rdescent.neighbours);
        let rv = usize_rows(self.reverse_neighbours);
        &&& f.len() == n
        &&& rv.len() == n
        &&& forall|r: int, c: int| 0 <= r < n && 0 <= c < f[r].len() ==> (#[trigger] f[r][c]) < n
        &&& forall|r: int, c: int|
            0 <= r < n && 0 <= c < rv[r].len() ==> (#[trigger] rv[r][c]) < n || rv[r][c] == u32::MAX
    }

    /// Searches for data points similar to `query` by descent through the
    /// forward and reverse tables, starting from the points `start`. It
    /// repeatedly looks at the forward and reverse neighbours of the results
    /// found since the last look (all of them at first): a neighbour more
    /// similar to the query than the current threshold, and not among the
    /// results yet, replaces the first least similar result. The threshold
    /// is always the least similarity of the results to the query: it
    /// starts at the least similarity of the starting points, whatever
    /// their order. The search stops
    /// after a look that replaces nothing; its results are `search_outcome`.
    ///
    /// It always ends, since every replacement raises the results' total
    /// similarity to the query. It returns as many data points as it was
    /// given, no point twice when the start has none twice, and neither the
    /// least nor the total similarity to the query falls below the start's.
    /// Every present forward or reverse neighbour of a returned point is
    /// returned too or is no more similar to the query than the least
    /// similar returned point (`neighbours_covered`).
    pub fn rev_search_from(&self, query: &Vec<i8>, dao: &Dao, start: Vec<usize>) -> (r: Vec<usize>)
        requires
            dao.wf(),
            start.len() > 0,
            forall|i: int| 0 <= i < start.len() ==> #[trigger] start@[i] < dao.num_data,
            query.len() == dao.dim,
            is_ternary(query@),
            self.fits(dao.num_data as nat),
        ensures
            r.len() == start.len(),
            forall|i: int| 0 <= i < r.len() ==> #[trigger] r@[i] < dao.num_data,
            start@.no_duplicates() ==> r@.no_duplicates(),
            least_sim(query_sims(*dao, r@, query@)) >= least_sim(query_sims(*dao, start@, query@)),
            seq_sum(query_sims(*dao, r@, query@)) >= seq_sum(query_sims(*dao, start@, query@)),
            r@ == self.search_outcome(*dao, query@, start@),
            forall|i: int|
                0 <= i < r.len() ==> neighbours_covered(
                    usize_rows(self.rdescent.neighbours),
                    usize_rows(self.reverse_neighbours),
                    *dao,
                    query@,
                    r@,
                    #[trigger] r@[i],
                ),
    {
        let n = dao.num_data;
        let k = start.len();
        let ghost fwd = usize_rows(self.rdescent.neighbours);
        let ghost rvs = usize_rows(self.reverse_neighbours);
        let ghost b = dao.dim as int;
        let ghost qv = query@;
        let mut q_nns: Vec<usize> = start;
        let ghost s0 = q_nns@;
        let mut q_sims: Vec<i64> = Vec::new();
        let mut i: usize = 0;
        while i < k
            invariant
                dao.wf(),
                n == dao.num_data,
                query.len() == dao.dim,
                is_ternary(query@),
                qv == query@,
                b == dao.dim as int,
                q_nns@ == s0,
                k == s0.len(),
                forall|j: int| 0 <= j < k ==> #[trigger] s0[j] < n,
                i <= k,
                q_sims@ == query_sims(*dao, s0.take(i as int), qv),
                forall|j: int| 0 <= j < i ==> #[trigger] q_sims@[j] <= b,
            decreases k - i,
        {
            let s = dao.similarity_to(q_nns[i], query);
            q_sims.push(s);
            i = i + 1;
            assert(q_sims@ =~= query_sims(*dao, s0.take(i as int), qv));
        }
        assert(s0.take(k as int) =~= s0);
        let ghost least0 = least_sim(q_sims@);
        let ghost sum0 = seq_sum(q_sims@);
        let mut new_flags: Vec<bool> = Vec::new();
        let mut j: usize = 0;
        while j < k
            invariant
                j <= k,
                new_flags@ == Seq::new(j as nat, |i: int| true),
            decreases k - j,
        {
            new_flags.push(true);
            j = j + 1;
            assert(new_flags@ =~= Seq::new(j as nat, |i: int| true));
        }
        let (_, least_start) = min_index_and_value(&q_sims);
        let mut current_min_sim = least_start;
        let ghost target = search_looks(fwd, rvs, *dao, qv, search_start(*dao, qv, s0), sum_slack(q_sims@, b) as nat);
        let ghost mut more: nat = sum_slack(q_sims@, b) as nat;
        proof {
            lemma_first_min_pos(q_sims@, k as int);
            lemma_sum_slack_nonneg(q_sims@, b);
            lemma_sum_slack_sum(q_sims@, b);
            assert(search_start(*dao, qv, s0) == SearchState { nns: q_nns@, flags: new_flags@, threshold: current_min_sim, work: 0 });
        }
        let mut work_done: usize = 1;
        while work_done > 0
            invariant
                dao.wf(),
                n == dao.num_data,
                query.len() == dao.dim,
                is_ternary(query@),
                qv == query@,
                self.fits(n as nat),
                fwd == usize_rows(self.rdescent.neighbours),
                rvs == usize_rows(self.reverse_neighbours),
                b == dao.dim as int,
                k > 0,
                q_nns.len() == k,
                q_sims.len() == k,
                new_flags.len() == k,
                forall|j: int| 0 <= j < k ==> #[trigger] q_nns@[j] < n,
                forall|j: int| 0 <= j < k ==> #[trigger] q_sims@[j] <= b,
                q_sims@ == query_sims(*dao, q_nns@, qv),
                s0.no_duplicates() ==> q_nns@.no_duplicates(),
                least_sim(q_sims@) >= least0,
                seq_sum(q_sims@) >= sum0,
                current_min_sim == least_sim(q_sims@),
                sum_slack(q_sims@, b) >= 0,
                more >= sum_slack(q_sims@, b),
                forall|p: int|
                    0 <= p < k ==> new_flags@[p] || neighbours_covered(fwd, rvs, *dao, qv, q_nns@, #[trigger] q_nns@[p]),
                work_done == 0 ==> forall|p: int| 0 <= p < k ==> !#[trigger] new_flags@[p],
                work_done > 0 ==> search_looks(fwd, rvs, *dao, qv,
                    (SearchState { nns: q_nns@, flags: new_flags@, threshold: current_min_sim, work: 0 }), more) == target,
                work_done == 0 ==> q_nns@ == target.nns,
            decreases sum_slack(q_sims@, b), if work_done > 0 { 1int } else { 0int },
        {
            let ghost slack_start = sum_slack(q_sims@, b);
            let ghost cur = SearchState { nns: q_nns@, flags: new_flags@, threshold: current_min_sim, work: 0 };
            work_done = 0;
            let selectors = get_selectors_from_flags(&new_flags, true);
            proof {
                crate::phases::lemma_positions_where_bounded(new_flags@, true);
            }
            let ghost these_spec = positions_where(cur.flags, true).map_values(|p: usize| cur.nns[p as int]);
            let mut these_q_nns: Vec<usize> = Vec::new();
            let mut s: usize = 0;
            while s < selectors.len()
                invariant
                    q_nns.len() == k,
                    new_flags.len() == k,
                    q_nns@ == cur.nns,
                    selectors@ == positions_where(cur.flags, true),
                    these_spec == positions_where(cur.flags, true).map_values(|p: usize| cur.nns[p as int]),
                    forall|j: int| 0 <= j < k ==> #[trigger] q_nns@[j] < n,
                    forall|j: int| 0 <= j < selectors.len() ==> #[trigger] selectors@[j] < k,
                    s <= selectors.len(),
                    these_q_nns@ == these_spec.take(s as int),
                    forall|j: int| 0 <= j < these_q_nns.len() ==> #[trigger] these_q_nns@[j] < n,
                decreases selectors.len() - s,
            {
                these_q_nns.push(q_nns[selectors[s]]);
                s = s + 1;
                assert(these_q_nns@ =~= these_spec.take(s as int));
            }
            assert(these_q_nns@ =~= these_spec);
            let mut f: usize = 0;
            while f < k
                invariant
                    f <= k,
                    new_flags.len() == k,
                    forall|j: int| 0 <= j < f ==> !#[trigger] new_flags@[j],
                decreases k - f,
            {
                new_flags.set(f, false);
                f = f + 1;
            }
            assert(new_flags@ =~= Seq::new(k as nat, |i: int| false));
            let all_ids = self.neighbour_ids(&these_q_nns, n);
            let ghost cleared = SearchState {
                nns: cur.nns,
                flags: Seq::new(cur.flags.len(), |i: int| false),
                threshold: cur.threshold,
                work: 0,
            };
            assert(SearchState { nns: q_nns@, flags: new_flags@, threshold: current_min_sim, work: work_done as nat }
                == try_candidates(*dao, qv, cleared, all_ids@.take(0)));
            // try each candidate
            let mut ni: usize = 0;
            while ni < all_ids.len()
                invariant
                    dao.wf(),
                    n == dao.num_data,
                    query.len() == dao.dim,
                    is_ternary(query@),
                    qv == query@,
                    b == dao.dim as int,
                    k > 0,
                    q_nns.len() == k,
                    q_sims.len() == k,
                    new_flags.len() == k,
                    forall|j: int| 0 <= j < k ==> #[trigger] q_nns@[j] < n,
                    forall|j: int| 0 <= j < k ==> #[trigger] q_sims@[j] <= b,
                    forall|j: int| 0 <= j < all_ids.len() ==> #[trigger] all_ids@[j] < n,
                    q_sims@ == query_sims(*dao, q_nns@, qv),
                    s0.no_duplicates() ==> q_nns@.no_duplicates(),
                    least_sim(q_sims@) >= least0,
                    seq_sum(q_sims@) >= sum0,
                    current_min_sim == least_sim(q_sims@),
                    self.fits(n as nat),
                    fwd == usize_rows(self.rdescent.neighbours),
                    rvs == usize_rows(self.reverse_neighbours),
                    cur.nns.len() == k,
                    cur.flags.len() == k,
                    forall|j: int| 0 <= j < ni ==> covered(*dao, qv, q_nns@, #[trigger] all_ids@[j] as usize),
                    forall|p: int|
                        0 <= p < k ==> new_flags@[p] || neighbours_covered(fwd, rvs, *dao, qv, q_nns@, #[trigger] q_nns@[p])
                            || (cur.flags[p] && q_nns@[p] == cur.nns[p]),
                    work_done == 0 ==> forall|p: int| 0 <= p < k ==> !#[trigger] new_flags@[p],
                    ni <= all_ids.len(),
                    work_done <= ni,
                    sum_slack(q_sims@, b) + work_done <= slack_start,
                    sum_slack(q_sims@, b) >= 0,
                    (SearchState { nns: q_nns@, flags: new_flags@, threshold: current_min_sim, work: work_done as nat })
                        == try_candidates(*dao, qv, cleared, all_ids@.take(ni as int)),
                decreases all_ids.len() - ni,
            {
                let ghost st = SearchState { nns: q_nns@, flags: new_flags@, threshold: current_min_sim, work: work_done as nat };
                assert(all_ids@.take(ni as int + 1).drop_last() =~= all_ids@.take(ni as int));
                let this_id = all_ids[ni] as usize;
                let this_sim = dao.similarity_to(this_id, query);
                if this_sim > current_min_sim {
                    let mut present = false;
                    let mut p: usize = 0;
                    while p < k
                        invariant
                            q_nns.len() == k,
                            p <= k,
                            present == q_nns@.take(p as int).contains(this_id),
                        decreases k - p,
                    {
                        assert(q_nns@.take(p as int + 1) =~= q_nns@.take(p as int).push(q_nns@[p as int]));
                        proof {
                            crate::evaluation::lemma_push_contains(q_nns@.take(p as int), q_nns@[p as int]);
                        }
                        if q_nns[p] == this_id {
                            present = true;
                        }
                        p = p + 1;
                    }
                    assert(q_nns@.take(k as int) =~= q_nns@);
                    if !present {
                        let (position, _) = min_index_and_value(&q_sims);
                        let ghost old_nns = q_nns@;
                        let ghost old_sims = q_sims@;
                        proof {
                            lemma_first_min_pos(q_sims@, k as int);
                            lemma_sum_slack_update(q_sims@, b, position as int, this_sim);
                            lemma_sum_slack_sum(q_sims@, b);
                        }
                        q_nns.set(position, this_id);
                        q_sims.set(position, this_sim);
                        new_flags.set(position, true);
                        proof {
                            assert(q_sims@ =~= query_sims(*dao, q_nns@, qv));
                            lemma_sum_slack_sum(q_sims@, b);
                            lemma_first_min_pos(q_sims@, k as int);
                            let m = first_min_pos(q_sims@, k as int);
                            if m != position as int {
                                assert(q_sims@[m] == old_sims[m]);
                            }
                            if s0.no_duplicates() {
                                assert forall|a: int, c: int| 0 <= a < k && 0 <= c < k && a != c implies q_nns@[a] != q_nns@[c] by {
                                    if a == position as int {
                                        assert(q_nns@[c] == old_nns[c]);
                                        assert(old_nns.contains(old_nns[c]));
                                    } else if c == position as int {
                                        assert(q_nns@[a] == old_nns[a]);
                                        assert(old_nns.contains(old_nns[a]));
                                    }
                                }
                            }
                        }
                        let (_, min) = min_index_and_value(&q_sims);
                        current_min_sim = min;
                        proof {
                            lemma_sum_slack_nonneg(q_sims@, b);
                        }
                        work_done = work_done + 1;
                    }
                }
                ni = ni + 1;
                assert(SearchState { nns: q_nns@, flags: new_flags@, threshold: current_min_sim, work: work_done as nat }
                    == try_candidate(*dao, qv, st, this_id));
                proof {
                    lemma_try_candidate_covers(*dao, qv, st, this_id);
                    assert forall|j: int| 0 <= j < ni implies covered(*dao, qv, q_nns@, #[trigger] all_ids@[j] as usize) by {
                        if j < ni - 1 {
                            assert(covered(*dao, qv, st.nns, all_ids@[j] as usize));
                        }
                    }
                    assert forall|p: int| 0 <= p < k implies new_flags@[p] || neighbours_covered(fwd, rvs, *dao, qv, q_nns@, #[trigger] q_nns@[p])
                        || (cur.flags[p] && q_nns@[p] == cur.nns[p]) by {
                        if !new_flags@[p] {
                            assert(q_nns@[p] == st.nns[p]);
                            assert(!st.flags[p]);
                            let r = st.nns[p];
                            assert(fwd[r as int] == self.rdescent.neighbours@[r as int]@);
                            if neighbours_covered(fwd, rvs, *dao, qv, st.nns, r) {
                                lemma_neighbours_stay_covered(fwd, rvs, *dao, qv, st.nns, q_nns@, r);
                            }
                        }
                    }
                }
            }
            proof {
                assert forall|p: int| 0 <= p < k implies new_flags@[p] || neighbours_covered(fwd, rvs, *dao, qv, q_nns@, #[trigger] q_nns@[p]) by {
                    if !new_flags@[p] && !neighbours_covered(fwd, rvs, *dao, qv, q_nns@, q_nns@[p]) {
                        lemma_positions_where_has(cur.flags, true, p);
                        let w = positions_where(cur.flags, true);
                        let i = choose|i: int| 0 <= i < w.len() && w[i] == p as usize;
                        assert(these_spec[i] == cur.nns[p]);
                        lemma_look_covers(fwd, rvs, *dao, qv, q_nns@, these_spec, all_ids@, i);
                    }
                }
            }
            proof {
                assert(all_ids@.take(ni as int) =~= all_ids@);
                let next = SearchState { nns: q_nns@, flags: new_flags@, threshold: current_min_sim, work: work_done as nat };
                assert(next == search_look(fwd, rvs, *dao, qv, cur));
                if work_done > 0 {
                    assert(more > 0);
                    let next0 = SearchState { nns: q_nns@, flags: new_flags@, threshold: current_min_sim, work: 0 };
                    assert(search_look(fwd, rvs, *dao, qv, next0) == search_look(fwd, rvs, *dao, qv, next));
                    assert(search_looks(fwd, rvs, *dao, qv, next0, (more - 1) as nat)
                        == search_looks(fwd, rvs, *dao, qv, next, (more - 1) as nat));
                    more = (more - 1) as nat;
                }
            }
        }
        q_nns
    }

    /// The forward neighbours, then the reverse neighbours, of the given
    /// points, without the `u32::MAX` marks of missing entries.
    fn neighbour_ids(&self, these_q_nns: &Vec<usize>, n: usize) -> (all_ids: Vec<u32>)
        requires
            self.fits(n as nat),
            n <= u32::MAX,
            forall|j: int| 0 <= j < these_q_nns.len() ==> #[trigger] these_q_nns@[j] < n,
        ensures
            all_ids@ == rows_ids(usize_rows(self.rdescent.neighbours), these_q_nns@)
                + rows_ids(usize_rows(self.reverse_neighbours), these_q_nns@),
            forall|j: int| 0 <= j < all_ids.len() ==> #[trigger] all_ids@[j] < n,
    {
        let ghost fwd = usize_rows(self.rdescent.neighbours);
        let ghost rvs = usize_rows(self.reverse_neighbours);
        let ghost these = these_q_nns@;
        let mut all_ids: Vec<u32> = Vec::new();
        let mut x: usize = 0;
        while x < these_q_nns.len()
            invariant
                self.fits(n as nat),
                fwd == usize_rows(self.rdescent.neighbours),
                these == these_q_nns@,
                n <= u32::MAX,
                forall|j: int| 0 <= j < these_q_nns.len() ==> #[trigger] these_q_nns@[j] < n,
                x <= these_q_nns.len(),
                all_ids@ == rows_ids(fwd, these.take(x as int)),
                forall|j: int| 0 <= j < all_ids.len() ==> #[trigger] all_ids@[j] < n,
            decreases these_q_nns.len() - x,
        {
            let row = these_q_nns[x];
            assert(fwd[row as int] == self.rdescent.neighbours@[row as int]@);
            let ghost before = all_ids@;
            let mut c: usize = 0;
            while c < self.rdescent.neighbours[row].len()
                invariant
                    self.fits(n as nat),
                    fwd == usize_rows(self.rdescent.neighbours),
                    n <= u32::MAX,
                    row < n,
                    fwd[row as int] == self.rdescent.neighbours@[row as int]@,
                    c <= self.rdescent.neighbours@[row as int].len(),
                    all_ids@ == before + present_ids(fwd[row as int].take(c as int)),
                    forall|j: int| 0 <= j < all_ids.len() ==> #[trigger] all_ids@[j] < n,
                decreases self.rdescent.neighbours@[row as int].len() - c,
            {
                let id = self.rdescent.neighbours[row][c];
                assert(id == fwd[row as int][c as int]);
                assert(fwd[row as int].take(c as int + 1).drop_last() =~= fwd[row as int].take(c as int));
                if id != 4294967295usize {
                    all_ids.push(id as u32);
                }
                c = c + 1;
                assert(all_ids@ =~= before + present_ids(fwd[row as int].take(c as int)));
            }
            assert(fwd[row as int].take(c as int) =~= fwd[row as int]);
            assert(these.take(x as int + 1).drop_last() =~= these.take(x as int));
            x = x + 1;
            assert(all_ids@ =~= rows_ids(fwd, these.take(x as int)));
        }
        assert(these.take(x as int) =~= these);
        let ghost forward_part = all_ids@;
        let mut x: usize = 0;
        while x < these_q_nns.len()
            invariant
                self.fits(n as nat),
                rvs == usize_rows(self.reverse_neighbours),
                these == these_q_nns@,
                n <= u32::MAX,
                forall|j: int| 0 <= j < these_q_nns.len() ==> #[trigger] these_q_nns@[j] < n,
                x <= these_q_nns.len(),
                all_ids@ == forward_part + rows_ids(rvs, these.take(x as int)),
                forall|j: int| 0 <= j < all_ids.len() ==> #[trigger] all_ids@[j] < n,
            decreases these_q_nns.len() - x,
        {
            let row = these_q_nns[x];
            assert(rvs[row as int] == self.reverse_neighbours@[row as int]@);
            let ghost before = all_ids@;
            let mut c: usize = 0;
            while c < self.reverse_neighbours[row].len()
                invariant
                    self.fits(n as nat),
                    rvs == usize_rows(self.reverse_neighbours),
                    n <= u32::MAX,
                    row < n,
                    rvs[row as int] == self.reverse_neighbours@[row as int]@,
                    c <= self.reverse_neighbours@[row as int].len(),
                    all_ids@ == before + present_ids(rvs[row as int].take(c as int)),
                    forall|j: int| 0 <= j < all_ids.len() ==> #[trigger] all_ids@[j] < n,
                decreases self.reverse_neighbours@[row as int].len() - c,
            {
                let id = self.reverse_neighbours[row][c];
                assert(id == rvs[row as int][c as int]);
                assert(rvs[row as int].take(c as int + 1).drop_last() =~= rvs[row as int].take(c as int));
                if id != 4294967295usize {
                    all_ids.push(id as u32);
                }
                c = c + 1;
                assert(all_ids@ =~= before + present_ids(rvs[row as int].take(c as int)));
            }
            assert(rvs[row as int].take(c as int) =~= rvs[row as int]);
            assert(these.take(x as int + 1).drop_last() =~= these.take(x as int));
            x = x + 1;
            assert(all_ids@ =~= forward_part + rows_ids(rvs, these.take(x as int)));
        }
        assert(these.take(x as int) =~= these);
        all_ids
    }
}

/// Searching a data set through neighbour tables.
pub trait RevSearch {
    /// The searches the tables can serve: a query of the data set's
    /// dimension, and a positive number of results from a non-empty data set
    /// the tables fit.
    spec fn search_ready(&self, query: Seq<i8>, dao: Dao, num_neighbours: usize) -> bool;

    fn rev_search(&self, query: &Vec<i8>, dao: &Dao, num_neighbours: usize) -> (r: Vec<usize>)
        requires
            self.search_ready(query@, *dao, num_neighbours),
        ensures
            r.len() == num_neighbours,
            forall|i: int| 0 <= i < r.len() ==> #[trigger] r@[i] < dao.num_data,
    ;
}

impl RevSearch for RDescentWithRev {
    open spec fn search_ready(&self, query: Seq<i8>, dao: Dao, num_neighbours: usize) -> bool {
        &&& dao.wf()
        &&& dao.num_data > 0
        &&& num_neighbours > 0
        &&& query.len() == dao.dim
        &&& is_ternary(query)
        &&& self.fits(dao.num_data as nat)
    }

    /// Searches for data points similar to `query` by descent, starting
    /// from `num_neighbours` data points drawn at random (through
    /// `random_below`); see `rev_search_from`.
    fn rev_search(&self, query: &Vec<i8>, dao: &Dao, num_neighbours: usize) -> (r: Vec<usize>)
        ensures
            exists|start: Seq<usize>|
                start.len() == num_neighbours
                && (forall|i: int| 0 <= i < start.len() ==> #[trigger] start[i] < dao.num_data)
                && r@ == self.search_outcome(*dao, query@, start),
            forall|i: int|
                0 <= i < r.len() ==> neighbours_covered(
                    usize_rows(self.rdescent.neighbours),
                    usize_rows(self.reverse_neighbours),
                    *dao,
                    query@,
                    r@,
                    #[trigger] r@[i],
                ),
    {
        let n = dao.num_data;
        let mut start: Vec<usize> = Vec::new();
        let mut i: usize = 0;
        while i < num_neighbours
            invariant
                n == dao.num_data,
                n > 0,
                i <= num_neighbours,
                start.len() == i,
                forall|j: int| 0 <= j < i ==> #[trigger] start@[j] < n,
            decreases num_neighbours - i,
        {
            start.push(random_below(n));
            i = i + 1;
        }
        let ghost s = start@;
        let r = self.rev_search_from(query, dao, start);
        assert(s.len() == num_neighbours && (forall|i: int| 0 <= i < s.len() ==> #[trigger] s[i] < dao.num_data)
            && r@ == self.search_outcome(*dao, query@, s));
        r
    }

}

} // verus!
