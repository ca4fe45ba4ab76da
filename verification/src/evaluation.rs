use vstd::prelude::*;
use crate::dao::Dao;
use crate::sorting::{stable_order, is_stable_arg_sort, stable_arg_sort};

verus! {

/// `a` is smaller than `b` comparing similarity first, then id.
pub open spec fn lex_less(a: (i64, usize), b: (i64, usize)) -> bool {
    a.0 < b.0 || (a.0 == b.0 && a.1 < b.1)
}

/// The position of the first smallest pair (by `lex_less`) among the first `n`.
pub open spec fn lex_min_pos(h: Seq<(i64, usize)>, n: int) -> int
    decreases n,
{
    if n <= 1 {
        0
    } else {
        let m = lex_min_pos(h, n - 1);
        if lex_less(h[n - 1], h[m]) {
            n - 1
        } else {
            m
        }
    }
}

proof fn lemma_lex_min_pos(h: Seq<(i64, usize)>, n: int)
    requires
        1 <= n <= h.len(),
    ensures
        0 <= lex_min_pos(h, n) < n,
        forall|j: int| 0 <= j < n && j != lex_min_pos(h, n) ==> !lex_less(#[trigger] h[j], h[lex_min_pos(h, n)]),
    decreases n,
{
    if n > 1 {
        lemma_lex_min_pos(h, n - 1);
    }
}

/// One step of keeping the `cap` most similar points: while fewer than
/// `cap` are kept the point is added; otherwise, when it is strictly more
/// similar than the least similar kept point, it replaces the smallest kept
/// pair (least similarity, then smallest id).
pub open spec fn keep_step(h: Seq<(i64, usize)>, x: (i64, usize), cap: nat) -> Seq<(i64, usize)> {
    if h.len() < cap {
        h.push(x)
    } else if h.len() > 0 && x.0 > h[lex_min_pos(h, h.len() as int)].0 {
        h.remove(lex_min_pos(h, h.len() as int)).push(x)
    } else {
        h
    }
}

/// The pairs kept after offering `(sims[j], j)` for `j < n`, in order.
pub open spec fn kept_after(sims: Seq<i64>, n: int, cap: nat) -> Seq<(i64, usize)>
    decreases n,
{
    if n <= 0 {
        Seq::empty()
    } else {
        keep_step(kept_after(sims, n - 1, cap), (sims[n - 1], (n - 1) as usize), cap)
    }
}

/// The similarities of point `q` to every point, in id order.
pub open spec fn sims_from(dao: Dao, q: int) -> Seq<i64> {
    Seq::new(dao.num_data as nat, |j: int| dao.sim_i64(q, j))
}

/// The ids of the kept pairs, most similar first, ties in kept order.
pub open spec fn top_k_result(h: Seq<(i64, usize)>) -> Seq<usize> {
    let o = stable_order(h.map_values(|p: (i64, usize)| p.0), true);
    o.map_values(|i: usize| h[i as int].1)
}

/// The `k` points most similar to point `query_index` by brute force over
/// all points (the query among them): each point is offered in id order as
/// in `keep_step`, and the kept points are listed most similar first.
pub fn top_k_indices(dao: &Dao, query_index: usize, k: usize) -> (r: Vec<usize>)
    requires
        dao.wf(),
        query_index < dao.num_data,
        k > 0,
    ensures
        r@ == top_k_result(kept_after(sims_from(*dao, query_index as int), dao.num_data as int, k as nat)),
{
    let n = dao.num_data;
    let ghost sims = sims_from(*dao, query_index as int);
    let mut heap: Vec<(i64, usize)> = Vec::new();
    let mut j: usize = 0;
    while j < n
        invariant
            dao.wf(),
            n == dao.num_data,
            query_index < n,
            k > 0,
            sims == sims_from(*dao, query_index as int),
            j <= n,
            heap@ == kept_after(sims, j as int, k as nat),
        decreases n - j,
    {
        let sim = dao.similarity_between(query_index, j);
        assert(sim == sims[j as int]);
        let ghost h = heap@;
        if heap.len() < k {
            heap.push((sim, j));
        } else {
            let p = lex_min_position(&heap);
            if sim > heap[p].0 {
                heap.remove(p);
                heap.push((sim, j));
            }
        }
        j = j + 1;
    }
    let mut keys: Vec<i64> = Vec::new();
    let mut i: usize = 0;
    while i < heap.len()
        invariant
            i <= heap.len(),
            keys@ == heap@.take(i as int).map_values(|p: (i64, usize)| p.0),
        decreases heap.len() - i,
    {
        keys.push(heap[i].0);
        i = i + 1;
        assert(keys@ =~= heap@.take(i as int).map_values(|p: (i64, usize)| p.0));
    }
    assert(heap@.take(heap.len() as int) =~= heap@);
    let ords = stable_arg_sort(&keys, true);
    let mut r: Vec<usize> = Vec::new();
    let mut c: usize = 0;
    while c < ords.len()
        invariant
            keys@ == heap@.map_values(|p: (i64, usize)| p.0),
            is_stable_arg_sort(keys@, ords@, true),
            ords@ == stable_order(keys@, true),
            c <= ords.len(),
            r@ == ords@.take(c as int).map_values(|i: usize| heap@[i as int].1),
        decreases ords.len() - c,
    {
        r.push(heap[ords[c]].1);
        c = c + 1;
        assert(r@ =~= ords@.take(c as int).map_values(|i: usize| heap@[i as int].1));
    }
    assert(ords@.take(ords.len() as int) =~= ords@);
    r
}

/// The position of the first smallest pair.
fn lex_min_position(h: &Vec<(i64, usize)>) -> (p: usize)
    requires
        h.len() > 0,
    ensures
        p == lex_min_pos(h@, h.len() as int),
        p < h.len(),
{
    let mut pos: usize = 0;
    let mut i: usize = 1;
    while i < h.len()
        invariant
            1 <= i <= h.len(),
            pos == lex_min_pos(h@, i as int),
        decreases h.len() - i,
    {
        proof {
            lemma_lex_min_pos(h@, i as int);
        }
        if h[i].0 < h[pos].0 || (h[i].0 == h[pos].0 && h[i].1 < h[pos].1) {
            pos = i;
        }
        i = i + 1;
    }
    proof {
        lemma_lex_min_pos(h@, h.len() as int);
    }
    pos
}

} // verus!

verus! {

/// Whether some kept pair carries id `u`.
pub open spec fn kept_has(h: Seq<(i64, usize)>, u: int) -> bool {
    exists|i: int| 0 <= i < h.len() && (#[trigger] h[i]).1 == u
}

/// What offering the first `n` points keeps: at most `cap` pairs, each a
/// point below `n` with its similarity and no point twice; all points once
/// fewer than `cap` are kept; and every point left out is no more similar
/// than any kept point.
pub open spec fn kept_is_top(sims: Seq<i64>, n: int, cap: nat, h: Seq<(i64, usize)>) -> bool {
    &&& h.len() <= cap
    &&& h.len() <= n
    &&& forall|i: int| 0 <= i < h.len() ==> (#[trigger] h[i]).1 < n && h[i].0 == sims[h[i].1 as int]
    &&& forall|i: int, j: int| 0 <= i < h.len() && 0 <= j < h.len() && i != j ==> (#[trigger] h[i]).1 != (#[trigger] h[j]).1
    &&& h.len() < cap ==> forall|u: int| 0 <= u < n ==> #[trigger] kept_has(h, u)
    &&& forall|u: int, i: int|
        #![trigger kept_has(h, u), h[i]]
        0 <= u < n && !kept_has(h, u) && 0 <= i < h.len() ==> sims[u] <= h[i].0
}

/// Brute-force selection keeps the most similar points: of the first `n`
/// points it keeps `min(cap, n)` distinct ones, each with its similarity,
/// and no point left out is more similar than a kept one.
pub proof fn lemma_kept_after_is_top(sims: Seq<i64>, n: int, cap: nat)
    requires
        0 <= n <= sims.len(),
        n <= usize::MAX + 1,
        cap > 0,
    ensures
        kept_is_top(sims, n, cap, kept_after(sims, n, cap)),
        kept_after(sims, n, cap).len() == if n < cap { n } else { cap as int },
    decreases n,
{
    if n > 0 {
        lemma_kept_after_is_top(sims, n - 1, cap);
        let h = kept_after(sims, n - 1, cap);
        let x = (sims[n - 1], (n - 1) as usize);
        let h2 = kept_after(sims, n, cap);
        assert(h2 == keep_step(h, x, cap));
        assert(((n - 1) as usize) as int == n - 1);
        assert(!kept_has(h, n - 1)) by {
            if kept_has(h, n - 1) {
                let i = choose|i: int| 0 <= i < h.len() && (#[trigger] h[i]).1 == n - 1;
            }
        }
        if h.len() < cap {
            assert(h2 == h.push(x));
            assert forall|u: int| 0 <= u < n implies #[trigger] kept_has(h2, u) by {
                if u < n - 1 {
                    assert(kept_has(h, u));
                    let i = choose|i: int| 0 <= i < h.len() && (#[trigger] h[i]).1 == u;
                    assert(h2[i] == h[i]);
                } else {
                    assert(h2[h.len() as int] == x);
                }
            }
            assert forall|i: int, j: int| 0 <= i < h2.len() && 0 <= j < h2.len() && i != j implies (#[trigger] h2[i]).1 != (#[trigger] h2[j]).1 by {
                if i < h.len() && j < h.len() {
                } else if i < h.len() {
                    assert(h2[i] == h[i]);
                    assert(h[i].1 < n - 1);
                } else if j < h.len() {
                    assert(h2[j] == h[j]);
                    assert(h[j].1 < n - 1);
                }
            }
        } else {
            lemma_lex_min_pos(h, h.len() as int);
            let m = lex_min_pos(h, h.len() as int);
            assert forall|i: int| 0 <= i < h.len() implies h[m].0 <= (#[trigger] h[i]).0 by {
                if i != m {
                    assert(!lex_less(h[i], h[m]));
                }
            }
            if x.0 > h[m].0 {
                let hr = h.remove(m);
                assert(h2 == hr.push(x));
                assert forall|i: int| 0 <= i < hr.len() implies (#[trigger] hr[i]) == h[if i < m { i } else { i + 1 }] by {}
                assert forall|i: int| 0 <= i < h2.len() implies (#[trigger] h2[i]).1 < n && h2[i].0 == sims[h2[i].1 as int] by {
                    if i < hr.len() {
                        assert(h2[i] == hr[i]);
                        assert(hr[i] == h[if i < m { i } else { i + 1 }]);
                    }
                }
                assert forall|i: int, j: int| 0 <= i < h2.len() && 0 <= j < h2.len() && i != j implies (#[trigger] h2[i]).1 != (#[trigger] h2[j]).1 by {
                    if i < hr.len() && j < hr.len() {
                        assert(h2[i] == h[if i < m { i } else { i + 1 }]);
                        assert(h2[j] == h[if j < m { j } else { j + 1 }]);
                    } else if i < hr.len() {
                        assert(h2[i] == h[if i < m { i } else { i + 1 }]);
                    } else if j < hr.len() {
                        assert(h2[j] == h[if j < m { j } else { j + 1 }]);
                    }
                }
                assert forall|u: int, i: int|
                    #![trigger kept_has(h2, u), h2[i]] 0 <= u < n && !kept_has(h2, u) && 0 <= i < h2.len() implies sims[u] <= h2[i].0 by {
                    let e = h2[i];
                    if i < hr.len() {
                        assert(h2[i] == h[if i < m { i } else { i + 1 }]);
                    }
                    assert(h[m].0 <= e.0);
                    if u == n - 1 {
                        assert(h2[hr.len() as int] == x);
                        assert(kept_has(h2, u));
                    } else if u == h[m].1 as int {
                    } else {
                        if kept_has(h, u) {
                            let k = choose|k: int| 0 <= k < h.len() && (#[trigger] h[k]).1 == u;
                            assert(k != m);
                            let k2 = if k < m { k } else { k - 1 };
                            assert(hr[k2] == h[k]);
                            assert(h2[k2] == hr[k2]);
                            assert(kept_has(h2, u));
                        }
                        assert(sims[u] <= h[m].0);
                    }
                }
            } else {
                assert(h2 == h);
                assert forall|u: int, i: int|
                    #![trigger kept_has(h2, u), h2[i]] 0 <= u < n && !kept_has(h2, u) && 0 <= i < h2.len() implies sims[u] <= h2[i].0 by {
                    if u < n - 1 {
                        assert(sims[u] <= h[i].0);
                    } else {
                        assert(h[m].0 <= h[i].0);
                    }
                }
            }
        }
    }
}

} // verus!

verus! {

/// The result of `top_k_indices` lists `min(k, num_data)` distinct points,
/// and no point left out is more similar to the query than a listed one.
pub proof fn lemma_top_k_indices_are_top(dao: Dao, q: int, k: nat)
    requires
        dao.wf(),
        0 <= q < dao.num_data,
        k > 0,
    ensures
        ({
            let r = top_k_result(kept_after(sims_from(dao, q), dao.num_data as int, k));
            &&& r.len() == if dao.num_data < k { dao.num_data as int } else { k as int }
            &&& r.no_duplicates()
            &&& forall|i: int| 0 <= i < r.len() ==> #[trigger] r[i] < dao.num_data
            &&& forall|u: int, i: int|
                #![trigger r.contains(u as usize), r[i]]
                0 <= u < dao.num_data && !r.contains(u as usize) && 0 <= i < r.len() ==> dao.sim(q, u) <= dao.sim(q, r[i] as int)
        }),
{
    let n = dao.num_data as int;
    let sims = sims_from(dao, q);
    let h = kept_after(sims, n, k);
    lemma_kept_after_is_top(sims, n, k);
    let keys = h.map_values(|p: (i64, usize)| p.0);
    let o = stable_order(keys, true);
    // the keys have an arg sort, so `o` is one
    assert(h.len() <= usize::MAX);
    crate::sorting::lemma_stable_order_is_arg_sort(keys, true);
    let r = top_k_result(h);
    assert(r.len() == h.len());
    assert forall|i: int| 0 <= i < r.len() implies #[trigger] r[i] == h[o[i] as int].1 && o[i] < h.len() by {}
    assert(r.no_duplicates()) by {
        assert forall|i: int, j: int| 0 <= i < r.len() && 0 <= j < r.len() && i != j implies r[i] != r[j] by {
            assert(r[i] == h[o[i] as int].1);
            assert(r[j] == h[o[j] as int].1);
            assert(o[i] != o[j]);
        }
    }
    assert forall|i: int| 0 <= i < r.len() implies #[trigger] r[i] < dao.num_data by {
        assert(r[i] == h[o[i] as int].1);
    }
    assert forall|u: int, i: int|
        #![trigger r.contains(u as usize), r[i]]
        0 <= u < n && !r.contains(u as usize) && 0 <= i < r.len() implies dao.sim(q, u) <= dao.sim(q, r[i] as int) by {
        if kept_has(h, u) {
            let p = choose|p: int| 0 <= p < h.len() && (#[trigger] h[p]).1 == u;
            assert(o.contains(p as usize));
            let c = choose|c: int| 0 <= c < o.len() && o[c] == p as usize;
            assert(r[c] == h[p].1);
            assert(r[c] == u as usize);
        }
        let e = h[o[i] as int];
        assert(sims[u] <= e.0);
        assert(e.0 == sims[e.1 as int]);
        dao.lemma_sim_bounded(q, u);
        dao.lemma_sim_bounded(q, e.1 as int);
    }
}

} // verus!

verus! {

/// The first `k` ground-truth neighbours, numbered from one, as zero-based
/// ids.
pub open spec fn truth_set(gt: Seq<i32>, k: int) -> Set<usize> {
    gt.take(if k < gt.len() { k } else { gt.len() as int }).map_values(|x: i32| (x - 1) as usize).to_set()
}

/// The first `k` found neighbours.
pub open spec fn found_set(mine: Seq<usize>, k: int) -> Set<usize> {
    mine.take(if k < mine.len() { k } else { mine.len() as int }).to_set()
}

pub(crate) proof fn lemma_push_contains(s0: Seq<usize>, y: usize)
    ensures
        forall|z: usize| s0.push(y).contains(z) <==> (z == y || s0.contains(z)),
{
    let s1 = s0.push(y);
    assert forall|z: usize| s1.contains(z) <==> (z == y || s0.contains(z)) by {
        if s1.contains(z) && z != y {
            let i = choose|i: int| 0 <= i < s1.len() && s1[i] == z;
            assert(s0[i] == z);
        }
        if z == y {
            assert(s1[s0.len() as int] == y);
        }
        if s0.contains(z) {
            let i = choose|i: int| 0 <= i < s0.len() && s0[i] == z;
            assert(s1[i] == z);
        }
    }
}

/// How many of the first `k` found neighbours are among the first `k`
/// ground-truth neighbours (numbered from one), each point counted once.
pub fn recall_overlap(gt: &Vec<i32>, mine: &Vec<usize>, k: usize) -> (c: usize)
    requires
        forall|i: int| 0 <= i < gt.len() ==> #[trigger] gt@[i] > i32::MIN,
    ensures
        c == truth_set(gt@, k as int).intersect(found_set(mine@, k as int)).len(),
{
    let kg = if k < gt.len() { k } else { gt.len() };
    let km = if k < mine.len() { k } else { mine.len() };
    let mut truth: Vec<usize> = Vec::new();
    let mut i: usize = 0;
    while i < kg
        invariant
            kg <= gt.len(),
            forall|j: int| 0 <= j < gt.len() ==> #[trigger] gt@[j] > i32::MIN,
            i <= kg,
            truth@ == gt@.take(i as int).map_values(|x: i32| (x - 1) as usize),
        decreases kg - i,
    {
        let x = gt[i];
        let v = (x - 1) as usize;
        truth.push(v);
        i = i + 1;
        assert(truth@ =~= gt@.take(i as int).map_values(|x: i32| (x - 1) as usize));
    }
    let ghost tset = truth@.to_set();
    assert(tset == truth_set(gt@, k as int));
    let mut count: usize = 0;
    let mut m: usize = 0;
    assert(tset.intersect(mine@.take(0).to_set()) =~= Set::<usize>::empty());
    while m < km
        invariant
            km <= mine.len(),
            m <= km,
            tset == truth@.to_set(),
            count == tset.intersect(mine@.take(m as int).to_set()).len(),
            count <= m,
        decreases km - m,
    {
        let y = mine[m];
        let mut seen = false;
        let mut j: usize = 0;
        while j < m
            invariant
                m < mine.len(),
                j <= m,
                seen == mine@.take(j as int).contains(y),
            decreases m - j,
        {
            assert(mine@.take(j as int + 1) =~= mine@.take(j as int).push(mine@[j as int]));
            proof {
                lemma_push_contains(mine@.take(j as int), mine@[j as int]);
            }
            if mine[j] == y {
                seen = true;
            }
            j = j + 1;
        }
        let ghost before = mine@.take(m as int).to_set();
        assert(mine@.take(m as int + 1) =~= mine@.take(m as int).push(y));
        assert(mine@.take(m as int + 1).to_set() =~= before.insert(y)) by {
            lemma_push_contains(mine@.take(m as int), y);
        }
        if !seen {
            let mut in_truth = false;
            let mut t: usize = 0;
            while t < truth.len()
                invariant
                    t <= truth.len(),
                    in_truth == truth@.take(t as int).contains(y),
                decreases truth.len() - t,
            {
                assert(truth@.take(t as int + 1) =~= truth@.take(t as int).push(truth@[t as int]));
                proof {
                    lemma_push_contains(truth@.take(t as int), truth@[t as int]);
                }
                if truth[t] == y {
                    in_truth = true;
                }
                t = t + 1;
            }
            assert(truth@.take(truth.len() as int) =~= truth@);
            assert(!before.contains(y));
            proof {
                let i0 = tset.intersect(before);
                let i1 = tset.intersect(before.insert(y));
                vstd::set_lib::lemma_len_intersect::<usize>(before, tset);
                if in_truth {
                    assert(i1 =~= i0.insert(y));
                    assert(!i0.contains(y));
                } else {
                    assert(i1 =~= i0);
                }
            }
            if in_truth {
                count = count + 1;
            }
        } else {
            assert(before.insert(y) =~= before);
        }
        m = m + 1;
    }
    assert(mine@.take(km as int).to_set() == found_set(mine@, k as int));
    count
}

/// Recall at `k` looks only at the first `k` found neighbours: found points
/// ranked after the first `k` change nothing, and the count is at most `k`.
pub proof fn lemma_recall_uses_first_k(gt: Seq<i32>, mine: Seq<usize>, more: Seq<usize>, k: nat)
    requires
        k <= mine.len(),
    ensures
        truth_set(gt, k as int).intersect(found_set(mine + more, k as int)).len()
            == truth_set(gt, k as int).intersect(found_set(mine, k as int)).len(),
        found_set(mine + more, k as int) == mine.take(k as int).to_set(),
        truth_set(gt, k as int).intersect(found_set(mine, k as int)).len() <= k,
{
    assert((mine + more).take(k as int) =~= mine.take(k as int));
    let f = mine.take(k as int);
    f.lemma_cardinality_of_set();
    vstd::seq_lib::seq_to_set_is_finite(f);
    vstd::set_lib::lemma_len_intersect::<usize>(f.to_set(), truth_set(gt, k as int));
    assert(truth_set(gt, k as int).intersect(f.to_set()) =~= f.to_set().intersect(truth_set(gt, k as int)));
}

} // verus!
