use vstd::prelude::*;
use crate::dao::Dao;
use crate::nality::Nality;
use crate::update::{
    table_view, flags_view, Candidate, JoinState, apply_candidates, apply_candidate, wrapped_work,
    same_shape, check_apply_update, lemma_apply_candidates_append, lemma_apply_candidates_shape,
    lemma_apply_candidates_work_shift, lemma_wrapped_work_compose, cands_below, cands_honest, ids_below,
    settled, lemma_apply_candidates_settle, table_honest, row_min_sim,
};
use crate::nality::row_has_id;

verus! {

/// The ids of a list of entries, in order.
pub open spec fn list_ids(l: Seq<Nality>) -> Seq<int> {
    l.map_values(|x: Nality| x.id as int)
}

/// The ids of a row's new list followed by those of its reverse list.
pub open spec fn union_ids(new_list: Seq<Nality>, rev: Seq<Nality>) -> Seq<int> {
    list_ids(new_list) + list_ids(rev)
}

/// Points `a` and `b` are proposed to each other, both with the similarity
/// of `a` to `b`: first `b` for row `a`, then `a` for row `b`.
pub open spec fn pair_candidates(dao: Dao, a: int, b: int) -> Seq<Candidate> {
    seq![
        Candidate { row: a, id: b as u32, sim: dao.sim_i64(a, b) },
        Candidate { row: b, id: a as u32, sim: dao.sim_i64(a, b) },
    ]
}

/// The pairs `(u[i], u[j'])` for `i < j' < j`, in order of `j'`.
pub open spec fn union_inner(dao: Dao, u: Seq<int>, i: int, j: int) -> Seq<Candidate>
    decreases j - i,
{
    if j <= i + 1 {
        Seq::empty()
    } else {
        union_inner(dao, u, i, j - 1) + pair_candidates(dao, u[i], u[j - 1])
    }
}

/// The pairs `(u[i'], u[j])` for `i' < i` and `i' < j < u.len()`, in
/// order of `i'` and then `j`.
pub open spec fn union_pairs(dao: Dao, u: Seq<int>, i: int) -> Seq<Candidate>
    decreases i,
{
    if i <= 0 {
        Seq::empty()
    } else {
        union_pairs(dao, u, i - 1) + union_inner(dao, u, i - 1, u.len() as int)
    }
}

/// The pairs of entry `a` with each of the first `j` old entries.
pub open spec fn cross_inner(dao: Dao, a: Nality, olds: Seq<Nality>, j: int) -> Seq<Candidate>
    decreases j,
{
    if j <= 0 {
        Seq::empty()
    } else {
        cross_inner(dao, a, olds, j - 1) + pair_candidates(dao, a.id as int, olds[j - 1].id as int)
    }
}

/// The pairs of each of the first `i` new entries with every old entry.
pub open spec fn cross_pairs(dao: Dao, news: Seq<Nality>, olds: Seq<Nality>, i: int) -> Seq<Candidate>
    decreases i,
{
    if i <= 0 {
        Seq::empty()
    } else {
        cross_pairs(dao, news, olds, i - 1) + cross_inner(dao, news[i - 1], olds, olds.len() as int)
    }
}

/// What one row contributes to a local join: when its new and reverse ids
/// number at least two, every pair of them, then every pair of a new entry
/// with an old entry; otherwise nothing.
pub open spec fn row_candidates(dao: Dao, new_list: Seq<Nality>, old_list: Seq<Nality>, rev: Seq<Nality>) -> Seq<Candidate> {
    let u = union_ids(new_list, rev);
    if u.len() >= 2 {
        union_pairs(dao, u, u.len() - 1) + cross_pairs(dao, new_list, old_list, new_list.len() as int)
    } else {
        Seq::empty()
    }
}

/// The proposals of the first `rows` rows of a local join, row by row.
pub open spec fn join_candidates(
    dao: Dao,
    news: Seq<Seq<Nality>>,
    olds: Seq<Seq<Nality>>,
    revs: Seq<Seq<Nality>>,
    rows: int,
) -> Seq<Candidate>
    decreases rows,
{
    if rows <= 0 {
        Seq::empty()
    } else {
        join_candidates(dao, news, olds, revs, rows - 1) + row_candidates(
            dao,
            news[rows - 1],
            olds[rows - 1],
            revs[rows - 1],
        )
    }
}


/// The table, flags and a work count, as a join state.
pub open spec fn state_of(t: Vec<Vec<Nality>>, f: Vec<Vec<bool>>, work: nat) -> JoinState {
    JoinState { table: table_view(t), flags: flags_view(f), work }
}

/// Proposes `a` and `b` to each other with their similarity.
fn propose_pair(
    dao: &Dao,
    a: usize,
    b: usize,
    neighbour_is_new: &mut Vec<Vec<bool>>,
    neighbourlarities: &mut Vec<Vec<Nality>>,
    work_done: &mut usize,
    Ghost(s): Ghost<JoinState>,
    Ghost(w0): Ghost<usize>,
)
    requires
        dao.wf(),
        a < dao.num_data,
        b < dao.num_data,
        old(neighbourlarities).len() == dao.num_data,
        same_shape(s.table, s.flags),
        s == state_of(*old(neighbourlarities), *old(neighbour_is_new), s.work),
        *old(work_done) == wrapped_work(w0, s.work),
    ensures
        state_of(*final(neighbourlarities), *final(neighbour_is_new), apply_candidates(s, pair_candidates(*dao, a as int, b as int)).work)
            == apply_candidates(s, pair_candidates(*dao, a as int, b as int)),
        *final(work_done) == wrapped_work(w0, apply_candidates(s, pair_candidates(*dao, a as int, b as int)).work),
{
    let ghost pc = pair_candidates(*dao, a as int, b as int);
    let ghost c1 = pc[0];
    let ghost c2 = pc[1];
    let sim = dao.similarity_between(a, b);
    assert(table_view(*neighbourlarities).len() == neighbourlarities.len());
    assert(flags_view(*neighbour_is_new).len() == neighbour_is_new.len());
    assert(neighbour_is_new@[a as int]@.len() == neighbourlarities@[a as int]@.len()) by {
        assert(s.table[a as int].len() == s.flags[a as int].len());
    }
    check_apply_update(a, b as u32, sim, neighbour_is_new, neighbourlarities, work_done);
    let ghost s1 = apply_candidate(s, c1);
    proof {
        assert(seq![c1].drop_last() =~= Seq::<Candidate>::empty());
        assert(seq![c1].last() == c1);
        assert(apply_candidates(s, seq![c1].drop_last()) == s);
        assert(apply_candidates(s, seq![c1]) == s1);
        lemma_apply_candidates_work_shift(s, seq![c1]);
        lemma_apply_candidates_shape(s, seq![c1]);
        lemma_wrapped_work_compose(w0, s.work, (s1.work - s.work) as nat);
        assert(state_of(*neighbourlarities, *neighbour_is_new, s1.work) == s1);
    }
    assert(table_view(*neighbourlarities).len() == neighbourlarities.len());
    assert(flags_view(*neighbour_is_new).len() == neighbour_is_new.len());
    assert(neighbour_is_new@[b as int]@.len() == neighbourlarities@[b as int]@.len()) by {
        assert(s1.table[b as int].len() == s1.flags[b as int].len());
    }
    check_apply_update(b, a as u32, sim, neighbour_is_new, neighbourlarities, work_done);
    proof {
        let s2 = apply_candidate(s1, c2);
        assert(seq![c2].drop_last() =~= Seq::<Candidate>::empty());
        lemma_apply_candidates_work_shift(s1, seq![c2]);
        lemma_wrapped_work_compose(w0, s1.work, (s2.work - s1.work) as nat);
        assert(pc.drop_last() =~= seq![c1]);
        assert(pc.last() == c2);
        assert(apply_candidates(s, seq![c1]) == s1) by {
            assert(seq![c1].drop_last() =~= Seq::<Candidate>::empty());
            assert(apply_candidates(s, seq![c1].drop_last()) == s);
        }
        assert(apply_candidates(s, pc) == s2);
        assert(state_of(*neighbourlarities, *neighbour_is_new, s2.work) == s2);
    }
}

} // verus!

verus! {

/// The ids of a row's new list followed by those of its reverse list.
fn union_of(new_list: &Vec<Nality>, rev: &Vec<Nality>) -> (u: Vec<usize>)
    ensures
        u.len() == union_ids(new_list@, rev@).len(),
        forall|i: int| 0 <= i < u.len() ==> #[trigger] u@[i] as int == union_ids(new_list@, rev@)[i],
{
    let mut u: Vec<usize> = Vec::new();
    let mut i: usize = 0;
    while i < new_list.len()
        invariant
            i <= new_list.len(),
            u.len() == i,
            forall|j: int| 0 <= j < i ==> #[trigger] u@[j] as int == new_list@[j].id as int,
        decreases new_list.len() - i,
    {
        u.push(new_list[i].id as usize);
        i = i + 1;
    }
    let mut j: usize = 0;
    while j < rev.len()
        invariant
            j <= rev.len(),
            u.len() == new_list.len() + j,
            forall|k: int| 0 <= k < new_list.len() ==> #[trigger] u@[k] as int == new_list@[k].id as int,
            forall|k: int| 0 <= k < j ==> #[trigger] u@[new_list.len() + k] as int == rev@[k].id as int,
        decreases rev.len() - j,
    {
        u.push(rev[j].id as usize);
        j = j + 1;
    }
    proof {
        let ug = union_ids(new_list@, rev@);
        assert forall|i: int| 0 <= i < u.len() implies #[trigger] u@[i] as int == ug[i] by {
            if i >= new_list.len() {
                let k = i - new_list.len();
                assert(u@[new_list.len() + k] as int == rev@[k].id as int);
            }
        }
    }
    u
}

/// A local join over all rows, in row order: each row proposes the pairs of
/// `row_candidates` (its new and reverse ids with each other, then its new
/// entries with its old entries), every proposal going through
/// `check_apply_update`. The table and flags end as the proposals of
/// `join_candidates` leave them, and `work_done` counts the accepted
/// proposals (wrapping). On a table of true similarities with no empty row,
/// the join settles every pair it looks at (`join_settled`).
pub fn local_join(
    dao: &Dao,
    new_lists: &Vec<Vec<Nality>>,
    old_lists: &Vec<Vec<Nality>>,
    reverse: &Vec<Vec<Nality>>,
    neighbour_is_new: &mut Vec<Vec<bool>>,
    neighbourlarities: &mut Vec<Vec<Nality>>,
    work_done: &mut usize,
)
    requires
        dao.wf(),
        old(neighbourlarities).len() == dao.num_data,
        new_lists.len() == dao.num_data,
        old_lists.len() == dao.num_data,
        reverse.len() == dao.num_data,
        same_shape(table_view(*old(neighbourlarities)), flags_view(*old(neighbour_is_new))),
        ids_below(table_view(*new_lists), dao.num_data as int),
        ids_below(table_view(*old_lists), dao.num_data as int),
        ids_below(table_view(*reverse), dao.num_data as int),
    ensures
        ({
            let after = apply_candidates(
                state_of(*old(neighbourlarities), *old(neighbour_is_new), 0),
                join_candidates(*dao, table_view(*new_lists), table_view(*old_lists), table_view(*reverse), dao.num_data as int),
            );
            &&& state_of(*final(neighbourlarities), *final(neighbour_is_new), after.work) == after
            &&& *final(work_done) == wrapped_work(*old(work_done), after.work)
        }),
        table_honest(table_view(*old(neighbourlarities)), dao_sim_fn(*dao))
            && (forall|r: int|
            0 <= r < old(neighbourlarities).len() ==> (#[trigger] table_view(*old(neighbourlarities))[r]).len() > 0)
            ==> join_settled(
            *dao,
            table_view(*new_lists),
            table_view(*old_lists),
            table_view(*reverse),
            table_view(*final(neighbourlarities)),
        ),
{
    let n = dao.num_data;
    let ghost news = table_view(*new_lists);
    let ghost olds = table_view(*old_lists);
    let ghost revs = table_view(*reverse);
    let ghost s0 = state_of(*neighbourlarities, *neighbour_is_new, 0);
    let ghost w0: usize = *work_done;
    let ghost mut st = s0;
    proof {
        vstd::arithmetic::div_mod::lemma_small_mod(w0 as nat, usize::MAX as nat + 1);
    }
    let mut row: usize = 0;
    while row < n
        invariant
            dao.wf(),
            n == dao.num_data,
            new_lists.len() == n,
            old_lists.len() == n,
            reverse.len() == n,
            news == table_view(*new_lists),
            olds == table_view(*old_lists),
            revs == table_view(*reverse),
            ids_below(news, n as int),
            ids_below(olds, n as int),
            ids_below(revs, n as int),
            row <= n,
            neighbourlarities.len() == n,
            same_shape(st.table, st.flags),
            st == apply_candidates(s0, join_candidates(*dao, news, olds, revs, row as int)),
            st == state_of(*neighbourlarities, *neighbour_is_new, st.work),
            *work_done == wrapped_work(w0, st.work),
        decreases n - row,
    {
        let ghost s_row = st;
        let ghost nl = news[row as int];
        let ghost ol = olds[row as int];
        let ghost rl = revs[row as int];
        let union = union_of(&new_lists[row], &reverse[row]);
        let ghost u = union_ids(nl, rl);
        assert forall|k: int| 0 <= k < union.len() implies #[trigger] union@[k] < n by {
            assert(union@[k] as int == u[k]);
            if k < nl.len() {
                assert(nl[k] == news[row as int][k]);
            } else {
                assert(rl[k - nl.len()] == revs[row as int][k - nl.len()]);
            }
        }
        if union.len() >= 2 {
            let ulen = union.len();
            let mut i: usize = 0;
            while i < ulen - 1
                invariant
                    dao.wf(),
                    n == dao.num_data,
                    ulen == union.len(),
                    ulen >= 2,
                    u.len() == ulen,
                    forall|k: int| 0 <= k < ulen ==> #[trigger] union@[k] as int == u[k],
                    forall|k: int| 0 <= k < ulen ==> #[trigger] union@[k] < n,
                    i <= ulen - 1,
                    neighbourlarities.len() == n,
                    same_shape(st.table, st.flags),
                    st == apply_candidates(s_row, union_pairs(*dao, u, i as int)),
                    st == state_of(*neighbourlarities, *neighbour_is_new, st.work),
                    *work_done == wrapped_work(w0, st.work),
                decreases ulen - 1 - i,
            {
                let ghost s_i = st;
                let mut j: usize = i + 1;
                while j < ulen
                    invariant
                        dao.wf(),
                        n == dao.num_data,
                        ulen == union.len(),
                        u.len() == ulen,
                        forall|k: int| 0 <= k < ulen ==> #[trigger] union@[k] as int == u[k],
                        forall|k: int| 0 <= k < ulen ==> #[trigger] union@[k] < n,
                        i < ulen - 1,
                        i + 1 <= j <= ulen,
                        neighbourlarities.len() == n,
                        same_shape(st.table, st.flags),
                        st == apply_candidates(s_i, union_inner(*dao, u, i as int, j as int)),
                        st == state_of(*neighbourlarities, *neighbour_is_new, st.work),
                        *work_done == wrapped_work(w0, st.work),
                    decreases ulen - j,
                {
                    let a = union[i];
                    let b = union[j];
                    propose_pair(dao, a, b, neighbour_is_new, neighbourlarities, work_done, Ghost(st), Ghost(w0));
                    proof {
                        let pc = pair_candidates(*dao, a as int, b as int);
                        lemma_apply_candidates_shape(st, pc);
                        lemma_apply_candidates_append(s_i, union_inner(*dao, u, i as int, j as int), pc);
                        assert(pc == pair_candidates(*dao, u[i as int], u[j as int]));
                        st = apply_candidates(st, pc);
                    }
                    j = j + 1;
                }
                proof {
                    lemma_apply_candidates_append(s_row, union_pairs(*dao, u, i as int), union_inner(*dao, u, i as int, ulen as int));
                }
                i = i + 1;
            }
            let ghost s_c = st;
            let nlen = new_lists[row].len();
            let olen = old_lists[row].len();
            let mut a: usize = 0;
            while a < nlen
                invariant
                    dao.wf(),
                    n == dao.num_data,
                    new_lists.len() == n,
                    old_lists.len() == n,
                    news == table_view(*new_lists),
                    olds == table_view(*old_lists),
                    ids_below(news, n as int),
                    ids_below(olds, n as int),
                    row < n,
                    nl == news[row as int],
                    ol == olds[row as int],
                    nlen == nl.len(),
                    olen == ol.len(),
                    a <= nlen,
                    neighbourlarities.len() == n,
                    same_shape(st.table, st.flags),
                    st == apply_candidates(s_c, cross_pairs(*dao, nl, ol, a as int)),
                    st == state_of(*neighbourlarities, *neighbour_is_new, st.work),
                    *work_done == wrapped_work(w0, st.work),
                decreases nlen - a,
            {
                let ghost s_a = st;
                let mut b: usize = 0;
                while b < olen
                    invariant
                        dao.wf(),
                        n == dao.num_data,
                        new_lists.len() == n,
                        old_lists.len() == n,
                        news == table_view(*new_lists),
                        olds == table_view(*old_lists),
                        ids_below(news, n as int),
                        ids_below(olds, n as int),
                        row < n,
                        nl == news[row as int],
                        ol == olds[row as int],
                        nlen == nl.len(),
                        olen == ol.len(),
                        a < nlen,
                        b <= olen,
                        neighbourlarities.len() == n,
                        same_shape(st.table, st.flags),
                        st == apply_candidates(s_a, cross_inner(*dao, nl[a as int], ol, b as int)),
                        st == state_of(*neighbourlarities, *neighbour_is_new, st.work),
                        *work_done == wrapped_work(w0, st.work),
                    decreases olen - b,
                {
                    let x = new_lists[row][a].id as usize;
                    let y = old_lists[row][b].id as usize;
                    assert(nl[a as int] == news[row as int][a as int]);
                    assert(ol[b as int] == olds[row as int][b as int]);
                    propose_pair(dao, x, y, neighbour_is_new, neighbourlarities, work_done, Ghost(st), Ghost(w0));
                    proof {
                        let pc = pair_candidates(*dao, x as int, y as int);
                        lemma_apply_candidates_shape(st, pc);
                        lemma_apply_candidates_append(s_a, cross_inner(*dao, nl[a as int], ol, b as int), pc);
                        st = apply_candidates(st, pc);
                    }
                    b = b + 1;
                }
                proof {
                    lemma_apply_candidates_append(s_c, cross_pairs(*dao, nl, ol, a as int), cross_inner(*dao, nl[a as int], ol, olen as int));
                }
                a = a + 1;
            }
            proof {
                lemma_apply_candidates_append(s_row, union_pairs(*dao, u, ulen - 1), cross_pairs(*dao, nl, ol, nlen as int));
                assert(row_candidates(*dao, nl, ol, rl) == union_pairs(*dao, u, ulen - 1) + cross_pairs(*dao, nl, ol, nlen as int));
            }
        } else {
            assert(row_candidates(*dao, nl, ol, rl) =~= Seq::<Candidate>::empty());
            assert(apply_candidates(s_row, row_candidates(*dao, nl, ol, rl)) == s_row);
        }
        proof {
            lemma_apply_candidates_append(s0, join_candidates(*dao, news, olds, revs, row as int), row_candidates(*dao, nl, ol, rl));
        }
        row = row + 1;
    }
    proof {
        if table_honest(s0.table, dao_sim_fn(*dao)) && (forall|r: int| 0 <= r < s0.table.len() ==> (#[trigger] s0.table[r]).len() > 0) {
            lemma_local_join_settles(*dao, s0, news, olds, revs);
        }
    }
}

} // verus!

verus! {

/// The similarity of a data set, as a function of two ids.
pub open spec fn dao_sim_fn(dao: Dao) -> spec_fn(int, int) -> int {
    |i: int, j: int| dao.sim(i, j)
}

proof fn lemma_cands_concat(a: Seq<Candidate>, b: Seq<Candidate>, n: int, sim: spec_fn(int, int) -> int)
    ensures
        cands_below(a, n) && cands_below(b, n) ==> cands_below(a + b, n),
        cands_honest(a, sim) && cands_honest(b, sim) ==> cands_honest(a + b, sim),
{
    if cands_below(a, n) && cands_below(b, n) {
        assert forall|i: int| 0 <= i < (a + b).len() implies 0 <= (#[trigger] (a + b)[i]).row < n && (a + b)[i].id < n by {
            if i >= a.len() {
                assert((a + b)[i] == b[i - a.len()]);
            }
        }
    }
    if cands_honest(a, sim) && cands_honest(b, sim) {
        assert forall|i: int| 0 <= i < (a + b).len() implies (#[trigger] (a + b)[i]).sim == sim((a + b)[i].row, (a + b)[i].id as int) by {
            if i >= a.len() {
                assert((a + b)[i] == b[i - a.len()]);
            }
        }
    }
}

proof fn lemma_pair_ok(dao: Dao, a: int, b: int)
    requires
        dao.wf(),
        0 <= a < dao.num_data,
        0 <= b < dao.num_data,
    ensures
        cands_below(pair_candidates(dao, a, b), dao.num_data as int),
        cands_honest(pair_candidates(dao, a, b), dao_sim_fn(dao)),
{
    dao.lemma_sim_bounded(a, b);
    crate::similarity::lemma_similarity_symmetric(dao.embeddings@[a]@, dao.embeddings@[b]@);
    let pc = pair_candidates(dao, a, b);
    assert((b as u32) as int == b);
    assert((a as u32) as int == a);
    assert(pc[0].sim == dao_sim_fn(dao)(a, b));
    assert(pc[1].sim == dao_sim_fn(dao)(b, a));
}

/// All ids of a sequence lie below `n`.
pub open spec fn seq_below(u: Seq<int>, n: int) -> bool {
    forall|k: int| 0 <= k < u.len() ==> 0 <= #[trigger] u[k] < n
}

proof fn lemma_union_inner_ok(dao: Dao, u: Seq<int>, i: int, j: int)
    requires
        dao.wf(),
        seq_below(u, dao.num_data as int),
        0 <= i,
        j <= u.len(),
    ensures
        cands_below(union_inner(dao, u, i, j), dao.num_data as int),
        cands_honest(union_inner(dao, u, i, j), dao_sim_fn(dao)),
    decreases j - i,
{
    if j > i + 1 {
        lemma_union_inner_ok(dao, u, i, j - 1);
        lemma_pair_ok(dao, u[i], u[j - 1]);
        lemma_cands_concat(union_inner(dao, u, i, j - 1), pair_candidates(dao, u[i], u[j - 1]), dao.num_data as int, dao_sim_fn(dao));
    }
}

proof fn lemma_union_pairs_ok(dao: Dao, u: Seq<int>, i: int)
    requires
        dao.wf(),
        seq_below(u, dao.num_data as int),
        i <= u.len(),
    ensures
        cands_below(union_pairs(dao, u, i), dao.num_data as int),
        cands_honest(union_pairs(dao, u, i), dao_sim_fn(dao)),
    decreases i,
{
    if i > 0 {
        lemma_union_pairs_ok(dao, u, i - 1);
        lemma_union_inner_ok(dao, u, i - 1, u.len() as int);
        lemma_cands_concat(union_pairs(dao, u, i - 1), union_inner(dao, u, i - 1, u.len() as int), dao.num_data as int, dao_sim_fn(dao));
    }
}

/// All ids of a list lie below `n`.
pub open spec fn list_below(l: Seq<Nality>, n: int) -> bool {
    forall|k: int| 0 <= k < l.len() ==> (#[trigger] l[k]).id < n
}

proof fn lemma_cross_inner_ok(dao: Dao, a: Nality, olds: Seq<Nality>, j: int)
    requires
        dao.wf(),
        a.id < dao.num_data,
        list_below(olds, dao.num_data as int),
        j <= olds.len(),
    ensures
        cands_below(cross_inner(dao, a, olds, j), dao.num_data as int),
        cands_honest(cross_inner(dao, a, olds, j), dao_sim_fn(dao)),
    decreases j,
{
    if j > 0 {
        lemma_cross_inner_ok(dao, a, olds, j - 1);
        lemma_pair_ok(dao, a.id as int, olds[j - 1].id as int);
        lemma_cands_concat(cross_inner(dao, a, olds, j - 1), pair_candidates(dao, a.id as int, olds[j - 1].id as int), dao.num_data as int, dao_sim_fn(dao));
    }
}

proof fn lemma_cross_pairs_ok(dao: Dao, news: Seq<Nality>, olds: Seq<Nality>, i: int)
    requires
        dao.wf(),
        list_below(news, dao.num_data as int),
        list_below(olds, dao.num_data as int),
        i <= news.len(),
    ensures
        cands_below(cross_pairs(dao, news, olds, i), dao.num_data as int),
        cands_honest(cross_pairs(dao, news, olds, i), dao_sim_fn(dao)),
    decreases i,
{
    if i > 0 {
        lemma_cross_pairs_ok(dao, news, olds, i - 1);
        lemma_cross_inner_ok(dao, news[i - 1], olds, olds.len() as int);
        lemma_cands_concat(cross_pairs(dao, news, olds, i - 1), cross_inner(dao, news[i - 1], olds, olds.len() as int), dao.num_data as int, dao_sim_fn(dao));
    }
}

/// Every proposal of a local join targets a data point and proposes one, and
/// carries their true similarity.
pub proof fn lemma_join_candidates_ok(
    dao: Dao,
    news: Seq<Seq<Nality>>,
    olds: Seq<Seq<Nality>>,
    revs: Seq<Seq<Nality>>,
    rows: int,
)
    requires
        dao.wf(),
        rows <= news.len(),
        rows <= olds.len(),
        rows <= revs.len(),
        ids_below(news, dao.num_data as int),
        ids_below(olds, dao.num_data as int),
        ids_below(revs, dao.num_data as int),
    ensures
        cands_below(join_candidates(dao, news, olds, revs, rows), dao.num_data as int),
        cands_honest(join_candidates(dao, news, olds, revs, rows), dao_sim_fn(dao)),
    decreases rows,
{
    if rows > 0 {
        let r = rows - 1;
        lemma_join_candidates_ok(dao, news, olds, revs, r);
        let nl = news[r];
        let ol = olds[r];
        let rl = revs[r];
        let n = dao.num_data as int;
        assert(list_below(nl, n)) by {
            assert forall|k: int| 0 <= k < nl.len() implies (#[trigger] nl[k]).id < n by {
                assert(news[r][k] == nl[k]);
            }
        }
        assert(list_below(ol, n)) by {
            assert forall|k: int| 0 <= k < ol.len() implies (#[trigger] ol[k]).id < n by {
                assert(olds[r][k] == ol[k]);
            }
        }
        let u = union_ids(nl, rl);
        assert(seq_below(u, n)) by {
            assert forall|k: int| 0 <= k < u.len() implies 0 <= #[trigger] u[k] < n by {
                if k < nl.len() {
                    assert(news[r][k] == nl[k]);
                } else {
                    assert(revs[r][k - nl.len()] == rl[k - nl.len()]);
                }
            }
        }
        let rc = row_candidates(dao, nl, ol, rl);
        if u.len() >= 2 {
            lemma_union_pairs_ok(dao, u, u.len() - 1);
            lemma_cross_pairs_ok(dao, nl, ol, nl.len() as int);
            lemma_cands_concat(union_pairs(dao, u, u.len() - 1), cross_pairs(dao, nl, ol, nl.len() as int), n, dao_sim_fn(dao));
        }
        lemma_cands_concat(join_candidates(dao, news, olds, revs, r), rc, n, dao_sim_fn(dao));
    }
}

/// What is in either part is in the concatenation.
proof fn lemma_concat_has(a: Seq<Candidate>, b: Seq<Candidate>, x: Candidate)
    ensures
        a.contains(x) ==> (a + b).contains(x),
        b.contains(x) ==> (a + b).contains(x),
{
    if a.contains(x) {
        let k = choose|k: int| 0 <= k < a.len() && a[k] == x;
        assert((a + b)[k] == x);
    }
    if b.contains(x) {
        let k = choose|k: int| 0 <= k < b.len() && b[k] == x;
        assert((a + b)[a.len() + k] == x);
    }
}

/// Both proposals of a pair are in the sequence.
pub open spec fn has_pair(cs: Seq<Candidate>, dao: Dao, a: int, b: int) -> bool {
    cs.contains(pair_candidates(dao, a, b)[0]) && cs.contains(pair_candidates(dao, a, b)[1])
}

proof fn lemma_union_inner_has(dao: Dao, u: Seq<int>, i: int, j: int, jj: int)
    requires
        i < jj < j,
    ensures
        has_pair(union_inner(dao, u, i, j), dao, u[i], u[jj]),
    decreases j - i,
{
    let a = union_inner(dao, u, i, j - 1);
    let p = pair_candidates(dao, u[i], u[j - 1]);
    assert(union_inner(dao, u, i, j) == a + p);
    if jj == j - 1 {
        assert(p.contains(p[0]));
        assert(p.contains(p[1]));
        lemma_concat_has(a, p, p[0]);
        lemma_concat_has(a, p, p[1]);
    } else {
        lemma_union_inner_has(dao, u, i, j - 1, jj);
        let q = pair_candidates(dao, u[i], u[jj]);
        lemma_concat_has(a, p, q[0]);
        lemma_concat_has(a, p, q[1]);
    }
}

proof fn lemma_union_pairs_has(dao: Dao, u: Seq<int>, i: int, ii: int, jj: int)
    requires
        0 <= ii < i,
        ii < jj < u.len(),
    ensures
        has_pair(union_pairs(dao, u, i), dao, u[ii], u[jj]),
    decreases i,
{
    let a = union_pairs(dao, u, i - 1);
    let b = union_inner(dao, u, i - 1, u.len() as int);
    assert(union_pairs(dao, u, i) == a + b);
    let q = pair_candidates(dao, u[ii], u[jj]);
    if ii == i - 1 {
        lemma_union_inner_has(dao, u, i - 1, u.len() as int, jj);
    } else {
        lemma_union_pairs_has(dao, u, i - 1, ii, jj);
    }
    lemma_concat_has(a, b, q[0]);
    lemma_concat_has(a, b, q[1]);
}

proof fn lemma_cross_inner_has(dao: Dao, x: Nality, olds: Seq<Nality>, j: int, jj: int)
    requires
        0 <= jj < j,
    ensures
        has_pair(cross_inner(dao, x, olds, j), dao, x.id as int, olds[jj].id as int),
    decreases j,
{
    let a = cross_inner(dao, x, olds, j - 1);
    let p = pair_candidates(dao, x.id as int, olds[j - 1].id as int);
    assert(cross_inner(dao, x, olds, j) == a + p);
    let q = pair_candidates(dao, x.id as int, olds[jj].id as int);
    if jj == j - 1 {
        assert(p.contains(p[0]));
        assert(p.contains(p[1]));
    } else {
        lemma_cross_inner_has(dao, x, olds, j - 1, jj);
    }
    lemma_concat_has(a, p, q[0]);
    lemma_concat_has(a, p, q[1]);
}

proof fn lemma_cross_pairs_has(dao: Dao, news: Seq<Nality>, olds: Seq<Nality>, i: int, ii: int, jj: int)
    requires
        0 <= ii < i,
        0 <= jj < olds.len(),
    ensures
        has_pair(cross_pairs(dao, news, olds, i), dao, news[ii].id as int, olds[jj].id as int),
    decreases i,
{
    let a = cross_pairs(dao, news, olds, i - 1);
    let b = cross_inner(dao, news[i - 1], olds, olds.len() as int);
    assert(cross_pairs(dao, news, olds, i) == a + b);
    let q = pair_candidates(dao, news[ii].id as int, olds[jj].id as int);
    if ii == i - 1 {
        lemma_cross_inner_has(dao, news[i - 1], olds, olds.len() as int, jj);
    } else {
        lemma_cross_pairs_has(dao, news, olds, i - 1, ii, jj);
    }
    lemma_concat_has(a, b, q[0]);
    lemma_concat_has(a, b, q[1]);
}

proof fn lemma_join_candidates_has(
    dao: Dao,
    news: Seq<Seq<Nality>>,
    olds: Seq<Seq<Nality>>,
    revs: Seq<Seq<Nality>>,
    rows: int,
    r: int,
    x: Candidate,
)
    requires
        0 <= r < rows,
        row_candidates(dao, news[r], olds[r], revs[r]).contains(x),
    ensures
        join_candidates(dao, news, olds, revs, rows).contains(x),
    decreases rows,
{
    let a = join_candidates(dao, news, olds, revs, rows - 1);
    let b = row_candidates(dao, news[rows - 1], olds[rows - 1], revs[rows - 1]);
    if r < rows - 1 {
        lemma_join_candidates_has(dao, news, olds, revs, rows - 1, r, x);
    }
    lemma_concat_has(a, b, x);
}

/// Point `b` sits in row `a`, or row `a`'s least similarity is at least the
/// similarity of `a` to `b`.
pub open spec fn pair_settled(dao: Dao, t: Seq<Seq<Nality>>, a: int, b: int) -> bool {
    row_has_id(t[a], b as u32) || row_min_sim(t[a]) >= dao.sim(a, b)
}

/// What a local join leaves in table `t`: for every row whose new and
/// reverse ids number at least two, any two of those ids are settled with
/// each other, and so is every new entry with every old entry, both ways.
pub open spec fn join_settled(
    dao: Dao,
    news: Seq<Seq<Nality>>,
    olds: Seq<Seq<Nality>>,
    revs: Seq<Seq<Nality>>,
    t: Seq<Seq<Nality>>,
) -> bool {
    &&& forall|r: int, i: int, j: int|
        0 <= r < news.len() && union_ids(news[r], revs[r]).len() >= 2 && 0 <= i < union_ids(news[r], revs[r]).len()
            && 0 <= j < union_ids(news[r], revs[r]).len() && i != j ==> pair_settled(
            dao,
            t,
            #[trigger] union_ids(news[r], revs[r])[i],
            #[trigger] union_ids(news[r], revs[r])[j],
        )
    &&& forall|r: int, i: int, j: int|
        0 <= r < news.len() && union_ids(news[r], revs[r]).len() >= 2 && 0 <= i < news[r].len() && 0 <= j < olds[r].len()
            ==> pair_settled(dao, t, (#[trigger] news[r][i]).id as int, (#[trigger] olds[r][j]).id as int)
            && pair_settled(dao, t, olds[r][j].id as int, news[r][i].id as int)
}

/// The local join settles every pair it is meant to look at: when the table
/// holds true similarities and no empty row, then after the join, for each
/// row whose new and reverse ids number at least two, any id `b` among them
/// sits in the row of any other such id `a`, or that row's least similarity
/// is at least the similarity of `a` to `b`; and the same holds between
/// every new entry and every old entry of the row, both ways.
pub proof fn lemma_local_join_settles(
    dao: Dao,
    s: JoinState,
    news: Seq<Seq<Nality>>,
    olds: Seq<Seq<Nality>>,
    revs: Seq<Seq<Nality>>,
)
    requires
        dao.wf(),
        s.table.len() == dao.num_data,
        news.len() == dao.num_data,
        olds.len() == dao.num_data,
        revs.len() == dao.num_data,
        same_shape(s.table, s.flags),
        ids_below(news, dao.num_data as int),
        ids_below(olds, dao.num_data as int),
        ids_below(revs, dao.num_data as int),
        table_honest(s.table, dao_sim_fn(dao)),
        forall|r: int| 0 <= r < s.table.len() ==> (#[trigger] s.table[r]).len() > 0,
    ensures
        join_settled(
            dao,
            news,
            olds,
            revs,
            apply_candidates(s, join_candidates(dao, news, olds, revs, dao.num_data as int)).table,
        ),
{
    let n = dao.num_data as int;
    let cs = join_candidates(dao, news, olds, revs, n);
    let simf = dao_sim_fn(dao);
    lemma_join_candidates_ok(dao, news, olds, revs, n);
    assert forall|k: int| 0 <= k < cs.len() implies 0 <= (#[trigger] cs[k]).row < s.table.len() by {}
    lemma_apply_candidates_settle(s, cs, simf);
    let t = apply_candidates(s, cs).table;
    assert forall|x: Candidate| #[trigger] cs.contains(x) implies settled(t, x) && x.sim == dao.sim(x.row, x.id as int) by {
        let k = choose|k: int| 0 <= k < cs.len() && cs[k] == x;
        assert(settled(t, cs[k]));
    }
    assert forall|r: int, i: int, j: int|
        0 <= r < news.len() && union_ids(news[r], revs[r]).len() >= 2 && 0 <= i < union_ids(news[r], revs[r]).len()
            && 0 <= j < union_ids(news[r], revs[r]).len() && i != j implies pair_settled(
            dao,
            t,
            #[trigger] union_ids(news[r], revs[r])[i],
            #[trigger] union_ids(news[r], revs[r])[j],
        ) by {
        let u = union_ids(news[r], revs[r]);
        let rc = row_candidates(dao, news[r], olds[r], revs[r]);
        let up = union_pairs(dao, u, u.len() - 1);
        let cp = cross_pairs(dao, news[r], olds[r], news[r].len() as int);
        assert(rc == up + cp);
        let lo = if i < j { i } else { j };
        let hi = if i < j { j } else { i };
        lemma_union_pairs_has(dao, u, u.len() - 1, lo, hi);
        let q = pair_candidates(dao, u[lo], u[hi]);
        let x = if i < j { q[0] } else { q[1] };
        lemma_concat_has(up, cp, x);
        lemma_join_candidates_has(dao, news, olds, revs, n, r, x);
        assert(cs.contains(x));
        assert(x.row == u[i]);
        assert(0 <= u[j] < n) by {
            if j < news[r].len() {
                assert(u[j] == news[r][j].id as int);
            } else {
                assert(u[j] == revs[r][j - news[r].len()].id as int);
            }
        }
        assert(x.id as int == u[j]);
        assert(settled(t, x));
    }
    assert forall|r: int, i: int, j: int|
        0 <= r < news.len() && union_ids(news[r], revs[r]).len() >= 2 && 0 <= i < news[r].len() && 0 <= j < olds[r].len()
            implies pair_settled(dao, t, (#[trigger] news[r][i]).id as int, (#[trigger] olds[r][j]).id as int)
            && pair_settled(dao, t, olds[r][j].id as int, news[r][i].id as int) by {
        let u = union_ids(news[r], revs[r]);
        let up = union_pairs(dao, u, u.len() - 1);
        let cp = cross_pairs(dao, news[r], olds[r], news[r].len() as int);
        let a = news[r][i].id as int;
        let b = olds[r][j].id as int;
        lemma_cross_pairs_has(dao, news[r], olds[r], news[r].len() as int, i, j);
        let q = pair_candidates(dao, a, b);
        lemma_concat_has(up, cp, q[0]);
        lemma_concat_has(up, cp, q[1]);
        lemma_join_candidates_has(dao, news, olds, revs, n, r, q[0]);
        lemma_join_candidates_has(dao, news, olds, revs, n, r, q[1]);
        assert(settled(t, q[0]));
        assert(settled(t, q[1]));
    }
}

} // verus!
