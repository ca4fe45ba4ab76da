use vstd::prelude::*;
use crate::dao::Dao;
use crate::nality::Nality;
use crate::phases::{
    positions_where, is_sample, gather, cleared_flags, get_selectors_from_flags, split_row_new_old,
    lemma_positions_where_bounded, build_reverse_lists, reverse_table, lemma_reverse_table_ids,
};
use crate::random::rand_perm;
use crate::update::{
    table_view, flags_view, same_shape, ids_below, table_honest, rows_distinct, row_min_sim, table_slack,
    JoinState, apply_candidates, wrapped_work, lemma_apply_candidates_invariants, lemma_apply_candidates_shape,
    lemma_apply_candidates_progress, lemma_table_slack_nonneg, lemma_apply_candidates_slots_rise,
};
use crate::join::{dao_sim_fn, local_join, join_candidates, lemma_join_candidates_ok};

verus! {

/// The number of entries of a row flagged new.
pub open spec fn count_new(f: Seq<bool>) -> nat {
    positions_where(f, true).len()
}

/// One sample per row: for each row, as many distinct positions below the
/// number of its entries flagged new as there are such entries.
pub open spec fn samples_fit(samples: Seq<Seq<usize>>, f: Seq<Seq<bool>>) -> bool {
    &&& samples.len() == f.len()
    &&& forall|r: int| 0 <= r < f.len() ==> is_sample(#[trigger] samples[r], count_new(f[r]), count_new(f[r]))
}

/// The samples of a table of sequences of indices.
pub open spec fn samples_view(s: Vec<Vec<usize>>) -> Seq<Seq<usize>> {
    s@.map_values(|r: Vec<usize>| r@)
}

/// Draws, for every row, a random ordering of the positions below the
/// number of entries flagged new in that row (through `rand_perm`).
pub fn draw_samples(neighbour_is_new: &Vec<Vec<bool>>) -> (s: Vec<Vec<usize>>)
    ensures
        samples_fit(samples_view(s), flags_view(*neighbour_is_new)),
{
    let n = neighbour_is_new.len();
    let ghost f = flags_view(*neighbour_is_new);
    let mut s: Vec<Vec<usize>> = Vec::new();
    let mut row: usize = 0;
    while row < n
        invariant
            n == neighbour_is_new.len(),
            f == flags_view(*neighbour_is_new),
            row <= n,
            s.len() == row,
            forall|r: int| 0 <= r < row ==> is_sample(#[trigger] samples_view(s)[r], count_new(f[r]), count_new(f[r])),
        decreases n - row,
    {
        let count = get_selectors_from_flags(&neighbour_is_new[row], true).len();
        let sampled = rand_perm(count, count);
        let ghost before = samples_view(s);
        s.push(sampled);
        assert forall|r: int| 0 <= r <= row implies is_sample(#[trigger] samples_view(s)[r], count_new(f[r]), count_new(f[r])) by {
            if r < row {
                assert(samples_view(s)[r] == before[r]);
            }
        }
        row = row + 1;
    }
    s
}

/// Entries gathered from a table's row keep their ids.
proof fn lemma_gather_ids(row: Seq<Nality>, pos: Seq<usize>, n: int)
    requires
        forall|k: int| 0 <= k < row.len() ==> (#[trigger] row[k]).id < n,
        forall|k: int| 0 <= k < pos.len() ==> #[trigger] pos[k] < row.len(),
    ensures
        forall|k: int| 0 <= k < gather(row, pos).len() ==> (#[trigger] gather(row, pos)[k]).id < n,
{
    assert forall|k: int| 0 <= k < gather(row, pos).len() implies (#[trigger] gather(row, pos)[k]).id < n by {
        assert(gather(row, pos)[k] == row[pos[k] as int]);
    }
}

/// Phase one of a round of descent: every row is split by its sample (see
/// `split_row_new_old`) into a new list, the entries at the sampled
/// positions in sampled order, and an old list, the entries flagged old in
/// column order; the sampled positions are then flagged old.
pub fn split_all_rows(
    neighbourlarities: &Vec<Vec<Nality>>,
    neighbour_is_new: &mut Vec<Vec<bool>>,
    samples: &Vec<Vec<usize>>,
) -> (r: (Vec<Vec<Nality>>, Vec<Vec<Nality>>))
    requires
        same_shape(table_view(*neighbourlarities), flags_view(*old(neighbour_is_new))),
        samples_fit(samples_view(*samples), flags_view(*old(neighbour_is_new))),
    ensures
        ({
            let t = table_view(*neighbourlarities);
            let f0 = flags_view(*old(neighbour_is_new));
            let f1 = flags_view(*final(neighbour_is_new));
            let s = samples_view(*samples);
            &&& table_view(r.0).len() == t.len()
            &&& table_view(r.1).len() == t.len()
            &&& f1.len() == f0.len()
            &&& forall|i: int| 0 <= i < t.len() ==> #[trigger] table_view(r.0)[i] == gather(t[i], s[i])
            &&& forall|i: int| 0 <= i < t.len() ==> #[trigger] table_view(r.1)[i] == gather(t[i], positions_where(f0[i], false))
            &&& forall|i: int| 0 <= i < t.len() ==> #[trigger] f1[i] == cleared_flags(f0[i], s[i])
        }),
        same_shape(table_view(*neighbourlarities), flags_view(*final(neighbour_is_new))),
        forall|n: int| ids_below(table_view(*neighbourlarities), n) ==> ids_below(table_view(r.0), n) && ids_below(table_view(r.1), n),
{
    let n = neighbourlarities.len();
    let ghost t = table_view(*neighbourlarities);
    let ghost f0 = flags_view(*neighbour_is_new);
    let ghost sv = samples_view(*samples);
    let mut news: Vec<Vec<Nality>> = Vec::new();
    let mut olds: Vec<Vec<Nality>> = Vec::new();
    let mut row: usize = 0;
    while row < n
        invariant
            n == neighbourlarities.len(),
            t == table_view(*neighbourlarities),
            sv == samples_view(*samples),
            samples_fit(sv, f0),
            same_shape(t, f0),
            row <= n,
            neighbour_is_new.len() == n,
            news.len() == row,
            olds.len() == row,
            forall|r: int| 0 <= r < n ==> (#[trigger] flags_view(*neighbour_is_new)[r]).len() == f0[r].len(),
            forall|r: int| row <= r < n ==> #[trigger] flags_view(*neighbour_is_new)[r] == f0[r],
            forall|r: int| 0 <= r < row ==> #[trigger] table_view(olds)[r] == gather(t[r], positions_where(f0[r], false)),
            forall|r: int| 0 <= r < row ==> #[trigger] table_view(news)[r] == gather(t[r], sv[r]),
            forall|r: int| 0 <= r < row ==> #[trigger] flags_view(*neighbour_is_new)[r] == cleared_flags(f0[r], sv[r]),
        decreases n - row,
    {
        let ghost before = flags_view(*neighbour_is_new);
        let ghost before_vec = *neighbour_is_new;
        assert(before[row as int] == neighbour_is_new@[row as int]@);
        assert(neighbour_is_new@[row as int]@ == f0[row as int]);
        assert(t[row as int] == neighbourlarities@[row as int]@);
        assert(is_sample(sv[row as int], count_new(f0[row as int]), count_new(f0[row as int])));
        assert(samples@[row as int]@ == sv[row as int]);
        let ghost news_before = table_view(news);
        let ghost olds_before = table_view(olds);
        let (new_list, old_list) = split_row_new_old(&neighbourlarities[row], &mut neighbour_is_new[row], &samples[row]);
        assert(neighbour_is_new@.len() == before_vec@.len());
        assert(forall|r: int| 0 <= r < n && r != row ==> neighbour_is_new@[r] == before_vec@[r]);
        news.push(new_list);
        olds.push(old_list);
        proof {
            let after = flags_view(*neighbour_is_new);
            assert forall|r: int| 0 <= r < n implies (#[trigger] after[r]).len() == f0[r].len() && (row < r ==> after[r] == f0[r]) && (r < row ==> after[r] == before[r]) by {
                if r != row {
                    assert(after[r] == before[r]);
                }
            }
            assert(table_view(news)[row as int] == new_list@);
            assert(table_view(olds)[row as int] == old_list@);
            assert forall|r: int| 0 <= r < row implies #[trigger] table_view(news)[r] == news_before[r] && table_view(olds)[r] == olds_before[r] by {
            }
            assert forall|r: int| 0 <= r <= row implies #[trigger] table_view(olds)[r] == gather(t[r], positions_where(f0[r], false)) && table_view(news)[r] == gather(t[r], sv[r]) && after[r] == cleared_flags(f0[r], sv[r]) by {
                if r < row {
                    assert(olds_before[r] == gather(t[r], positions_where(f0[r], false)));
                    assert(news_before[r] == gather(t[r], sv[r]));
                    assert(before[r] == cleared_flags(f0[r], sv[r]));
                }
            }
        }
        row = row + 1;
    }
    proof {
        assert(t.len() == n);
        assert forall|m: int| ids_below(t, m) implies ids_below(table_view(news), m) && ids_below(table_view(olds), m) by {
            assert forall|r: int, c: int| 0 <= r < table_view(news).len() && 0 <= c < table_view(news)[r].len() implies (#[trigger] table_view(news)[r][c]).id < m by {
                assert(t[r] == neighbourlarities@[r]@);
                assert(f0[r].len() == t[r].len());
                assert(neighbourlarities@[r]@.len() == neighbourlarities@[r].len());
                lemma_positions_where_bounded(f0[r], true);
                assert(is_sample(sv[r], count_new(f0[r]), count_new(f0[r])));
                assert forall|k: int| 0 <= k < sv[r].len() implies #[trigger] sv[r][k] < t[r].len() by {
                    assert(sv[r][k] < count_new(f0[r]));
                }
                assert forall|k: int| 0 <= k < t[r].len() implies (#[trigger] t[r][k]).id < m by {}
                lemma_gather_ids(t[r], sv[r], m);
            }
            assert forall|r: int, c: int| 0 <= r < table_view(olds).len() && 0 <= c < table_view(olds)[r].len() implies (#[trigger] table_view(olds)[r][c]).id < m by {
                assert(t[r] == neighbourlarities@[r]@);
                assert(f0[r].len() == t[r].len());
                assert(neighbourlarities@[r]@.len() == neighbourlarities@[r].len());
                lemma_positions_where_bounded(f0[r], false);
                assert forall|k: int| 0 <= k < t[r].len() implies (#[trigger] t[r][k]).id < m by {}
                lemma_gather_ids(t[r], positions_where(f0[r], false), m);
            }
        }
    }
    (news, olds)
}

} // verus!

verus! {

/// A table of `n` rows of `k` flags, all set.
pub fn all_new_flags(n: usize, k: usize) -> (f: Vec<Vec<bool>>)
    ensures
        f.len() == n,
        forall|r: int| 0 <= r < n ==> (#[trigger] f@[r])@ == Seq::new(k as nat, |c: int| true),
{
    let mut f: Vec<Vec<bool>> = Vec::new();
    let mut r: usize = 0;
    while r < n
        invariant
            r <= n,
            f.len() == r,
            forall|i: int| 0 <= i < r ==> (#[trigger] f@[i])@ == Seq::new(k as nat, |c: int| true),
        decreases n - r,
    {
        let mut row: Vec<bool> = Vec::new();
        let mut c: usize = 0;
        while c < k
            invariant
                c <= k,
                row@ == Seq::new(c as nat, |j: int| true),
            decreases k - c,
        {
            row.push(true);
            c = c + 1;
            assert(row@ =~= Seq::new(c as nat, |j: int| true));
        }
        f.push(row);
        r = r + 1;
    }
    f
}

/// Every row of the table has `k` entries.
pub open spec fn rows_of_len(t: Seq<Seq<Nality>>, k: nat) -> bool {
    forall|r: int| 0 <= r < t.len() ==> (#[trigger] t[r]).len() == k
}

/// One round of descent from the table and flags of `st`, split by the
/// samples `s`: phase one makes the new lists (the entries at the sampled
/// positions) and old lists (the entries flagged old) and clears the sampled
/// flags, phase two makes the reverse lists of at most `cap` entries, and
/// the local join proposes `join_candidates`. Its work counts the
/// replacements of this round alone.
pub open spec fn descent_round(dao: Dao, st: JoinState, s: Seq<Seq<usize>>, cap: nat) -> JoinState {
    let t = st.table;
    let f = st.flags;
    let news = Seq::new(t.len(), |r: int| gather(t[r], s[r]));
    let olds = Seq::new(t.len(), |r: int| gather(t[r], positions_where(f[r], false)));
    let cleared = Seq::new(t.len(), |r: int| cleared_flags(f[r], s[r]));
    let rev = reverse_table(t, news, cap, t.len() as int);
    apply_candidates(
        JoinState { table: t, flags: cleared, work: 0 },
        join_candidates(dao, news, olds, rev, dao.num_data as int),
    )
}

/// Rounds of descent, one per draw of samples, in order.
pub open spec fn descent_rounds(dao: Dao, st: JoinState, draws: Seq<Seq<Seq<usize>>>, cap: nat) -> JoinState
    decreases draws.len(),
{
    if draws.len() == 0 {
        st
    } else {
        descent_round(dao, descent_rounds(dao, st, draws.drop_last(), cap), draws.last(), cap)
    }
}

/// The draws are ones a run of descent from `st` makes: each fits the flags
/// its round starts from, and every round but the last replaced more than
/// `threshold` entries, as the wrapping counter reads them.
pub open spec fn draws_made(dao: Dao, st: JoinState, draws: Seq<Seq<Seq<usize>>>, cap: nat, threshold: usize) -> bool
    decreases draws.len(),
{
    if draws.len() == 0 {
        true
    } else {
        let before = descent_rounds(dao, st, draws.drop_last(), cap);
        &&& draws_made(dao, st, draws.drop_last(), cap, threshold)
        &&& samples_fit(draws.last(), before.flags)
        &&& draws.len() > 1 ==> wrapped_work(0, before.work) > threshold
    }
}

/// A run of descent from table `t0`, all `k` entries of each row flagged
/// new, made with the draws `draws`, ends with table `t1`: the run stops
/// before any round when there are no more than `threshold` data points, and
/// otherwise after the first round that replaces no more than `threshold`
/// entries.
pub open spec fn descent_run(
    dao: Dao,
    t0: Seq<Seq<Nality>>,
    k: nat,
    cap: nat,
    threshold: usize,
    draws: Seq<Seq<Seq<usize>>>,
    t1: Seq<Seq<Nality>>,
) -> bool {
    let st0 = JoinState { table: t0, flags: all_set(t0.len(), k), work: 0 };
    let last = descent_rounds(dao, st0, draws, cap);
    &&& draws_made(dao, st0, draws, cap, threshold)
    &&& t1 == last.table
    &&& if draws.len() == 0 {
        dao.num_data <= threshold
    } else {
        dao.num_data > threshold && wrapped_work(0, last.work) <= threshold
    }
}

/// The table `t1` is what a quiet round leaves: some round of descent, from
/// a table of rows of `k` entries and flags of the same shape, with samples
/// that fit those flags, gives `t1` while replacing no more than `threshold`
/// entries (as a wrapping counter reads them).
pub open spec fn ends_on_quiet_round(dao: Dao, k: nat, cap: nat, threshold: usize, t1: Seq<Seq<Nality>>) -> bool {
    exists|prev: JoinState, s: Seq<Seq<usize>>|
        prev.table.len() == dao.num_data && rows_of_len(prev.table, k) && same_shape(prev.table, prev.flags)
            && samples_fit(s, prev.flags) && (#[trigger] descent_round(dao, prev, s, cap)).table == t1
            && wrapped_work(0, descent_round(dao, prev, s, cap).work) <= threshold
}

/// Improves a neighbour table by rounds of descent until a round replaces
/// no more than `threshold` entries. All entries start flagged new, and the
/// first round always runs unless `num_data <= threshold`. Each round splits
/// every row into new and old lists by a random sample (`draw_samples`,
/// `split_all_rows`), builds reverse lists of at most `reverse_list_size`
/// entries (`build_reverse_lists`) and runs a local join (`local_join`).
///
/// The table it leaves is what `descent_run` makes from the table it was
/// given with the samples it drew, which are left to chance.
///
/// The loop ends for every outcome of the random draws: every replacement
/// raises the table's total similarity. The table keeps its shape and its
/// ids stay data points; a table whose entries all carry their true
/// similarity, or whose rows hold no id twice, stays so; and no row's least
/// similarity decreases.
pub fn get_nn_table2_bsp(
    dao: &Dao,
    neighbourlarities: &mut Vec<Vec<Nality>>,
    num_neighbours: usize,
    threshold: usize,
    reverse_list_size: usize,
)
    requires
        dao.wf(),
        old(neighbourlarities).len() == dao.num_data,
        rows_of_len(table_view(*old(neighbourlarities)), num_neighbours as nat),
        ids_below(table_view(*old(neighbourlarities)), dao.num_data as int),
    ensures
        ({
            let t0 = table_view(*old(neighbourlarities));
            let t1 = table_view(*final(neighbourlarities));
            &&& t1.len() == t0.len()
            &&& rows_of_len(t1, num_neighbours as nat)
            &&& ids_below(t1, dao.num_data as int)
            &&& table_honest(t0, dao_sim_fn(*dao)) ==> table_honest(t1, dao_sim_fn(*dao))
            &&& rows_distinct(t0) ==> rows_distinct(t1)
            &&& forall|r: int| 0 <= r < t0.len() && num_neighbours > 0 ==> row_min_sim(#[trigger] t1[r]) >= row_min_sim(t0[r])
            &&& table_slack(t1) <= table_slack(t0)
            &&& forall|r: int, c: int|
                0 <= r < t0.len() && 0 <= c < t0[r].len() ==> (#[trigger] t1[r][c]).sim >= t0[r][c].sim
        }),
        dao.num_data <= threshold ==> table_view(*final(neighbourlarities)) == table_view(*old(neighbourlarities)),
        dao.num_data > threshold ==> ends_on_quiet_round(
            *dao,
            num_neighbours as nat,
            reverse_list_size as nat,
            threshold,
            table_view(*final(neighbourlarities)),
        ),
        exists|draws: Seq<Seq<Seq<usize>>>|
            #[trigger] descent_run(
                *dao,
                table_view(*old(neighbourlarities)),
                num_neighbours as nat,
                reverse_list_size as nat,
                threshold,
                draws,
                table_view(*final(neighbourlarities)),
            ),
{
    let n = dao.num_data;
    let ghost t0 = table_view(*neighbourlarities);
    let ghost simf = dao_sim_fn(*dao);
    let mut neighbour_is_new = all_new_flags(n, num_neighbours);
    assert(same_shape(t0, flags_view(neighbour_is_new))) by {
        assert forall|r: int| 0 <= r < t0.len() implies (#[trigger] t0[r]).len() == flags_view(neighbour_is_new)[r].len() by {
            assert(neighbour_is_new@[r]@ == Seq::new(num_neighbours as nat, |c: int| true));
        }
    }
    let ghost cap = reverse_list_size as nat;
    let ghost st0 = JoinState { table: t0, flags: all_set(t0.len(), num_neighbours as nat), work: 0 };
    let ghost mut draws: Seq<Seq<Seq<usize>>> = Seq::empty();
    let ghost mut last_start: JoinState = st0;
    let ghost mut last_samples: Seq<Seq<usize>> = Seq::empty();
    assert(flags_view(neighbour_is_new) =~= all_set(n as nat, num_neighbours as nat)) by {
        assert forall|r: int| 0 <= r < n implies #[trigger] flags_view(neighbour_is_new)[r] == all_set(n as nat, num_neighbours as nat)[r] by {
            assert(neighbour_is_new@[r]@ == Seq::new(num_neighbours as nat, |c: int| true));
        }
    }
    let mut work_done: usize = n;
    proof {
        lemma_table_slack_nonneg(t0);
    }
    while work_done > threshold
        invariant
            dao.wf(),
            n == dao.num_data,
            neighbourlarities.len() == n,
            same_shape(table_view(*neighbourlarities), flags_view(neighbour_is_new)),
            rows_of_len(table_view(*neighbourlarities), num_neighbours as nat),
            ids_below(table_view(*neighbourlarities), n as int),
            table_honest(t0, simf) ==> table_honest(table_view(*neighbourlarities), simf),
            rows_distinct(t0) ==> rows_distinct(table_view(*neighbourlarities)),
            forall|r: int|
                0 <= r < t0.len() && num_neighbours > 0 ==> row_min_sim(#[trigger] table_view(*neighbourlarities)[r]) >= row_min_sim(t0[r]),
            table_slack(table_view(*neighbourlarities)) <= table_slack(t0),
            table_slack(table_view(*neighbourlarities)) >= 0,
            forall|r: int, c: int|
                0 <= r < t0.len() && 0 <= c < t0[r].len() ==> (#[trigger] table_view(*neighbourlarities)[r][c]).sim >= t0[r][c].sim,
            t0.len() == n,
            rows_of_len(t0, num_neighbours as nat),
            simf == dao_sim_fn(*dao),
            cap == reverse_list_size as nat,
            st0 == (JoinState { table: t0, flags: all_set(t0.len(), num_neighbours as nat), work: 0 }),
            draws_made(*dao, st0, draws, cap, threshold),
            table_view(*neighbourlarities) == descent_rounds(*dao, st0, draws, cap).table,
            flags_view(neighbour_is_new) == descent_rounds(*dao, st0, draws, cap).flags,
            draws.len() == 0 ==> work_done == n,
            draws.len() > 0 ==> n > threshold && work_done == wrapped_work(0, descent_rounds(*dao, st0, draws, cap).work),
            draws.len() > 0 ==> last_start.table.len() == n && rows_of_len(last_start.table, num_neighbours as nat)
                && same_shape(last_start.table, last_start.flags) && samples_fit(last_samples, last_start.flags)
                && descent_round(*dao, last_start, last_samples, cap) == descent_rounds(*dao, st0, draws, cap),
        decreases table_slack(table_view(*neighbourlarities)), if work_done > threshold { 1int } else { 0int },
    {
        let ghost t_start = table_view(*neighbourlarities);
        let ghost f_start = flags_view(neighbour_is_new);
        let ghost prev = descent_rounds(*dao, st0, draws, cap);
        let samples = draw_samples(&neighbour_is_new);
        let (new_lists, old_lists) = split_all_rows(neighbourlarities, &mut neighbour_is_new, &samples);
        let reverse = build_reverse_lists(neighbourlarities, &new_lists, reverse_list_size);
        proof {
            lemma_reverse_table_ids(t_start, table_view(new_lists), reverse_list_size as nat, n as int);
        }
        let ghost f_mid = flags_view(neighbour_is_new);
        work_done = 0;
        local_join(dao, &new_lists, &old_lists, &reverse, &mut neighbour_is_new, neighbourlarities, &mut work_done);
        proof {
            let s0 = JoinState { table: t_start, flags: f_mid, work: 0 };
            let cs = join_candidates(*dao, table_view(new_lists), table_view(old_lists), table_view(reverse), n as int);
            let after = apply_candidates(s0, cs);
            lemma_join_candidates_ok(*dao, table_view(new_lists), table_view(old_lists), table_view(reverse), n as int);
            lemma_apply_candidates_invariants(s0, cs, n as int, simf);
            lemma_apply_candidates_shape(s0, cs);
            lemma_apply_candidates_progress(s0, cs);
            lemma_apply_candidates_slots_rise(s0, cs);
            assert forall|r: int, c: int|
                0 <= r < t0.len() && 0 <= c < t0[r].len() implies (#[trigger] table_view(*neighbourlarities)[r][c]).sim >= t0[r][c].sim by {
                assert(t_start[r].len() == num_neighbours);
                assert(t0[r].len() == num_neighbours);
                assert(t_start[r][c].sim >= t0[r][c].sim);
                assert(s0.table[r][c] == t_start[r][c]);
                assert(apply_candidates(s0, cs).table[r][c].sim >= s0.table[r][c].sim);
            }
            lemma_table_slack_nonneg(after.table);
            assert(after.table == table_view(*neighbourlarities));
            assert forall|r: int| 0 <= r < t0.len() && num_neighbours > 0 implies row_min_sim(#[trigger] table_view(*neighbourlarities)[r]) >= row_min_sim(t0[r]) by {
                assert(t_start[r].len() == num_neighbours);
                assert(row_min_sim(after.table[r]) >= row_min_sim(t_start[r]));
            }
            assert(rows_of_len(after.table, num_neighbours as nat)) by {
                assert forall|r: int| 0 <= r < after.table.len() implies (#[trigger] after.table[r]).len() == num_neighbours as nat by {
                    assert(t_start[r].len() == num_neighbours);
                }
            }
            vstd::arithmetic::div_mod::lemma_small_mod(0, usize::MAX as nat + 1);
            assert(after.work > 0 || work_done == 0);
            let sv = samples_view(samples);
            assert(table_view(new_lists) =~= Seq::new(t_start.len(), |r: int| gather(t_start[r], sv[r])));
            assert(table_view(old_lists) =~= Seq::new(t_start.len(), |r: int| gather(t_start[r], positions_where(f_start[r], false))));
            assert(f_mid =~= Seq::new(t_start.len(), |r: int| cleared_flags(f_start[r], sv[r])));
            assert(after == descent_round(*dao, prev, sv, cap));
            let draws2 = draws.push(sv);
            assert(draws2.drop_last() =~= draws);
            assert(descent_rounds(*dao, st0, draws2, cap) == after);
            assert(draws_made(*dao, st0, draws2, cap, threshold));
            draws = draws2;
            last_start = prev;
            last_samples = sv;
        }
    }
    proof {
        if draws.len() > 0 {
            assert(descent_round(*dao, last_start, last_samples, cap).table == table_view(*neighbourlarities));
            assert(ends_on_quiet_round(*dao, num_neighbours as nat, cap, threshold, table_view(*neighbourlarities)));
        }
        assert(descent_run(*dao, t0, num_neighbours as nat, cap, threshold, draws, table_view(*neighbourlarities)));
    }
}

} // verus!

verus! {

/// `n` rows of `k` flags, all set.
pub open spec fn all_set(n: nat, k: nat) -> Seq<Seq<bool>> {
    Seq::new(n, |r: int| Seq::new(k, |c: int| true))
}

/// The first two phases of a round started from all-new flags, split by the
/// samples `s`: the flags, new lists, old lists and reverse lists that
/// result.
pub open spec fn first_two_phases(
    t: Seq<Seq<Nality>>,
    k: nat,
    cap: nat,
    s: Seq<Seq<usize>>,
    flags: Seq<Seq<bool>>,
    news: Seq<Seq<Nality>>,
    olds: Seq<Seq<Nality>>,
    rev: Seq<Seq<Nality>>,
) -> bool {
    let f0 = all_set(t.len(), k);
    &&& samples_fit(s, f0)
    &&& flags == Seq::new(t.len(), |r: int| cleared_flags(f0[r], s[r]))
    &&& news == Seq::new(t.len(), |r: int| gather(t[r], s[r]))
    &&& olds == Seq::new(t.len(), |r: int| gather(t[r], positions_where(f0[r], false)))
    &&& rev == reverse_table(t, news, cap, t.len() as int)
}

/// Runs the first two phases of one round of descent from all-new flags
/// and returns what they build: the flags after phase one, the new and old
/// lists, and the reverse lists of at most `reverse_list_size` entries.
fn run_first_two_phases(
    dao: &Dao,
    neighbourlarities: &Vec<Vec<Nality>>,
    num_neighbours: usize,
    reverse_list_size: usize,
) -> (r: (Vec<Vec<bool>>, Vec<Vec<Nality>>, Vec<Vec<Nality>>, Vec<Vec<Nality>>))
    requires
        dao.wf(),
        neighbourlarities.len() == dao.num_data,
        rows_of_len(table_view(*neighbourlarities), num_neighbours as nat),
        ids_below(table_view(*neighbourlarities), dao.num_data as int),
    ensures
        exists|s: Seq<Seq<usize>>|
            first_two_phases(
                table_view(*neighbourlarities),
                num_neighbours as nat,
                reverse_list_size as nat,
                s,
                flags_view(r.0),
                table_view(r.1),
                table_view(r.2),
                table_view(r.3),
            ),
{
    let n = dao.num_data;
    let ghost t = table_view(*neighbourlarities);
    let mut neighbour_is_new = all_new_flags(n, num_neighbours);
    let ghost f0 = flags_view(neighbour_is_new);
    assert(f0 =~= all_set(n as nat, num_neighbours as nat)) by {
        assert forall|r: int| 0 <= r < n implies #[trigger] f0[r] == all_set(n as nat, num_neighbours as nat)[r] by {
            assert(neighbour_is_new@[r]@ == Seq::new(num_neighbours as nat, |c: int| true));
        }
    }
    assert(same_shape(t, f0));
    let samples = draw_samples(&neighbour_is_new);
    let (new_lists, old_lists) = split_all_rows(neighbourlarities, &mut neighbour_is_new, &samples);
    let reverse = build_reverse_lists(neighbourlarities, &new_lists, reverse_list_size);
    proof {
        let s = samples_view(samples);
        assert(flags_view(neighbour_is_new) =~= Seq::new(t.len(), |r: int| cleared_flags(f0[r], s[r])));
        assert(table_view(new_lists) =~= Seq::new(t.len(), |r: int| gather(t[r], s[r])));
        assert(table_view(old_lists) =~= Seq::new(t.len(), |r: int| gather(t[r], positions_where(f0[r], false))));
        assert(first_two_phases(t, num_neighbours as nat, reverse_list_size as nat, s, flags_view(neighbour_is_new), table_view(new_lists), table_view(old_lists), table_view(reverse)));
    }
    let r = (neighbour_is_new, new_lists, old_lists, reverse);
    assert(first_two_phases(t, num_neighbours as nat, reverse_list_size as nat, samples_view(samples), flags_view(r.0), table_view(r.1), table_view(r.2), table_view(r.3)));
    r
}

/// Runs the first two phases of one round of descent from all-new flags
/// (see `run_first_two_phases`) and discards what they build: the table is
/// left as it was, and nothing is returned.
pub fn get_nn_table_up_to_phase2_bsp(
    dao: &Dao,
    neighbourlarities: &Vec<Vec<Nality>>,
    num_neighbours: usize,
    reverse_list_size: usize,
)
    requires
        dao.wf(),
        neighbourlarities.len() == dao.num_data,
        rows_of_len(table_view(*neighbourlarities), num_neighbours as nat),
        ids_below(table_view(*neighbourlarities), dao.num_data as int),
{
    let _ = run_first_two_phases(dao, neighbourlarities, num_neighbours, reverse_list_size);
}

} // verus!
