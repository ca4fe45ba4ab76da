use vstd::prelude::*;
use crate::nality::{Nality, row_min_pos, row_has_id, row_sims, lemma_first_min_pos, minimum_in_nality, contains_id};

verus! {

/// The rows of a table, each as a sequence.
pub open spec fn table_view(t: Vec<Vec<Nality>>) -> Seq<Seq<Nality>> {
    t@.map_values(|r: Vec<Nality>| r@)
}

/// The rows of a table of flags, each as a sequence.
pub open spec fn flags_view(f: Vec<Vec<bool>>) -> Seq<Seq<bool>> {
    f@.map_values(|r: Vec<bool>| r@)
}

/// A proposed entry `(id, sim)` for row `row`.
pub struct Candidate {
    pub row: int,
    pub id: u32,
    pub sim: i64,
}

/// A neighbour table, its "is new" flags and the number of entries that have
/// been replaced so far.
pub struct JoinState {
    pub table: Seq<Seq<Nality>>,
    pub flags: Seq<Seq<bool>>,
    pub work: nat,
}

/// A row takes a proposed entry exactly when the entry is more similar than
/// the row's least similar entry and its id is not in the row yet.
pub open spec fn accepts(row: Seq<Nality>, id: u32, sim: i64) -> bool {
    &&& row.len() > 0
    &&& sim > row[row_min_pos(row)].sim
    &&& !row_has_id(row, id)
}

/// The effect of proposing one entry: when the row accepts it, it replaces
/// the row's first least similar entry, that column is flagged new, and one
/// more unit of work is counted.
pub open spec fn apply_candidate(s: JoinState, c: Candidate) -> JoinState {
    if 0 <= c.row < s.table.len() && c.row < s.flags.len() && accepts(s.table[c.row], c.id, c.sim) {
        let p = row_min_pos(s.table[c.row]);
        JoinState {
            table: s.table.update(c.row, s.table[c.row].update(p, Nality { id: c.id, sim: c.sim })),
            flags: s.flags.update(c.row, s.flags[c.row].update(p, true)),
            work: s.work + 1,
        }
    } else {
        s
    }
}

/// The effect of proposing a sequence of entries, in order.
pub open spec fn apply_candidates(s: JoinState, cs: Seq<Candidate>) -> JoinState
    decreases cs.len(),
{
    if cs.len() == 0 {
        s
    } else {
        apply_candidate(apply_candidates(s, cs.drop_last()), cs.last())
    }
}

/// Proposing `a` then `b` is proposing `a + b`.
pub proof fn lemma_apply_candidates_append(s: JoinState, a: Seq<Candidate>, b: Seq<Candidate>)
    ensures
        apply_candidates(s, a + b) == apply_candidates(apply_candidates(s, a), b),
    decreases b.len(),
{
    if b.len() == 0 {
        assert(a + b =~= a);
    } else {
        assert((a + b).drop_last() =~= a + b.drop_last());
        lemma_apply_candidates_append(s, a, b.drop_last());
    }
}

/// The work counter after `n` more units of work, wrapping as a `usize`.
pub open spec fn wrapped_work(start: usize, n: nat) -> int {
    (start + n) % (usize::MAX as int + 1)
}

/// One unit of work on the counter is the wrapping successor; none leaves it
/// unchanged.
pub proof fn lemma_wrapped_work_step(w: usize)
    ensures
        wrapped_work(w, 0) == w,
        wrapped_work(w, 1) == if w == usize::MAX { 0 } else { w + 1 },
{
    let m = usize::MAX as nat + 1;
    vstd::arithmetic::div_mod::lemma_small_mod(w as nat, m);
    if w < usize::MAX {
        vstd::arithmetic::div_mod::lemma_small_mod((w + 1) as nat, m);
    } else {
        assert(wrapped_work(w, 1) == m % m);
        vstd::arithmetic::div_mod::lemma_mod_self_0(m as int);
    }
}

/// Proposes the entry `(new_nality_addr, new_nality_similarity)` for row
/// `row_id`: when it is more similar than the row's least similar entry and
/// not in the row already, it replaces that entry, the column is flagged new
/// and `work_done` is increased by one (wrapping). The row keeps its
/// length, and a row that holds no id twice still holds none twice.
pub fn check_apply_update(
    row_id: usize,
    new_nality_addr: u32,
    new_nality_similarity: i64,
    neighbour_is_new: &mut Vec<Vec<bool>>,
    neighbourlarities: &mut Vec<Vec<Nality>>,
    work_done: &mut usize,
)
    requires
        row_id < old(neighbourlarities).len(),
        row_id < old(neighbour_is_new).len(),
        old(neighbour_is_new)@[row_id as int].len() >= old(neighbourlarities)@[row_id as int].len(),
    ensures
        ({
            let before = JoinState {
                table: table_view(*old(neighbourlarities)),
                flags: flags_view(*old(neighbour_is_new)),
                work: 0,
            };
            let after = apply_candidate(
                before,
                Candidate { row: row_id as int, id: new_nality_addr, sim: new_nality_similarity },
            );
            &&& table_view(*final(neighbourlarities)) == after.table
            &&& flags_view(*final(neighbour_is_new)) == after.flags
            &&& *final(work_done) == wrapped_work(*old(work_done), after.work)
        }),
        table_view(*final(neighbourlarities))[row_id as int].len() == table_view(*old(neighbourlarities))[row_id as int].len(),
        row_ids_distinct(table_view(*old(neighbourlarities))[row_id as int])
            ==> row_ids_distinct(table_view(*final(neighbourlarities))[row_id as int]),
{
    let ghost t0 = table_view(*neighbourlarities);
    let ghost f0 = flags_view(*neighbour_is_new);
    proof {
        lemma_wrapped_work_step(*work_done);
    }
    if neighbourlarities[row_id].len() == 0 {
        assert(table_view(*neighbourlarities) =~= t0);
        assert(flags_view(*neighbour_is_new) =~= f0);
        return;
    }
    let (min_col_id, min_nality) = minimum_in_nality(&neighbourlarities[row_id]);
    if new_nality_similarity > min_nality.sim {
        if contains_id(&neighbourlarities[row_id], new_nality_addr) {
            assert(table_view(*neighbourlarities) =~= t0);
            assert(flags_view(*neighbour_is_new) =~= f0);
            return;
        }
        proof {
            lemma_first_min_pos(row_sims(t0[row_id as int]), t0[row_id as int].len() as int);
        }
        neighbourlarities[row_id][min_col_id] = Nality::new(new_nality_similarity, new_nality_addr);
        neighbour_is_new[row_id][min_col_id] = true;
        *work_done = if *work_done == usize::MAX { 0 } else { *work_done + 1 };
        assert(table_view(*neighbourlarities) =~= t0.update(
            row_id as int,
            t0[row_id as int].update(min_col_id as int, Nality { id: new_nality_addr, sim: new_nality_similarity }),
        ));
        assert(flags_view(*neighbour_is_new) =~= f0.update(
            row_id as int,
            f0[row_id as int].update(min_col_id as int, true),
        ));
    } else {
        assert(table_view(*neighbourlarities) =~= t0);
        assert(flags_view(*neighbour_is_new) =~= f0);
    }
}

} // verus!

verus! {

/// The table and the flags have the same number of rows, and each row of
/// flags is as long as the table's row.
pub open spec fn same_shape(t: Seq<Seq<Nality>>, f: Seq<Seq<bool>>) -> bool {
    &&& t.len() == f.len()
    &&& forall|r: int| 0 <= r < t.len() ==> (#[trigger] t[r]).len() == f[r].len()
}

/// Proposing entries never changes the number of rows nor their lengths,
/// and never lowers the work count.
pub proof fn lemma_apply_candidates_shape(s: JoinState, cs: Seq<Candidate>)
    requires
        same_shape(s.table, s.flags),
    ensures
        same_shape(apply_candidates(s, cs).table, apply_candidates(s, cs).flags),
        apply_candidates(s, cs).table.len() == s.table.len(),
        apply_candidates(s, cs).flags.len() == s.flags.len(),
        forall|r: int| 0 <= r < s.table.len() ==> (#[trigger] apply_candidates(s, cs).table[r]).len() == s.table[r].len(),
        forall|r: int| 0 <= r < s.flags.len() ==> (#[trigger] apply_candidates(s, cs).flags[r]).len() == s.flags[r].len(),
        apply_candidates(s, cs).work >= s.work,
    decreases cs.len(),
{
    if cs.len() > 0 {
        lemma_apply_candidates_shape(s, cs.drop_last());
        let m = apply_candidates(s, cs.drop_last());
        let c = cs.last();
        if 0 <= c.row < m.table.len() && c.row < m.flags.len() && accepts(m.table[c.row], c.id, c.sim) {
            lemma_first_min_pos(row_sims(m.table[c.row]), m.table[c.row].len() as int);
        }
    }
}

/// Proposals act on the table and flags independently of the count already
/// recorded, and add to it.
pub proof fn lemma_apply_candidates_work_shift(s: JoinState, cs: Seq<Candidate>)
    ensures
        apply_candidates(s, cs).table == apply_candidates(JoinState { work: 0, ..s }, cs).table,
        apply_candidates(s, cs).flags == apply_candidates(JoinState { work: 0, ..s }, cs).flags,
        apply_candidates(s, cs).work == s.work + apply_candidates(JoinState { work: 0, ..s }, cs).work,
    decreases cs.len(),
{
    if cs.len() > 0 {
        lemma_apply_candidates_work_shift(s, cs.drop_last());
    }
}

/// Counting `a` and then `b` more units of work on the wrapping counter is
/// counting `a + b`.
pub proof fn lemma_wrapped_work_compose(w0: usize, a: nat, b: nat)
    ensures
        0 <= wrapped_work(w0, a) <= usize::MAX,
        wrapped_work(wrapped_work(w0, a) as usize, b) == wrapped_work(w0, a + b),
{
    let m = usize::MAX as int + 1;
    let x = w0 + a;
    vstd::arithmetic::div_mod::lemma_add_mod_noop_right(b as int, x, m);
    assert(0 <= x % m < m) by {
        vstd::arithmetic::div_mod::lemma_mod_bound(x, m);
    }
    assert((wrapped_work(w0, a) as usize) as int == x % m);
}

} // verus!

verus! {

/// How far the similarities of a row fall short of `i64::MAX`, summed.
pub open spec fn row_slack(row: Seq<Nality>) -> int
    decreases row.len(),
{
    if row.len() == 0 {
        0
    } else {
        row_slack(row.drop_last()) + (i64::MAX - row.last().sim)
    }
}

/// The slack of all rows of a table, summed.
pub open spec fn table_slack(t: Seq<Seq<Nality>>) -> int
    decreases t.len(),
{
    if t.len() == 0 {
        0
    } else {
        table_slack(t.drop_last()) + row_slack(t.last())
    }
}

pub proof fn lemma_row_slack_nonneg(row: Seq<Nality>)
    ensures
        row_slack(row) >= 0,
    decreases row.len(),
{
    if row.len() > 0 {
        lemma_row_slack_nonneg(row.drop_last());
    }
}

pub proof fn lemma_table_slack_nonneg(t: Seq<Seq<Nality>>)
    ensures
        table_slack(t) >= 0,
    decreases t.len(),
{
    if t.len() > 0 {
        lemma_table_slack_nonneg(t.drop_last());
        lemma_row_slack_nonneg(t.last());
    }
}

proof fn lemma_row_slack_update(row: Seq<Nality>, p: int, x: Nality)
    requires
        0 <= p < row.len(),
    ensures
        row_slack(row.update(p, x)) == row_slack(row) - (i64::MAX - row[p].sim) + (i64::MAX - x.sim),
    decreases row.len(),
{
    let r2 = row.update(p, x);
    if p < row.len() - 1 {
        assert(r2.drop_last() =~= row.drop_last().update(p, x));
        lemma_row_slack_update(row.drop_last(), p, x);
    } else {
        assert(r2.drop_last() =~= row.drop_last());
    }
}

proof fn lemma_table_slack_update(t: Seq<Seq<Nality>>, r: int, row: Seq<Nality>)
    requires
        0 <= r < t.len(),
    ensures
        table_slack(t.update(r, row)) == table_slack(t) - row_slack(t[r]) + row_slack(row),
    decreases t.len(),
{
    let t2 = t.update(r, row);
    if r < t.len() - 1 {
        assert(t2.drop_last() =~= t.drop_last().update(r, row));
        lemma_table_slack_update(t.drop_last(), r, row);
    } else {
        assert(t2.drop_last() =~= t.drop_last());
    }
}

/// Each accepted proposal lowers the table's slack by at least one.
pub proof fn lemma_apply_candidates_progress(s: JoinState, cs: Seq<Candidate>)
    ensures
        table_slack(apply_candidates(s, cs).table) + (apply_candidates(s, cs).work - s.work) <= table_slack(s.table),
    decreases cs.len(),
{
    if cs.len() > 0 {
        lemma_apply_candidates_progress(s, cs.drop_last());
        let m = apply_candidates(s, cs.drop_last());
        let c = cs.last();
        if 0 <= c.row < m.table.len() && c.row < m.flags.len() && accepts(m.table[c.row], c.id, c.sim) {
            let row = m.table[c.row];
            let p = row_min_pos(row);
            lemma_first_min_pos(row_sims(row), row.len() as int);
            lemma_row_slack_update(row, p, Nality { id: c.id, sim: c.sim });
            lemma_table_slack_update(m.table, c.row, row.update(p, Nality { id: c.id, sim: c.sim }));
        }
    }
}

/// Every proposal targets a row below `n` and proposes an id below `n`.
pub open spec fn cands_below(cs: Seq<Candidate>, n: int) -> bool {
    forall|i: int| 0 <= i < cs.len() ==> 0 <= (#[trigger] cs[i]).row < n && cs[i].id < n
}

/// Every proposal carries the similarity of its row to its id.
pub open spec fn cands_honest(cs: Seq<Candidate>, sim: spec_fn(int, int) -> int) -> bool {
    forall|i: int| 0 <= i < cs.len() ==> (#[trigger] cs[i]).sim == sim(cs[i].row, cs[i].id as int)
}

/// Every entry of a table carries the similarity of its row to its id.
pub open spec fn table_honest(t: Seq<Seq<Nality>>, sim: spec_fn(int, int) -> int) -> bool {
    forall|r: int, c: int| 0 <= r < t.len() && 0 <= c < t[r].len() ==> (#[trigger] t[r][c]).sim == sim(r, t[r][c].id as int)
}

/// The row holds no id twice.
pub open spec fn row_ids_distinct(row: Seq<Nality>) -> bool {
    forall|c1: int, c2: int|
        0 <= c1 < row.len() && 0 <= c2 < row.len() && c1 != c2 ==> (#[trigger] row[c1]).id != (#[trigger] row[c2]).id
}

/// No row of the table holds an id twice.
pub open spec fn rows_distinct(t: Seq<Seq<Nality>>) -> bool {
    forall|r: int, c1: int, c2: int|
        0 <= r < t.len() && 0 <= c1 < t[r].len() && 0 <= c2 < t[r].len() && c1 != c2 ==> (#[trigger] t[r][c1]).id
            != (#[trigger] t[r][c2]).id
}

/// The similarity of a row's least similar entry.
pub open spec fn row_min_sim(row: Seq<Nality>) -> i64 {
    row[row_min_pos(row)].sim
}

/// Proposals keep ids below `n` when they propose ids below `n`; keep every
/// entry honest when they are honest; never put an id twice in a row; and
/// never lower the least similarity of a row.
pub proof fn lemma_apply_candidates_invariants(
    s: JoinState,
    cs: Seq<Candidate>,
    n: int,
    sim: spec_fn(int, int) -> int,
)
    ensures
        ids_below(s.table, n) && cands_below(cs, n) ==> ids_below(apply_candidates(s, cs).table, n),
        table_honest(s.table, sim) && cands_honest(cs, sim) ==> table_honest(apply_candidates(s, cs).table, sim),
        rows_distinct(s.table) ==> rows_distinct(apply_candidates(s, cs).table),
        forall|r: int|
            0 <= r < s.table.len() && s.table[r].len() > 0 ==> row_min_sim(#[trigger] apply_candidates(s, cs).table[r])
                >= row_min_sim(s.table[r]),
    decreases cs.len(),
{
    if cs.len() > 0 {
        let cs0 = cs.drop_last();
        lemma_apply_candidates_invariants(s, cs0, n, sim);
        lemma_apply_candidates_shape_table(s, cs0);
        let m = apply_candidates(s, cs0);
        let c = cs.last();
        assert(cands_below(cs, n) ==> cands_below(cs0, n)) by {
            if cands_below(cs, n) {
                assert forall|i: int| 0 <= i < cs0.len() implies 0 <= (#[trigger] cs0[i]).row < n && cs0[i].id < n by {
                    assert(cs0[i] == cs[i]);
                }
            }
        }
        assert(cands_honest(cs, sim) ==> cands_honest(cs0, sim)) by {
            if cands_honest(cs, sim) {
                assert forall|i: int| 0 <= i < cs0.len() implies (#[trigger] cs0[i]).sim == sim(cs0[i].row, cs0[i].id as int) by {
                    assert(cs0[i] == cs[i]);
                }
            }
        }
        if 0 <= c.row < m.table.len() && c.row < m.flags.len() && accepts(m.table[c.row], c.id, c.sim) {
            let row = m.table[c.row];
            let p = row_min_pos(row);
            let x = Nality { id: c.id, sim: c.sim };
            let row2 = row.update(p, x);
            let t2 = m.table.update(c.row, row2);
            lemma_first_min_pos(row_sims(row), row.len() as int);
            assert(cs[cs.len() - 1] == c);
            // least similarity of the changed row
            lemma_first_min_pos(row_sims(row2), row2.len() as int);
            assert(row_min_sim(row2) >= row_min_sim(row)) by {
                let q = row_min_pos(row2);
                if q == p {
                } else {
                    assert(row2[q] == row[q]);
                    assert(row_sims(row)[q] == row[q].sim);
                }
            }
            assert forall|r: int| 0 <= r < s.table.len() && s.table[r].len() > 0 implies row_min_sim(
                #[trigger] apply_candidates(s, cs).table[r],
            ) >= row_min_sim(s.table[r]) by {
                if r != c.row {
                    assert(apply_candidates(s, cs).table[r] == m.table[r]);
                }
            }
            if rows_distinct(s.table) {
                assert forall|r: int, c1: int, c2: int|
                    0 <= r < t2.len() && 0 <= c1 < t2[r].len() && 0 <= c2 < t2[r].len() && c1 != c2 implies (#[trigger] t2[r][c1]).id
                        != (#[trigger] t2[r][c2]).id by {
                    if r == c.row {
                        if c1 == p {
                            assert(row[c2] == t2[r][c2]);
                        } else if c2 == p {
                            assert(row[c1] == t2[r][c1]);
                        } else {
                            assert(m.table[r][c1] == t2[r][c1]);
                        }
                    } else {
                        assert(m.table[r] == t2[r]);
                    }
                }
            }
            if ids_below(s.table, n) && cands_below(cs, n) {
                assert forall|r: int, cc: int| 0 <= r < t2.len() && 0 <= cc < t2[r].len() implies (#[trigger] t2[r][cc]).id < n by {
                    if r == c.row && cc == p {
                    } else if r == c.row {
                        assert(t2[r][cc] == m.table[r][cc]);
                    } else {
                        assert(t2[r] == m.table[r]);
                    }
                }
            }
            if table_honest(s.table, sim) && cands_honest(cs, sim) {
                assert forall|r: int, cc: int| 0 <= r < t2.len() && 0 <= cc < t2[r].len() implies (#[trigger] t2[r][cc]).sim == sim(r, t2[r][cc].id as int) by {
                    if r == c.row && cc == p {
                    } else if r == c.row {
                        assert(t2[r][cc] == m.table[r][cc]);
                    } else {
                        assert(t2[r] == m.table[r]);
                    }
                }
            }
        }
    }
}

/// All ids of a table lie below `n`.
pub open spec fn ids_below(t: Seq<Seq<Nality>>, n: int) -> bool {
    forall|r: int, c: int| 0 <= r < t.len() && 0 <= c < t[r].len() ==> (#[trigger] t[r][c]).id < n
}

/// Proposals keep the number of rows and their lengths.
pub proof fn lemma_apply_candidates_shape_table(s: JoinState, cs: Seq<Candidate>)
    ensures
        apply_candidates(s, cs).table.len() == s.table.len(),
        forall|r: int| 0 <= r < s.table.len() ==> (#[trigger] apply_candidates(s, cs).table[r]).len() == s.table[r].len(),
    decreases cs.len(),
{
    if cs.len() > 0 {
        lemma_apply_candidates_shape_table(s, cs.drop_last());
        let m = apply_candidates(s, cs.drop_last());
        let c = cs.last();
        if 0 <= c.row < m.table.len() && c.row < m.flags.len() && accepts(m.table[c.row], c.id, c.sim) {
            lemma_first_min_pos(row_sims(m.table[c.row]), m.table[c.row].len() as int);
        }
    }
}

/// Proposals never lower the similarity held in any slot of the table: a
/// slot is only overwritten by a strictly more similar entry.
pub proof fn lemma_apply_candidates_slots_rise(s: JoinState, cs: Seq<Candidate>)
    ensures
        forall|r: int, c: int|
            0 <= r < s.table.len() && 0 <= c < s.table[r].len() ==> (#[trigger] apply_candidates(s, cs).table[r][c]).sim
                >= s.table[r][c].sim,
    decreases cs.len(),
{
    if cs.len() > 0 {
        lemma_apply_candidates_slots_rise(s, cs.drop_last());
        lemma_apply_candidates_shape_table(s, cs.drop_last());
        let m = apply_candidates(s, cs.drop_last());
        let x = cs.last();
        if 0 <= x.row < m.table.len() && x.row < m.flags.len() && accepts(m.table[x.row], x.id, x.sim) {
            let p = row_min_pos(m.table[x.row]);
            lemma_first_min_pos(row_sims(m.table[x.row]), m.table[x.row].len() as int);
            assert forall|r: int, c: int|
                0 <= r < s.table.len() && 0 <= c < s.table[r].len() implies (#[trigger] apply_candidates(s, cs).table[r][c]).sim
                    >= s.table[r][c].sim by {
                assert(m.table[r][c].sim >= s.table[r][c].sim);
                if r == x.row && c == p {
                    assert(row_sims(m.table[x.row])[p] == m.table[x.row][p].sim);
                }
            }
        } else {
            assert forall|r: int, c: int|
                0 <= r < s.table.len() && 0 <= c < s.table[r].len() implies (#[trigger] apply_candidates(s, cs).table[r][c]).sim
                    >= s.table[r][c].sim by {
                assert(m.table[r][c].sim >= s.table[r][c].sim);
            }
        }
    }
}

/// A proposal is settled in a table when its id sits in its row, or the
/// row's least similarity is at least the proposal's similarity.
pub open spec fn settled(t: Seq<Seq<Nality>>, c: Candidate) -> bool {
    row_has_id(t[c.row], c.id) || row_min_sim(t[c.row]) >= c.sim
}

/// A further proposal never unsettles an honest proposal in an honest
/// table: an id leaves a row only as its least similar entry, and the
/// row's least similarity never falls.
proof fn lemma_apply_candidate_keeps_settled(s: JoinState, c: Candidate, d: Candidate, sim: spec_fn(int, int) -> int)
    requires
        table_honest(s.table, sim),
        0 <= d.row < s.table.len(),
        s.table[d.row].len() > 0,
        d.sim == sim(d.row, d.id as int),
        settled(s.table, d),
    ensures
        settled(apply_candidate(s, c).table, d),
{
    if 0 <= c.row < s.table.len() && c.row < s.flags.len() && accepts(s.table[c.row], c.id, c.sim) && c.row == d.row {
        let row = s.table[d.row];
        let p = row_min_pos(row);
        let row2 = row.update(p, Nality { id: c.id, sim: c.sim });
        let t1 = apply_candidate(s, c).table;
        assert(t1[d.row] == row2);
        lemma_first_min_pos(row_sims(row), row.len() as int);
        lemma_first_min_pos(row_sims(row2), row2.len() as int);
        let m2 = row_min_pos(row2);
        assert(row_sims(row)[p] == row[p].sim);
        assert(row_sims(row2)[m2] == row2[m2].sim);
        if m2 != p {
            assert(row2[m2] == row[m2]);
            assert(row_sims(row)[m2] == row[m2].sim);
        }
        assert(row_min_sim(row2) >= row_min_sim(row));
        if row_has_id(row, d.id) {
            let q = choose|q: int| 0 <= q < row.len() && (#[trigger] row[q]).id == d.id;
            if q != p {
                assert(row2[q] == row[q]);
            } else {
                assert(row[p].sim == sim(d.row, row[p].id as int));
            }
        }
    }
}

/// A proposal to a non-empty row is settled once it has been made.
proof fn lemma_apply_candidate_settles(s: JoinState, c: Candidate)
    requires
        0 <= c.row < s.table.len(),
        c.row < s.flags.len(),
        s.table[c.row].len() > 0,
    ensures
        settled(apply_candidate(s, c).table, c),
{
    if accepts(s.table[c.row], c.id, c.sim) {
        let row = s.table[c.row];
        let p = row_min_pos(row);
        lemma_first_min_pos(row_sims(row), row.len() as int);
        let t1 = apply_candidate(s, c).table;
        assert(t1[c.row][p] == Nality { id: c.id, sim: c.sim });
    }
}

/// After honest proposals to an honest table with no empty row, every one
/// of them is settled: its id sits in its row, or that row's least
/// similarity is at least the proposal's similarity.
pub proof fn lemma_apply_candidates_settle(s: JoinState, cs: Seq<Candidate>, sim: spec_fn(int, int) -> int)
    requires
        table_honest(s.table, sim),
        cands_honest(cs, sim),
        same_shape(s.table, s.flags),
        forall|r: int| 0 <= r < s.table.len() ==> (#[trigger] s.table[r]).len() > 0,
        forall|k: int| 0 <= k < cs.len() ==> 0 <= (#[trigger] cs[k]).row < s.table.len(),
    ensures
        forall|k: int| 0 <= k < cs.len() ==> settled(apply_candidates(s, cs).table, #[trigger] cs[k]),
    decreases cs.len(),
{
    if cs.len() > 0 {
        let cs0 = cs.drop_last();
        let c = cs.last();
        assert(cands_honest(cs0, sim)) by {
            assert forall|k: int| 0 <= k < cs0.len() implies (#[trigger] cs0[k]).sim == sim(cs0[k].row, cs0[k].id as int) by {
                assert(cs0[k] == cs[k]);
            }
        }
        assert forall|k: int| 0 <= k < cs0.len() implies 0 <= (#[trigger] cs0[k]).row < s.table.len() by {
            assert(cs0[k] == cs[k]);
        }
        lemma_apply_candidates_settle(s, cs0, sim);
        lemma_apply_candidates_invariants(s, cs0, s.table.len() as int, sim);
        lemma_apply_candidates_shape(s, cs0);
        let m = apply_candidates(s, cs0);
        assert(apply_candidates(s, cs) == apply_candidate(m, c));
        assert forall|k: int| 0 <= k < cs.len() implies settled(apply_candidates(s, cs).table, #[trigger] cs[k]) by {
            if k < cs.len() - 1 {
                assert(cs[k] == cs0[k]);
                assert(m.table[cs[k].row].len() > 0);
                lemma_apply_candidate_keeps_settled(m, c, cs[k], sim);
            } else {
                assert(m.table[c.row].len() > 0);
                lemma_apply_candidate_settles(m, c);
            }
        }
    }
}

} // verus!
