use vstd::prelude::*;
use crate::nality::{Nality, row_min_pos, row_has_id, row_sims, lemma_first_min_pos, minimum_in_nality, contains_id};
use crate::update::{table_view, ids_below};

verus! {

/// The positions, in increasing order, at which the flags equal `b`.
pub open spec fn positions_where(f: Seq<bool>, b: bool) -> Seq<usize>
    decreases f.len(),
{
    if f.len() == 0 {
        Seq::empty()
    } else {
        let p = positions_where(f.drop_last(), b);
        if f.last() == b {
            p.push((f.len() - 1) as usize)
        } else {
            p
        }
    }
}

/// `s` holds exactly `amount` distinct indices below `length`.
pub open spec fn is_sample(s: Seq<usize>, length: nat, amount: nat) -> bool {
    &&& s.len() == amount
    &&& forall|i: int| 0 <= i < s.len() ==> #[trigger] s[i] < length
    &&& s.no_duplicates()
}

/// Every listed position lies below the number of flags.
pub proof fn lemma_positions_where_bounded(f: Seq<bool>, b: bool)
    requires
        f.len() <= usize::MAX,
    ensures
        positions_where(f, b).len() <= f.len(),
        forall|i: int| 0 <= i < positions_where(f, b).len() ==> #[trigger] positions_where(f, b)[i] < f.len(),
        forall|i: int| 0 <= i < positions_where(f, b).len() ==> f[#[trigger] positions_where(f, b)[i] as int] == b,
    decreases f.len(),
{
    if f.len() > 0 {
        let g = f.drop_last();
        lemma_positions_where_bounded(g, b);
        assert forall|i: int| 0 <= i < positions_where(g, b).len() implies f[#[trigger] positions_where(g, b)[i] as int] == b by {
            assert(f[positions_where(g, b)[i] as int] == g[positions_where(g, b)[i] as int]);
        }
        let p = positions_where(f, b);
        assert forall|i: int| 0 <= i < p.len() implies f[#[trigger] p[i] as int] == b && p[i] < f.len() by {
            if i < positions_where(g, b).len() {
                assert(p[i] == positions_where(g, b)[i]);
            } else {
                assert(p[i] == (f.len() - 1) as usize);
            }
        }
    }
}

/// The positions at which the flags equal `b`.
pub fn get_selectors_from_flags(flags: &Vec<bool>, b: bool) -> (r: Vec<usize>)
    ensures
        r@ == positions_where(flags@, b),
{
    let mut r: Vec<usize> = Vec::new();
    let mut i: usize = 0;
    while i < flags.len()
        invariant
            i <= flags.len(),
            r@ == positions_where(flags@.take(i as int), b),
        decreases flags.len() - i,
    {
        assert(flags@.take(i as int + 1).drop_last() =~= flags@.take(i as int));
        if flags[i] == b {
            r.push(i);
        }
        i = i + 1;
    }
    assert(flags@.take(flags.len() as int) =~= flags@);
    r
}

/// The entries of `row` at the given positions, in the given order.
pub open spec fn gather(row: Seq<Nality>, positions: Seq<usize>) -> Seq<Nality> {
    positions.map_values(|p: usize| row[p as int])
}

/// The entries of `row` at the given positions, in the given order.
pub fn get_slice_using_selectors(row: &Vec<Nality>, positions: &Vec<usize>) -> (r: Vec<Nality>)
    requires
        forall|i: int| 0 <= i < positions.len() ==> #[trigger] positions@[i] < row.len(),
    ensures
        r@ == gather(row@, positions@),
{
    let mut r: Vec<Nality> = Vec::new();
    let mut i: usize = 0;
    while i < positions.len()
        invariant
            i <= positions.len(),
            forall|j: int| 0 <= j < positions.len() ==> #[trigger] positions@[j] < row.len(),
            r@ == gather(row@, positions@.take(i as int)),
        decreases positions.len() - i,
    {
        r.push(row[positions[i]]);
        i = i + 1;
        assert(gather(row@, positions@.take(i as int)) =~= gather(row@, positions@.take(i - 1)).push(
            row@[positions@[i - 1] as int],
        ));
    }
    assert(positions@.take(positions.len() as int) =~= positions@);
    r
}

/// Flags after the sampled positions have been marked old.
pub open spec fn cleared_flags(f: Seq<bool>, sampled: Seq<usize>) -> Seq<bool> {
    Seq::new(f.len(), |j: int| if sampled.contains(j as usize) { false } else { f[j] })
}

/// Splits one row of the neighbour table for a round of descent. With `n`
/// the number of entries flagged new, `sampled` holds `n` distinct positions
/// below `n`; the returned new list holds the row's entries at the sampled
/// positions, in sampled order, and the old list the entries at the
/// positions flagged old, in column order. The sampled positions are then
/// flagged old.
pub fn split_row_new_old(row: &Vec<Nality>, row_flags: &mut Vec<bool>, sampled: &Vec<usize>) -> (r: (
    Vec<Nality>,
    Vec<Nality>,
))
    requires
        old(row_flags).len() == row.len(),
        is_sample(
            sampled@,
            positions_where(old(row_flags)@, true).len(),
            positions_where(old(row_flags)@, true).len(),
        ),
    ensures
        r.0@ == gather(row@, sampled@),
        r.1@ == gather(row@, positions_where(old(row_flags)@, false)),
        final(row_flags)@ == cleared_flags(old(row_flags)@, sampled@),
{
    proof {
        lemma_positions_where_bounded(row_flags@, true);
        lemma_positions_where_bounded(row_flags@, false);
    }
    let old_indices = get_selectors_from_flags(row_flags, false);
    let new_list = get_slice_using_selectors(row, sampled);
    let old_list = get_slice_using_selectors(row, &old_indices);
    fill_false_from_selectors(row_flags, sampled);
    (new_list, old_list)
}

/// Marks the selected positions false.
pub fn fill_false_from_selectors(flags: &mut Vec<bool>, selectors: &Vec<usize>)
    requires
        forall|i: int| 0 <= i < selectors.len() ==> #[trigger] selectors@[i] < old(flags).len(),
    ensures
        final(flags)@ == cleared_flags(old(flags)@, selectors@),
{
    let ghost f0 = flags@;
    let mut i: usize = 0;
    while i < selectors.len()
        invariant
            i <= selectors.len(),
            forall|j: int| 0 <= j < selectors.len() ==> #[trigger] selectors@[j] < f0.len(),
            flags@ == cleared_flags(f0, selectors@.take(i as int)),
        decreases selectors.len() - i,
    {
        let ghost before = flags@;
        assert(f0.len() == flags.len());
        flags.set(selectors[i], false);
        i = i + 1;
        assert forall|j: int| 0 <= j < f0.len() implies #[trigger] flags@[j] == cleared_flags(f0, selectors@.take(i as int))[j] by {
            let s = selectors@.take(i as int);
            let s0 = selectors@.take(i - 1);
            let sel = selectors@[i - 1];
            assert(s =~= s0.push(sel));
            if j == sel as int {
                assert(s[i - 1] == sel);
                assert(s.contains(j as usize));
            } else {
                assert(flags@[j] == before[j]);
                if s.contains(j as usize) {
                    let k = choose|k: int| 0 <= k < s.len() && s[k] == j as usize;
                    assert(s[i - 1] == sel);
                    assert((j as usize) as int == j);
                    assert(k != i - 1);
                    assert(s0[k] == j as usize);
                    assert(s0.contains(j as usize));
                }
                if s0.contains(j as usize) {
                    let k = choose|k: int| 0 <= k < s0.len() && s0[k] == j as usize;
                    assert(s[k] == j as usize);
                    assert(s.contains(j as usize));
                }
            }
        }
        assert(flags@ =~= cleared_flags(f0, selectors@.take(i as int)));
    }
    assert(selectors@.take(selectors.len() as int) =~= selectors@);
}

} // verus!

verus! {

/// A reverse list with room for `cap` entries takes a candidate while it is
/// not full; once full, the candidate replaces the first least similar entry
/// when it is strictly more similar.
pub open spec fn reverse_insert(rev: Seq<Nality>, cand: Nality, cap: nat) -> Seq<Nality> {
    if rev.len() < cap {
        rev.push(cand)
    } else if rev.len() > 0 && rev[row_min_pos(rev)].sim < cand.sim {
        rev.update(row_min_pos(rev), cand)
    } else {
        rev
    }
}

/// Entry `e` of row `r` offers `(r, e.sim)` to the reverse list of `e.id`,
/// unless the new list of `e.id` already holds `r`.
pub open spec fn reverse_step(
    rev: Seq<Seq<Nality>>,
    new_lists: Seq<Seq<Nality>>,
    r: int,
    e: Nality,
    cap: nat,
) -> Seq<Seq<Nality>> {
    let t = e.id as int;
    if 0 <= t < rev.len() && t < new_lists.len() && !row_has_id(new_lists[t], r as u32) {
        rev.update(t, reverse_insert(rev[t], Nality { id: r as u32, sim: e.sim }, cap))
    } else {
        rev
    }
}

/// The reverse lists after the first `c` entries of row `r` have been offered.
pub open spec fn reverse_row_pass(
    rev: Seq<Seq<Nality>>,
    new_lists: Seq<Seq<Nality>>,
    r: int,
    row: Seq<Nality>,
    c: int,
    cap: nat,
) -> Seq<Seq<Nality>>
    decreases c,
{
    if c <= 0 {
        rev
    } else {
        reverse_step(reverse_row_pass(rev, new_lists, r, row, c - 1, cap), new_lists, r, row[c - 1], cap)
    }
}

/// The reverse lists after the first `rows` rows of the table have offered
/// all their entries, row by row and column by column.
pub open spec fn reverse_table(
    table: Seq<Seq<Nality>>,
    new_lists: Seq<Seq<Nality>>,
    cap: nat,
    rows: int,
) -> Seq<Seq<Nality>>
    decreases rows,
{
    if rows <= 0 {
        Seq::new(table.len(), |i: int| Seq::<Nality>::empty())
    } else {
        let r = rows - 1;
        reverse_row_pass(reverse_table(table, new_lists, cap, r), new_lists, r, table[r], table[r].len() as int, cap)
    }
}


proof fn lemma_reverse_row_pass_len(rev: Seq<Seq<Nality>>, new_lists: Seq<Seq<Nality>>, r: int, row: Seq<Nality>, c: int, cap: nat)
    ensures
        reverse_row_pass(rev, new_lists, r, row, c, cap).len() == rev.len(),
    decreases c,
{
    if c > 0 {
        lemma_reverse_row_pass_len(rev, new_lists, r, row, c - 1, cap);
    }
}

proof fn lemma_reverse_table_len(table: Seq<Seq<Nality>>, new_lists: Seq<Seq<Nality>>, cap: nat, rows: int)
    ensures
        reverse_table(table, new_lists, cap, rows).len() == table.len(),
    decreases rows,
{
    if rows > 0 {
        lemma_reverse_table_len(table, new_lists, cap, rows - 1);
        lemma_reverse_row_pass_len(reverse_table(table, new_lists, cap, rows - 1), new_lists, rows - 1, table[rows - 1], table[rows - 1].len() as int, cap);
    }
}

/// Builds the reverse lists of a round of descent: for every row `r` and
/// every entry `e` of that row, in order, `(r, e.sim)` is offered to the
/// reverse list of `e.id` unless the new list of `e.id` holds `r`; each
/// reverse list keeps at most `reverse_list_size` entries (see
/// `reverse_insert`).
pub fn build_reverse_lists(
    neighbourlarities: &Vec<Vec<Nality>>,
    new_lists: &Vec<Vec<Nality>>,
    reverse_list_size: usize,
) -> (rev: Vec<Vec<Nality>>)
    requires
        new_lists.len() == neighbourlarities.len(),
        neighbourlarities.len() <= u32::MAX,
        ids_below(table_view(*neighbourlarities), neighbourlarities.len() as int),
    ensures
        table_view(rev) == reverse_table(
            table_view(*neighbourlarities),
            table_view(*new_lists),
            reverse_list_size as nat,
            neighbourlarities.len() as int,
        ),
{
    let n = neighbourlarities.len();
    let ghost t = table_view(*neighbourlarities);
    let ghost nl = table_view(*new_lists);
    let ghost cap = reverse_list_size as nat;
    let mut reverse: Vec<Vec<Nality>> = Vec::new();
    let mut i: usize = 0;
    while i < n
        invariant
            i <= n,
            reverse.len() == i,
            forall|j: int| 0 <= j < i ==> (#[trigger] reverse@[j])@.len() == 0,
        decreases n - i,
    {
        reverse.push(Vec::new());
        i = i + 1;
    }
    assert(t.len() == n);
    assert forall|j: int| 0 <= j < n implies table_view(reverse)[j] == Seq::<Nality>::empty() by {
        assert(table_view(reverse)[j] =~= Seq::<Nality>::empty());
    }
    assert(table_view(reverse) =~= reverse_table(t, nl, cap, 0));
    let mut row: usize = 0;
    while row < n
        invariant
            n == neighbourlarities.len(),
            n == new_lists.len(),
            n <= u32::MAX,
            t == table_view(*neighbourlarities),
            nl == table_view(*new_lists),
            cap == reverse_list_size as nat,
            ids_below(t, n as int),
            t.len() == n,
            row <= n,
            table_view(reverse) == reverse_table(t, nl, cap, row as int),
        decreases n - row,
    {
        let k = neighbourlarities[row].len();
        let ghost start = reverse_table(t, nl, cap, row as int);
        let mut c: usize = 0;
        while c < k
            invariant
                n == neighbourlarities.len(),
                n == new_lists.len(),
                n <= u32::MAX,
                t == table_view(*neighbourlarities),
                nl == table_view(*new_lists),
                cap == reverse_list_size as nat,
                ids_below(t, n as int),
                t.len() == n,
                row < n,
                k == t[row as int].len(),
                start == reverse_table(t, nl, cap, row as int),
                c <= k,
                table_view(reverse) == reverse_row_pass(start, nl, row as int, t[row as int], c as int, cap),
            decreases k - c,
        {
            let e = neighbourlarities[row][c];
            assert(e == t[row as int][c as int]);
            let this_id = e.id as usize;
            let ghost before = table_view(reverse);
            proof {
                lemma_reverse_table_len(t, nl, cap, row as int);
                lemma_reverse_row_pass_len(start, nl, row as int, t[row as int], c as int, cap);
            }
            assert(start.len() == n);
            assert(before.len() == start.len());
            assert(table_view(reverse).len() == reverse.len());
            assert(reverse.len() == n);
            if !contains_id(&new_lists[this_id], row as u32) {
                let cand = Nality::new(e.sim, row as u32);
                if reverse[this_id].len() < reverse_list_size {
                    reverse[this_id].push(cand);
                    assert(table_view(reverse) =~= before.update(this_id as int, before[this_id as int].push(cand)));
                } else if reverse[this_id].len() > 0 {
                    let (position, value) = minimum_in_nality(&reverse[this_id]);
                    if value.sim < e.sim {
                        proof {
                            lemma_first_min_pos(row_sims(before[this_id as int]), before[this_id as int].len() as int);
                        }
                        reverse[this_id][position] = cand;
                        assert(table_view(reverse) =~= before.update(this_id as int, before[this_id as int].update(position as int, cand)));
                    } else {
                        assert(table_view(reverse) =~= before);
                    }
                } else {
                    assert(table_view(reverse) =~= before);
                }
            } else {
                assert(table_view(reverse) =~= before);
            }
            c = c + 1;
        }
        row = row + 1;
    }
    reverse
}

} // verus!

verus! {

proof fn lemma_reverse_row_pass_ids(rev: Seq<Seq<Nality>>, new_lists: Seq<Seq<Nality>>, r: int, row: Seq<Nality>, c: int, cap: nat, bound: int)
    requires
        ids_below(rev, bound),
        0 <= r < bound,
        bound <= u32::MAX + 1,
    ensures
        ids_below(reverse_row_pass(rev, new_lists, r, row, c, cap), bound),
    decreases c,
{
    if c > 0 {
        lemma_reverse_row_pass_ids(rev, new_lists, r, row, c - 1, cap, bound);
        let m = reverse_row_pass(rev, new_lists, r, row, c - 1, cap);
        let e = row[c - 1];
        let t = e.id as int;
        if 0 <= t < m.len() && t < new_lists.len() && !row_has_id(new_lists[t], r as u32) {
            let cand = Nality { id: r as u32, sim: e.sim };
            let ins = reverse_insert(m[t], cand, cap);
            assert((r as u32) as int == r);
            if m[t].len() < cap {
            } else if m[t].len() > 0 && m[t][row_min_pos(m[t])].sim < cand.sim {
                lemma_first_min_pos(row_sims(m[t]), m[t].len() as int);
            }
            let m2 = m.update(t, ins);
            assert forall|i: int, j: int| 0 <= i < m2.len() && 0 <= j < m2[i].len() implies (#[trigger] m2[i][j]).id < bound by {
                if i == t {
                    if j < m[t].len() && ins[j] == m[t][j] {
                        assert(m[i][j] == m2[i][j]);
                    }
                } else {
                    assert(m2[i] == m[i]);
                }
            }
        }
    }
}

/// Every reverse list holds ids of rows already visited, and there is one
/// reverse list per row of the table.
pub proof fn lemma_reverse_table_ids(table: Seq<Seq<Nality>>, new_lists: Seq<Seq<Nality>>, cap: nat, rows: int)
    requires
        rows <= table.len(),
        table.len() <= u32::MAX,
    ensures
        ids_below(reverse_table(table, new_lists, cap, rows), table.len() as int),
        reverse_table(table, new_lists, cap, rows).len() == table.len(),
    decreases rows,
{
    lemma_reverse_table_len(table, new_lists, cap, rows);
    if rows > 0 {
        lemma_reverse_table_ids(table, new_lists, cap, rows - 1);
        lemma_reverse_row_pass_ids(reverse_table(table, new_lists, cap, rows - 1), new_lists, rows - 1, table[rows - 1], table[rows - 1].len() as int, cap, table.len() as int);
    }
}

/// Every reverse list holds at most `cap` entries.
pub open spec fn lists_within(l: Seq<Seq<Nality>>, cap: nat) -> bool {
    forall|i: int| 0 <= i < l.len() ==> (#[trigger] l[i]).len() <= cap
}

proof fn lemma_reverse_row_pass_within(rev: Seq<Seq<Nality>>, new_lists: Seq<Seq<Nality>>, r: int, row: Seq<Nality>, c: int, cap: nat)
    requires
        lists_within(rev, cap),
    ensures
        lists_within(reverse_row_pass(rev, new_lists, r, row, c, cap), cap),
    decreases c,
{
    if c > 0 {
        lemma_reverse_row_pass_within(rev, new_lists, r, row, c - 1, cap);
        let m = reverse_row_pass(rev, new_lists, r, row, c - 1, cap);
        let t = row[c - 1].id as int;
        if 0 <= t < m.len() && t < new_lists.len() && !row_has_id(new_lists[t], r as u32) {
            if m[t].len() >= cap && m[t].len() > 0 && m[t][row_min_pos(m[t])].sim < row[c - 1].sim {
                lemma_first_min_pos(row_sims(m[t]), m[t].len() as int);
            }
            let m2 = reverse_step(m, new_lists, r, row[c - 1], cap);
            assert forall|i: int| 0 <= i < m2.len() implies (#[trigger] m2[i]).len() <= cap by {
                if i != t {
                    assert(m2[i] == m[i]);
                }
            }
        }
    }
}

/// No reverse list ever holds more than `cap` entries.
pub proof fn lemma_reverse_table_within(table: Seq<Seq<Nality>>, new_lists: Seq<Seq<Nality>>, cap: nat, rows: int)
    ensures
        lists_within(reverse_table(table, new_lists, cap, rows), cap),
    decreases rows,
{
    if rows > 0 {
        lemma_reverse_table_within(table, new_lists, cap, rows - 1);
        lemma_reverse_row_pass_within(reverse_table(table, new_lists, cap, rows - 1), new_lists, rows - 1, table[rows - 1], table[rows - 1].len() as int, cap);
    }
}

} // verus!

verus! {

/// Entry `e` of reverse list `tt` comes from a row that lists `tt` with the
/// same similarity, and `tt`'s new list does not hold that row.
pub open spec fn reverse_entry_sound(
    table: Seq<Seq<Nality>>,
    new_lists: Seq<Seq<Nality>>,
    tt: int,
    e: Nality,
) -> bool {
    &&& e.id < table.len()
    &&& exists|c: int| 0 <= c < table[e.id as int].len() && (#[trigger] table[e.id as int][c]).id == tt && table[e.id as int][c].sim == e.sim
    &&& !row_has_id(new_lists[tt], e.id)
}

/// Every entry of every reverse list is sound.
pub open spec fn reverse_sound(rev: Seq<Seq<Nality>>, table: Seq<Seq<Nality>>, new_lists: Seq<Seq<Nality>>) -> bool {
    forall|tt: int, j: int| 0 <= tt < rev.len() && 0 <= j < rev[tt].len() ==> reverse_entry_sound(table, new_lists, tt, #[trigger] rev[tt][j])
}

proof fn lemma_reverse_row_pass_sound(
    rev: Seq<Seq<Nality>>,
    table: Seq<Seq<Nality>>,
    new_lists: Seq<Seq<Nality>>,
    r: int,
    c: int,
    cap: nat,
)
    requires
        reverse_sound(rev, table, new_lists),
        0 <= r < table.len(),
        table.len() <= u32::MAX,
        0 <= c <= table[r].len(),
    ensures
        reverse_sound(reverse_row_pass(rev, new_lists, r, table[r], c, cap), table, new_lists),
    decreases c,
{
    if c > 0 {
        lemma_reverse_row_pass_sound(rev, table, new_lists, r, c - 1, cap);
        let m = reverse_row_pass(rev, new_lists, r, table[r], c - 1, cap);
        let e = table[r][c - 1];
        let t = e.id as int;
        let m2 = reverse_row_pass(rev, new_lists, r, table[r], c, cap);
        assert(m2 == reverse_step(m, new_lists, r, e, cap));
        if 0 <= t < m.len() && t < new_lists.len() && !row_has_id(new_lists[t], r as u32) {
            let cand = Nality { id: r as u32, sim: e.sim };
            assert((r as u32) as int == r);
            assert(reverse_entry_sound(table, new_lists, t, cand)) by {
                assert(table[cand.id as int][c - 1] == e);
            }
            let ins = reverse_insert(m[t], cand, cap);
            if m[t].len() >= cap && m[t].len() > 0 && m[t][row_min_pos(m[t])].sim < cand.sim {
                lemma_first_min_pos(row_sims(m[t]), m[t].len() as int);
            }
            assert forall|tt: int, j: int| 0 <= tt < m2.len() && 0 <= j < m2[tt].len() implies reverse_entry_sound(table, new_lists, tt, #[trigger] m2[tt][j]) by {
                if tt == t {
                    if j < m[t].len() && ins[j] == m[t][j] {
                        assert(m2[tt][j] == m[t][j]);
                    } else {
                        assert(ins[j] == cand);
                    }
                } else {
                    assert(m2[tt] == m[tt]);
                }
            }
        }
    }
}

/// Reverse links point back: an entry `(r, s)` in the reverse list of `tt`
/// means that row `r` of the table lists `tt` with similarity `s`, and that
/// the new list of `tt` does not hold `r`.
pub proof fn lemma_reverse_table_sound(table: Seq<Seq<Nality>>, new_lists: Seq<Seq<Nality>>, cap: nat, rows: int)
    requires
        0 <= rows <= table.len(),
        table.len() <= u32::MAX,
    ensures
        reverse_sound(reverse_table(table, new_lists, cap, rows), table, new_lists),
    decreases rows,
{
    if rows > 0 {
        lemma_reverse_table_sound(table, new_lists, cap, rows - 1);
        lemma_reverse_row_pass_sound(reverse_table(table, new_lists, cap, rows - 1), table, new_lists, rows - 1, table[rows - 1].len() as int, cap);
    }
}

} // verus!

verus! {

/// Entry `x` has been offered to the reverse list of `tt` by one of the
/// first `rows_done` rows, or by one of the first `cols` entries of row
/// `rows_done`.
pub open spec fn offered_upto(
    table: Seq<Seq<Nality>>,
    new_lists: Seq<Seq<Nality>>,
    tt: int,
    x: Nality,
    rows_done: int,
    cols: int,
) -> bool {
    exists|r: int, cc: int|
        ((0 <= r < rows_done && 0 <= cc < table[r].len()) || (r == rows_done && 0 <= cc < cols))
            && (#[trigger] table[r][cc]).id == tt && table[r][cc].sim == x.sim && x.id == r as u32
            && !row_has_id(new_lists[tt], r as u32)
}

/// The list still holds `x`, or it is full and `x` is no more similar
/// than any of its entries.
pub open spec fn kept_or_dominated(list: Seq<Nality>, x: Nality, cap: nat) -> bool {
    list.contains(x) || (list.len() == cap && forall|j: int| 0 <= j < list.len() ==> x.sim <= (#[trigger] list[j]).sim)
}

proof fn lemma_reverse_insert_keeps(list: Seq<Nality>, cand: Nality, cap: nat, x: Nality)
    requires
        cap > 0,
        list.len() <= cap,
        kept_or_dominated(list, x, cap),
    ensures
        kept_or_dominated(reverse_insert(list, cand, cap), x, cap),
        kept_or_dominated(reverse_insert(list, cand, cap), cand, cap),
        reverse_insert(list, cand, cap).len() <= cap,
{
    let l2 = reverse_insert(list, cand, cap);
    if list.len() < cap {
        assert(l2 == list.push(cand));
        assert(l2[list.len() as int] == cand);
        if list.contains(x) {
            let i = choose|i: int| 0 <= i < list.len() && list[i] == x;
            assert(l2[i] == x);
        }
    } else {
        lemma_first_min_pos(row_sims(list), list.len() as int);
        let p = row_min_pos(list);
        assert forall|j: int| 0 <= j < list.len() implies list[p].sim <= (#[trigger] list[j]).sim by {
            assert(row_sims(list)[j] == list[j].sim);
        }
        if list[p].sim < cand.sim {
            assert(l2 == list.update(p, cand));
            assert(l2[p] == cand);
            assert forall|j: int| 0 <= j < l2.len() implies list[p].sim <= (#[trigger] l2[j]).sim by {
                if j != p {
                    assert(l2[j] == list[j]);
                }
            }
            if list.contains(x) {
                let i = choose|i: int| 0 <= i < list.len() && list[i] == x;
                if i != p {
                    assert(l2[i] == x);
                } else {
                    assert(x.sim == list[p].sim);
                }
            }
        } else {
            assert(l2 == list);
        }
    }
}

proof fn lemma_reverse_row_pass_top(
    rev: Seq<Seq<Nality>>,
    table: Seq<Seq<Nality>>,
    new_lists: Seq<Seq<Nality>>,
    r: int,
    c: int,
    cap: nat,
)
    requires
        cap > 0,
        rev.len() == table.len(),
        new_lists.len() == table.len(),
        table.len() <= u32::MAX,
        ids_below(table, table.len() as int),
        0 <= r < table.len(),
        0 <= c <= table[r].len(),
        lists_within(rev, cap),
        forall|tt: int, x: Nality|
            0 <= tt < rev.len() && #[trigger] offered_upto(table, new_lists, tt, x, r, 0) ==> kept_or_dominated(rev[tt], x, cap),
    ensures
        lists_within(reverse_row_pass(rev, new_lists, r, table[r], c, cap), cap),
        forall|tt: int, x: Nality|
            0 <= tt < rev.len() && #[trigger] offered_upto(table, new_lists, tt, x, r, c) ==> kept_or_dominated(
                reverse_row_pass(rev, new_lists, r, table[r], c, cap)[tt],
                x,
                cap,
            ),
    decreases c,
{
    lemma_reverse_row_pass_len(rev, new_lists, r, table[r], c, cap);
    lemma_reverse_row_pass_within(rev, new_lists, r, table[r], c, cap);
    if c > 0 {
        lemma_reverse_row_pass_top(rev, table, new_lists, r, c - 1, cap);
        lemma_reverse_row_pass_len(rev, new_lists, r, table[r], c - 1, cap);
        let m = reverse_row_pass(rev, new_lists, r, table[r], c - 1, cap);
        let e = table[r][c - 1];
        let t = e.id as int;
        let m2 = reverse_row_pass(rev, new_lists, r, table[r], c, cap);
        assert(m2 == reverse_step(m, new_lists, r, e, cap));
        assert(t < table.len());
        assert forall|tt: int, x: Nality|
            0 <= tt < rev.len() && #[trigger] offered_upto(table, new_lists, tt, x, r, c) implies kept_or_dominated(m2[tt], x, cap) by {
            let (r0, cc0) = choose|r0: int, cc0: int|
                ((0 <= r0 < r && 0 <= cc0 < table[r0].len()) || (r0 == r && 0 <= cc0 < c))
                    && (#[trigger] table[r0][cc0]).id == tt && table[r0][cc0].sim == x.sim && x.id == r0 as u32
                    && !row_has_id(new_lists[tt], r0 as u32);
            let earlier = r0 < r || cc0 < c - 1;
            if earlier {
                assert(offered_upto(table, new_lists, tt, x, r, c - 1));
            }
            let cand = Nality { id: r as u32, sim: e.sim };
            if tt == t && !row_has_id(new_lists[t], r as u32) {
                assert(m2[tt] == reverse_insert(m[t], cand, cap));
                assert(m[t].len() <= cap);
                if earlier {
                    lemma_reverse_insert_keeps(m[t], cand, cap, x);
                } else {
                    assert(x == cand);
                    lemma_reverse_insert_keeps_new(m[t], cand, cap);
                }
            } else {
                assert(m2[tt] == m[tt]);
                if !earlier {
                    assert(tt == t);
                    assert(false);
                }
            }
        }
    }
}

proof fn lemma_reverse_insert_keeps_new(list: Seq<Nality>, cand: Nality, cap: nat)
    requires
        cap > 0,
        list.len() <= cap,
    ensures
        kept_or_dominated(reverse_insert(list, cand, cap), cand, cap),
{
    let l2 = reverse_insert(list, cand, cap);
    if list.len() < cap {
        assert(l2[list.len() as int] == cand);
    } else {
        lemma_first_min_pos(row_sims(list), list.len() as int);
        let p = row_min_pos(list);
        assert forall|j: int| 0 <= j < list.len() implies list[p].sim <= (#[trigger] list[j]).sim by {
            assert(row_sims(list)[j] == list[j].sim);
        }
        if list[p].sim < cand.sim {
            assert(l2[p] == cand);
        }
    }
}

} // verus!

verus! {

proof fn lemma_reverse_table_top_rows(table: Seq<Seq<Nality>>, new_lists: Seq<Seq<Nality>>, cap: nat, rows: int)
    requires
        cap > 0,
        new_lists.len() == table.len(),
        table.len() <= u32::MAX,
        ids_below(table, table.len() as int),
        0 <= rows <= table.len(),
    ensures
        lists_within(reverse_table(table, new_lists, cap, rows), cap),
        forall|tt: int, x: Nality|
            0 <= tt < table.len() && #[trigger] offered_upto(table, new_lists, tt, x, rows, 0) ==> kept_or_dominated(
                reverse_table(table, new_lists, cap, rows)[tt],
                x,
                cap,
            ),
    decreases rows,
{
    lemma_reverse_table_len(table, new_lists, cap, rows);
    lemma_reverse_table_within(table, new_lists, cap, rows);
    if rows > 0 {
        let r = rows - 1;
        lemma_reverse_table_top_rows(table, new_lists, cap, r);
        lemma_reverse_table_len(table, new_lists, cap, r);
        let prev = reverse_table(table, new_lists, cap, r);
        assert forall|tt: int, x: Nality| 0 <= tt < prev.len() && #[trigger] offered_upto(table, new_lists, tt, x, r, 0) implies kept_or_dominated(prev[tt], x, cap) by {}
        lemma_reverse_row_pass_top(prev, table, new_lists, r, table[r].len() as int, cap);
        assert forall|tt: int, x: Nality|
            0 <= tt < table.len() && #[trigger] offered_upto(table, new_lists, tt, x, rows, 0) implies kept_or_dominated(
                reverse_table(table, new_lists, cap, rows)[tt],
                x,
                cap,
            ) by {
            let (r0, cc0) = choose|r0: int, cc0: int|
                ((0 <= r0 < rows && 0 <= cc0 < table[r0].len()) || (r0 == rows && 0 <= cc0 < 0))
                    && (#[trigger] table[r0][cc0]).id == tt && table[r0][cc0].sim == x.sim && x.id == r0 as u32
                    && !row_has_id(new_lists[tt], r0 as u32);
            assert(offered_upto(table, new_lists, tt, x, r, table[r].len() as int));
        }
    }
}

/// Reverse lists keep the most similar offers: once every row has offered
/// its entries, each offer `(r, s)` made to the reverse list of `tt` (row
/// `r` lists `tt` with similarity `s`, and the new list of `tt` does not
/// hold `r`) is still there, or the list is full and the offer is no more
/// similar than any of its entries.
pub proof fn lemma_reverse_lists_keep_most_similar(table: Seq<Seq<Nality>>, new_lists: Seq<Seq<Nality>>, cap: nat)
    requires
        cap > 0,
        new_lists.len() == table.len(),
        table.len() <= u32::MAX,
        ids_below(table, table.len() as int),
    ensures
        forall|r: int, c: int|
            0 <= r < table.len() && 0 <= c < table[r].len() && !row_has_id(new_lists[(#[trigger] table[r][c]).id as int], r as u32)
                ==> kept_or_dominated(
                reverse_table(table, new_lists, cap, table.len() as int)[table[r][c].id as int],
                Nality { id: r as u32, sim: table[r][c].sim },
                cap,
            ),
{
    let n = table.len() as int;
    lemma_reverse_table_top_rows(table, new_lists, cap, n);
    assert forall|r: int, c: int|
        0 <= r < table.len() && 0 <= c < table[r].len() && !row_has_id(new_lists[(#[trigger] table[r][c]).id as int], r as u32)
            implies kept_or_dominated(
            reverse_table(table, new_lists, cap, n)[table[r][c].id as int],
            Nality { id: r as u32, sim: table[r][c].sim },
            cap,
        ) by {
        let tt = table[r][c].id as int;
        let x = Nality { id: r as u32, sim: table[r][c].sim };
        assert(offered_upto(table, new_lists, tt, x, n, 0));
    }
}

} // verus!
