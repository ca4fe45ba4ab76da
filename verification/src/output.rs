use vstd::prelude::*;
use crate::sorting::{stable_order, is_stable_arg_sort, stable_arg_sort};
use crate::rdescent::{usize_rows, i64_rows, RDescent};

verus! {

/// Every point of the window has a row in the table with at least
/// `num_neighbours` columns, is compared with at least `num_neighbours`
/// points, and every window position shifted by `slice_start` fits a `usize`.
pub open spec fn window_fits(chunk_keys: Seq<Vec<i64>>, slice_start: usize, num_neighbours: usize, t: Seq<Seq<usize>>) -> bool {
    forall|w: int|
        0 <= w < chunk_keys.len() ==> slice_start + w < t.len()
            && num_neighbours <= t[slice_start + w].len()
            && num_neighbours <= (#[trigger] chunk_keys[w]).len()
            && slice_start + chunk_keys[w].len() <= usize::MAX
}

/// Fills the neighbour rows of one window of points taken in curve order.
/// `chunk_keys[w]` holds, as order keys, the similarities of the window's
/// point `w` to every point of the window; row `slice_start + w` of the
/// table gets, in its first `num_neighbours` columns, the window positions
/// of its most similar points (stable descending order) shifted by
/// `slice_start`. Nothing else of the table changes.
pub fn fill_window_neighbours(
    chunk_keys: &Vec<Vec<i64>>,
    slice_start: usize,
    num_neighbours: usize,
    nn_table: &mut Vec<Vec<usize>>,
)
    requires
        window_fits(chunk_keys@, slice_start, num_neighbours, usize_rows(*old(nn_table))),
    ensures
        final(nn_table).len() == old(nn_table).len(),
        forall|r: int| 0 <= r < old(nn_table).len() ==> (#[trigger] usize_rows(*final(nn_table))[r]).len() == usize_rows(*old(nn_table))[r].len(),
        forall|r: int, c: int|
            0 <= r < old(nn_table).len() && 0 <= c < usize_rows(*old(nn_table))[r].len() ==> #[trigger] usize_rows(*final(nn_table))[r][c] == if slice_start <= r < slice_start + chunk_keys.len() && c < num_neighbours {
                (stable_order(chunk_keys@[r - slice_start]@, true)[c] + slice_start) as usize
            } else {
                usize_rows(*old(nn_table))[r][c]
            },
{
    let ghost t0 = usize_rows(*nn_table);
    let mut w: usize = 0;
    while w < chunk_keys.len()
        invariant
            window_fits(chunk_keys@, slice_start, num_neighbours, t0),
            t0.len() == nn_table.len(),
            w <= chunk_keys.len(),
            forall|r: int| 0 <= r < t0.len() ==> (#[trigger] usize_rows(*nn_table)[r]).len() == t0[r].len(),
            forall|r: int, c: int|
                0 <= r < t0.len() && 0 <= c < t0[r].len() ==> #[trigger] usize_rows(*nn_table)[r][c] == if slice_start <= r < slice_start + w && c < num_neighbours {
                    (stable_order(chunk_keys@[r - slice_start]@, true)[c] + slice_start) as usize
                } else {
                    t0[r][c]
                },
        decreases chunk_keys.len() - w,
    {
        let ords = stable_arg_sort(&chunk_keys[w], true);
        let row = slice_start + w;
        let ghost before = usize_rows(*nn_table);
        assert(t0[row as int] == t0[slice_start + w as int]);
        assert(chunk_keys@[w as int].len() >= 0);
        let mut c: usize = 0;
        while c < num_neighbours
            invariant
                w < chunk_keys.len(),
                row == slice_start + w,
                row < nn_table.len(),
                t0.len() == nn_table.len(),
                num_neighbours <= t0[row as int].len(),
                num_neighbours <= chunk_keys@[w as int].len(),
                slice_start + chunk_keys@[w as int].len() <= usize::MAX,
                ords@ == stable_order(chunk_keys@[w as int]@, true),
                is_stable_arg_sort(chunk_keys@[w as int]@, ords@, true),
                before.len() == t0.len(),
                forall|r: int| 0 <= r < t0.len() ==> (#[trigger] before[r]).len() == t0[r].len(),
                c <= num_neighbours,
                forall|r: int| 0 <= r < t0.len() && r != row ==> #[trigger] usize_rows(*nn_table)[r] == before[r],
                usize_rows(*nn_table)[row as int].len() == t0[row as int].len(),
                forall|k: int| 0 <= k < t0[row as int].len() ==> #[trigger] usize_rows(*nn_table)[row as int][k] == if k < c {
                    (ords@[k] + slice_start) as usize
                } else {
                    before[row as int][k]
                },
            decreases num_neighbours - c,
        {
            let v = ords[c] + slice_start;
            let ghost prev_vec = *nn_table;
            let ghost prev = usize_rows(*nn_table);
            nn_table[row][c] = v;
            assert forall|r: int| 0 <= r < t0.len() && r != row implies #[trigger] usize_rows(*nn_table)[r] == before[r] by {
                assert(nn_table@[r] == prev_vec@[r]);
                assert(prev[r] == before[r]);
            }
            assert(usize_rows(*nn_table)[row as int] == prev[row as int].update(c as int, v));
            c = c + 1;
        }
        proof {
            assert forall|r: int, k: int| 0 <= r < t0.len() && 0 <= k < t0[r].len() implies #[trigger] usize_rows(*nn_table)[r][k] == if slice_start <= r < slice_start + w + 1 && k < num_neighbours {
                (stable_order(chunk_keys@[r - slice_start]@, true)[k] + slice_start) as usize
            } else {
                t0[r][k]
            } by {
                if r != row {
                    assert(usize_rows(*nn_table)[r] == before[r]);
                }
            }
            assert forall|r: int| 0 <= r < t0.len() implies (#[trigger] usize_rows(*nn_table)[r]).len() == t0[r].len() by {
                if r != row {
                    assert(usize_rows(*nn_table)[r] == before[r]);
                }
            }
        }
        w = w + 1;
    }
}

} // verus!

verus! {

/// The output rows of a neighbour table: for every row, its neighbours
/// ordered by decreasing similarity (ties in column order), numbered from
/// one, keeping the positions `first_col..last_col` of that order.
pub fn select_output_neighbours(d: &RDescent, first_col: usize, last_col: usize) -> (r: Vec<Vec<usize>>)
    requires
        d.neighbours.len() == d.similarities.len(),
        first_col <= last_col,
        forall|i: int|
            0 <= i < d.neighbours.len() ==> (#[trigger] usize_rows(d.neighbours)[i]).len() == i64_rows(d.similarities)[i].len()
                && last_col <= usize_rows(d.neighbours)[i].len(),
        forall|i: int, j: int|
            0 <= i < d.neighbours.len() && 0 <= j < usize_rows(d.neighbours)[i].len() ==> #[trigger] usize_rows(d.neighbours)[i][j] < usize::MAX,
    ensures
        r.len() == d.neighbours.len(),
        forall|i: int| 0 <= i < r.len() ==> (#[trigger] usize_rows(r)[i]).len() == last_col - first_col,
        forall|i: int, j: int|
            0 <= i < r.len() && 0 <= j < last_col - first_col ==> #[trigger] usize_rows(r)[i][j] == usize_rows(d.neighbours)[i][stable_order(i64_rows(d.similarities)[i], true)[first_col + j] as int] + 1,
{
    let ghost nb = usize_rows(d.neighbours);
    let ghost sm = i64_rows(d.similarities);
    let mut out: Vec<Vec<usize>> = Vec::new();
    let mut i: usize = 0;
    while i < d.neighbours.len()
        invariant
            nb == usize_rows(d.neighbours),
            sm == i64_rows(d.similarities),
            d.neighbours.len() == d.similarities.len(),
            first_col <= last_col,
            forall|k: int| 0 <= k < d.neighbours.len() ==> (#[trigger] nb[k]).len() == sm[k].len() && last_col <= nb[k].len(),
            forall|k: int, j: int| 0 <= k < d.neighbours.len() && 0 <= j < nb[k].len() ==> #[trigger] nb[k][j] < usize::MAX,
            i <= d.neighbours.len(),
            out.len() == i,
            forall|k: int| 0 <= k < i ==> (#[trigger] usize_rows(out)[k]).len() == last_col - first_col,
            forall|k: int, j: int|
                0 <= k < i && 0 <= j < last_col - first_col ==> #[trigger] usize_rows(out)[k][j] == nb[k][stable_order(sm[k], true)[first_col + j] as int] + 1,
        decreases d.neighbours.len() - i,
    {
        assert(nb[i as int] == d.neighbours@[i as int]@);
        assert(sm[i as int] == d.similarities@[i as int]@);
        let ords = stable_arg_sort(&d.similarities[i], true);
        let mut row: Vec<usize> = Vec::new();
        let mut c: usize = first_col;
        while c < last_col
            invariant
                nb == usize_rows(d.neighbours),
                i < d.neighbours.len(),
                nb[i as int] == d.neighbours@[i as int]@,
                nb[i as int].len() == sm[i as int].len(),
                last_col <= nb[i as int].len(),
                forall|j: int| 0 <= j < nb[i as int].len() ==> #[trigger] nb[i as int][j] < usize::MAX,
                ords@ == stable_order(sm[i as int], true),
                is_stable_arg_sort(sm[i as int], ords@, true),
                first_col <= c <= last_col,
                row.len() == c - first_col,
                forall|j: int| 0 <= j < c - first_col ==> #[trigger] row@[j] == nb[i as int][ords@[first_col + j] as int] + 1,
            decreases last_col - c,
        {
            let o = ords[c];
            let v = d.neighbours[i][o] + 1;
            row.push(v);
            c = c + 1;
        }
        let ghost before = usize_rows(out);
        out.push(row);
        assert forall|k: int| 0 <= k <= i implies (#[trigger] usize_rows(out)[k]).len() == last_col - first_col && (forall|j: int|
            0 <= j < last_col - first_col ==> usize_rows(out)[k][j] == nb[k][stable_order(sm[k], true)[first_col + j] as int] + 1) by {
            if k < i {
                assert(usize_rows(out)[k] == before[k]);
            }
        }
        i = i + 1;
    }
    out
}

} // verus!
