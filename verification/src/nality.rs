use vstd::prelude::*;

verus! {

/// An entry of a neighbour table: the id of a data point and its similarity
/// to the point that owns the row.
#[derive(Clone, Copy, PartialEq, Eq, Structural, Debug)]
pub struct Nality {
    pub id: u32,
    pub sim: i64,
}

impl Nality {
    pub fn new(sim: i64, id: u32) -> (n: Nality)
        ensures
            n.id == id,
            n.sim == sim,
    {
        Nality { id, sim }
    }
}

/// The position of the first smallest value among the first `n` values.
pub open spec fn first_min_pos(vals: Seq<i64>, n: int) -> int
    decreases n,
{
    if n <= 1 {
        0
    } else {
        let m = first_min_pos(vals, n - 1);
        if vals[n - 1] < vals[m] {
            n - 1
        } else {
            m
        }
    }
}

/// The similarities of a row, in column order.
pub open spec fn row_sims(row: Seq<Nality>) -> Seq<i64> {
    row.map_values(|x: Nality| x.sim)
}

/// The column of the first least similar entry of a row.
pub open spec fn row_min_pos(row: Seq<Nality>) -> int {
    first_min_pos(row_sims(row), row.len() as int)
}

/// `first_min_pos` picks a smallest value, and no earlier position holds one
/// as small.
pub proof fn lemma_first_min_pos(vals: Seq<i64>, n: int)
    requires
        1 <= n <= vals.len(),
    ensures
        0 <= first_min_pos(vals, n) < n,
        forall|j: int| 0 <= j < n ==> vals[first_min_pos(vals, n)] <= #[trigger] vals[j],
        forall|j: int| 0 <= j < first_min_pos(vals, n) ==> vals[first_min_pos(vals, n)] < #[trigger] vals[j],
    decreases n,
{
    if n > 1 {
        lemma_first_min_pos(vals, n - 1);
    }
}

/// The position and value of the first smallest value.
pub fn min_index_and_value(vals: &Vec<i64>) -> (r: (usize, i64))
    requires
        vals.len() > 0,
    ensures
        r.0 == first_min_pos(vals@, vals.len() as int),
        r.1 == vals@[r.0 as int],
{
    let mut pos: usize = 0;
    let mut i: usize = 1;
    while i < vals.len()
        invariant
            1 <= i <= vals.len(),
            pos == first_min_pos(vals@, i as int),
        decreases vals.len() - i,
    {
        proof {
            lemma_first_min_pos(vals@, i as int);
        }
        if vals[i] < vals[pos] {
            pos = i;
        }
        i = i + 1;
    }
    proof {
        lemma_first_min_pos(vals@, vals.len() as int);
    }
    (pos, vals[pos])
}

/// The column and entry of the first least similar entry of a row.
pub fn minimum_in_nality(row: &Vec<Nality>) -> (r: (usize, Nality))
    requires
        row.len() > 0,
    ensures
        r.0 == row_min_pos(row@),
        r.1 == row@[r.0 as int],
{
    let mut pos: usize = 0;
    let mut i: usize = 1;
    while i < row.len()
        invariant
            1 <= i <= row.len(),
            pos == first_min_pos(row_sims(row@), i as int),
        decreases row.len() - i,
    {
        proof {
            lemma_first_min_pos(row_sims(row@), i as int);
        }
        if row[i].sim < row[pos].sim {
            pos = i;
        }
        i = i + 1;
    }
    proof {
        lemma_first_min_pos(row_sims(row@), row.len() as int);
    }
    (pos, row[pos])
}

/// Whether some entry of the row carries the given id.
pub open spec fn row_has_id(row: Seq<Nality>, id: u32) -> bool {
    exists|j: int| 0 <= j < row.len() && (#[trigger] row[j]).id == id
}

pub fn contains_id(row: &Vec<Nality>, id: u32) -> (b: bool)
    ensures
        b == row_has_id(row@, id),
{
    let mut i: usize = 0;
    while i < row.len()
        invariant
            i <= row.len(),
            forall|j: int| 0 <= j < i ==> (#[trigger] row@[j]).id != id,
        decreases row.len() - i,
    {
        if row[i].id == id {
            return true;
        }
        i = i + 1;
    }
    false
}

} // verus!
