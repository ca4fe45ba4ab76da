use vstd::prelude::*;
use crate::dao::Dao;
use crate::nality::Nality;
use crate::phases::{build_reverse_lists, reverse_table, lemma_reverse_table_within, lists_within, is_sample};
use crate::random::rand_perm;
use crate::update::{table_view, ids_below, table_honest, rows_distinct};
use crate::join::dao_sim_fn;
use crate::descent::{get_nn_table2_bsp, rows_of_len, descent_run};

verus! {

/// A neighbour table: row `r` lists the ids of data points near point `r`
/// and, in the same columns, their similarities to it.
pub struct RDescent {
    pub neighbours: Vec<Vec<usize>>,
    pub similarities: Vec<Vec<i64>>,
}

/// A neighbour table with, for every row, the ids of the points that list
/// it without being listed by it, padded with `u32::MAX`.
pub struct RDescentWithRev {
    pub rdescent: RDescent,
    pub reverse_neighbours: Vec<Vec<usize>>,
}

/// The ids of a table, row by row.
pub open spec fn ids_of(t: Seq<Seq<Nality>>) -> Seq<Seq<usize>> {
    t.map_values(|row: Seq<Nality>| row.map_values(|x: Nality| x.id as usize))
}

/// The similarities of a table, row by row.
pub open spec fn sims_of(t: Seq<Seq<Nality>>) -> Seq<Seq<i64>> {
    t.map_values(|row: Seq<Nality>| row.map_values(|x: Nality| x.sim))
}

/// The rows of a table of `usize`, each as a sequence.
pub open spec fn usize_rows(t: Vec<Vec<usize>>) -> Seq<Seq<usize>> {
    t@.map_values(|r: Vec<usize>| r@)
}

/// The rows of a table of `i64`, each as a sequence.
pub open spec fn i64_rows(t: Vec<Vec<i64>>) -> Seq<Seq<i64>> {
    t@.map_values(|r: Vec<i64>| r@)
}

/// Splits a table into its ids and its similarities.
pub fn split_table(t: &Vec<Vec<Nality>>) -> (r: RDescent)
    ensures
        usize_rows(r.neighbours) == ids_of(table_view(*t)),
        i64_rows(r.similarities) == sims_of(table_view(*t)),
{
    let mut neighbours: Vec<Vec<usize>> = Vec::new();
    let mut similarities: Vec<Vec<i64>> = Vec::new();
    let mut r: usize = 0;
    while r < t.len()
        invariant
            r <= t.len(),
            neighbours.len() == r,
            similarities.len() == r,
            forall|i: int| 0 <= i < r ==> #[trigger] usize_rows(neighbours)[i] == ids_of(table_view(*t))[i],
            forall|i: int| 0 <= i < r ==> #[trigger] i64_rows(similarities)[i] == sims_of(table_view(*t))[i],
        decreases t.len() - r,
    {
        let mut ids: Vec<usize> = Vec::new();
        let mut sims: Vec<i64> = Vec::new();
        let mut c: usize = 0;
        while c < t[r].len()
            invariant
                r < t.len(),
                c <= t@[r as int].len(),
                ids@ == t@[r as int]@.take(c as int).map_values(|x: Nality| x.id as usize),
                sims@ == t@[r as int]@.take(c as int).map_values(|x: Nality| x.sim),
            decreases t@[r as int].len() - c,
        {
            ids.push(t[r][c].id as usize);
            sims.push(t[r][c].sim);
            c = c + 1;
            assert(ids@ =~= t@[r as int]@.take(c as int).map_values(|x: Nality| x.id as usize));
            assert(sims@ =~= t@[r as int]@.take(c as int).map_values(|x: Nality| x.sim));
        }
        assert(t@[r as int]@.take(c as int) =~= t@[r as int]@);
        let ghost nb = usize_rows(neighbours);
        let ghost sb = i64_rows(similarities);
        neighbours.push(ids);
        similarities.push(sims);
        assert forall|i: int| 0 <= i <= r implies #[trigger] usize_rows(neighbours)[i] == ids_of(table_view(*t))[i] by {
            if i < r {
                assert(usize_rows(neighbours)[i] == nb[i]);
            }
        }
        assert forall|i: int| 0 <= i <= r implies #[trigger] i64_rows(similarities)[i] == sims_of(table_view(*t))[i] by {
            if i < r {
                assert(i64_rows(similarities)[i] == sb[i]);
            }
        }
        r = r + 1;
    }
    assert(usize_rows(neighbours) =~= ids_of(table_view(*t)));
    assert(i64_rows(similarities) =~= sims_of(table_view(*t)));
    RDescent { neighbours, similarities }
}

impl Dao {
    /// A starting table: every row holds `num_neighbours` distinct data
    /// points drawn at random (through `rand_perm`), each with its true
    /// similarity to the row's point. Starting from true similarities is a
    /// choice of this library: descent only ever compares a proposal with
    /// the similarities in the row, so a start with other values would lead
    /// it to other replacements and other tables.
    pub fn initialise_table_randomly(&self, num_neighbours: usize) -> (t: Vec<Vec<Nality>>)
        requires
            self.wf(),
            num_neighbours <= self.num_data,
        ensures
            t.len() == self.num_data,
            rows_of_len(table_view(t), num_neighbours as nat),
            ids_below(table_view(t), self.num_data as int),
            table_honest(table_view(t), dao_sim_fn(*self)),
            rows_distinct(table_view(t)),
    {
        let n = self.num_data;
        let mut t: Vec<Vec<Nality>> = Vec::new();
        let mut r: usize = 0;
        while r < n
            invariant
                self.wf(),
                n == self.num_data,
                num_neighbours <= n,
                r <= n,
                t.len() == r,
                rows_of_len(table_view(t), num_neighbours as nat),
                ids_below(table_view(t), n as int),
                table_honest(table_view(t), dao_sim_fn(*self)),
                rows_distinct(table_view(t)),
            decreases n - r,
        {
            let ids = rand_perm(n, num_neighbours);
            let mut row: Vec<Nality> = Vec::new();
            let mut c: usize = 0;
            while c < num_neighbours
                invariant
                    self.wf(),
                    n == self.num_data,
                    r < n,
                    c <= num_neighbours,
                    is_sample(ids@, n as nat, num_neighbours as nat),
                    row.len() == c,
                    forall|j: int| 0 <= j < c ==> (#[trigger] row@[j]).id as int == ids@[j] as int,
                    forall|j: int| 0 <= j < c ==> (#[trigger] row@[j]).sim == self.sim(r as int, ids@[j] as int),
                decreases num_neighbours - c,
            {
                let id = ids[c];
                let sim = self.similarity_between(r, id);
                row.push(Nality::new(sim, id as u32));
                c = c + 1;
            }
            let ghost before = table_view(t);
            t.push(row);
            proof {
                let tv = table_view(t);
                assert(tv[r as int] == row@);
                assert forall|i: int| 0 <= i < r implies #[trigger] tv[i] == before[i] by {}
                assert forall|i: int, j: int| 0 <= i < tv.len() && 0 <= j < tv[i].len() implies (#[trigger] tv[i][j]).id < n && tv[i][j].sim == dao_sim_fn(*self)(i, tv[i][j].id as int) by {
                    if i < r {
                        assert(tv[i] == before[i]);
                    }
                }
                assert forall|i: int, c1: int, c2: int|
                    0 <= i < tv.len() && 0 <= c1 < tv[i].len() && 0 <= c2 < tv[i].len() && c1 != c2 implies (#[trigger] tv[i][c1]).id
                        != (#[trigger] tv[i][c2]).id by {
                    if i < r {
                        assert(tv[i] == before[i]);
                    } else {
                        assert(ids@[c1] != ids@[c2]);
                    }
                }
                assert forall|i: int| 0 <= i < tv.len() implies (#[trigger] tv[i]).len() == num_neighbours as nat by {
                    if i < r {
                        assert(tv[i] == before[i]);
                    }
                }
            }
            r = r + 1;
        }
        t
    }
}

/// Building a neighbour table by descent.
pub trait IntoRDescent {
    /// The inputs on which a table of `num_neighbours` columns can be built.
    spec fn descent_ready(&self, num_neighbours: usize) -> bool;

    /// `d` is a table of `num_neighbours` columns built from `self` by
    /// descent with reverse lists of `reverse_list_size` entries, stopping
    /// at `threshold` replacements.
    spec fn descent_built(&self, num_neighbours: usize, reverse_list_size: usize, threshold: usize, d: RDescent) -> bool;

    fn into_rdescent(&self, num_neighbours: usize, reverse_list_size: usize, threshold: usize) -> (d: RDescent)
        requires
            self.descent_ready(num_neighbours),
        ensures
            self.descent_built(num_neighbours, reverse_list_size, threshold, d),
    ;
}

impl IntoRDescent for Dao {
    open spec fn descent_ready(&self, num_neighbours: usize) -> bool {
        self.wf() && num_neighbours <= self.num_data
    }

    /// Every row holds `num_neighbours` distinct data points, each paired
    /// with its true similarity to the row's point; and the table is what a
    /// run of descent (`descent_run`) makes from some starting table as
    /// `initialise_table_randomly` draws them.
    open spec fn descent_built(&self, num_neighbours: usize, reverse_list_size: usize, threshold: usize, d: RDescent) -> bool {
        &&& descent_table(d, *self, num_neighbours)
        &&& descended_from_random_start(*self, num_neighbours, reverse_list_size, threshold, table_of(d))
    }

    /// Builds a neighbour table by descent: a random starting table
    /// (`initialise_table_randomly`) improved by `get_nn_table2_bsp` until a
    /// round replaces no more than `threshold` entries.
    fn into_rdescent(&self, num_neighbours: usize, reverse_list_size: usize, threshold: usize) -> (d: RDescent) {
        let mut t = self.initialise_table_randomly(num_neighbours);
        let ghost t0 = table_view(t);
        get_nn_table2_bsp(self, &mut t, num_neighbours, threshold, reverse_list_size);
        let d = split_table(&t);
        proof {
            lemma_split_table_facts(table_view(t), *self, num_neighbours);
            lemma_table_of_split(table_view(t), d);
            let draws = choose|draws: Seq<Seq<Seq<usize>>>|
                #[trigger] descent_run(*self, t0, num_neighbours as nat, reverse_list_size as nat, threshold, draws, table_view(t));
            assert(random_start(*self, num_neighbours, t0));
            assert(descent_run(*self, t0, num_neighbours as nat, reverse_list_size as nat, threshold, draws, table_of(d)));
        }
        d
    }
}

/// `d` has one row per data point, each of `k` distinct data points paired
/// column by column with their true similarities to the row's point.
pub open spec fn descent_table(d: RDescent, dao: Dao, k: usize) -> bool {
    let ids = usize_rows(d.neighbours);
    let sims = i64_rows(d.similarities);
    &&& ids.len() == dao.num_data
    &&& sims.len() == dao.num_data
    &&& forall|r: int| 0 <= r < dao.num_data ==> (#[trigger] ids[r]).len() == k && sims[r].len() == k
    &&& forall|r: int| 0 <= r < dao.num_data ==> (#[trigger] d.neighbours@[r]).len() == k && d.similarities@[r].len() == k
    &&& forall|r: int, c: int| 0 <= r < dao.num_data && 0 <= c < k ==> (#[trigger] ids[r][c]) < dao.num_data
    &&& forall|r: int, c: int| 0 <= r < dao.num_data && 0 <= c < k ==> (#[trigger] sims[r][c]) == dao.sim(r, ids[r][c] as int)
    &&& forall|r: int, c1: int, c2: int|
        0 <= r < dao.num_data && 0 <= c1 < k && 0 <= c2 < k && c1 != c2 ==> (#[trigger] ids[r][c1]) != (#[trigger] ids[r][c2])
}

/// A table as `initialise_table_randomly` draws them: one row per data
/// point, each of `k` distinct data points with their true similarities to
/// the row's point.
pub open spec fn random_start(dao: Dao, k: usize, t0: Seq<Seq<Nality>>) -> bool {
    &&& t0.len() == dao.num_data
    &&& rows_of_len(t0, k as nat)
    &&& ids_below(t0, dao.num_data as int)
    &&& table_honest(t0, dao_sim_fn(dao))
    &&& rows_distinct(t0)
}

/// `t` is what a run of descent (`descent_run`) makes, with some draws, from
/// some starting table as `initialise_table_randomly` draws them.
pub open spec fn descended_from_random_start(dao: Dao, k: usize, cap: usize, threshold: usize, t: Seq<Seq<Nality>>) -> bool {
    exists|t0: Seq<Seq<Nality>>, draws: Seq<Seq<Seq<usize>>>|
        random_start(dao, k, t0) && #[trigger] descent_run(dao, t0, k as nat, cap as nat, threshold, draws, t)
}

/// The table read back from the rows that `split_table` writes is the table
/// itself.
proof fn lemma_table_of_split(t: Seq<Seq<Nality>>, d: RDescent)
    requires
        usize_rows(d.neighbours) == ids_of(t),
        i64_rows(d.similarities) == sims_of(t),
    ensures
        table_of(d) == t,
{
    assert(table_of(d) =~= t) by {
        assert forall|r: int| 0 <= r < t.len() implies #[trigger] table_of(d)[r] == t[r] by {
            assert(table_of(d)[r] =~= t[r]) by {
                assert forall|c: int| 0 <= c < t[r].len() implies #[trigger] table_of(d)[r][c] == t[r][c] by {
                    assert(usize_rows(d.neighbours)[r][c] == t[r][c].id as usize);
                    assert(i64_rows(d.similarities)[r][c] == t[r][c].sim);
                }
            }
        }
    }
}

proof fn lemma_split_table_facts(t: Seq<Seq<Nality>>, dao: Dao, k: usize)
    requires
        t.len() == dao.num_data,
        rows_of_len(t, k as nat),
        ids_below(t, dao.num_data as int),
        table_honest(t, dao_sim_fn(dao)),
        rows_distinct(t),
    ensures
        forall|d: RDescent|
            usize_rows(d.neighbours) == ids_of(t) && i64_rows(d.similarities) == sims_of(t) ==> #[trigger] descent_table(d, dao, k),
{
    assert forall|d: RDescent| usize_rows(d.neighbours) == ids_of(t) && i64_rows(d.similarities) == sims_of(t) implies #[trigger] descent_table(d, dao, k) by {
        let ids = usize_rows(d.neighbours);
        let sims = i64_rows(d.similarities);
        assert forall|r: int, c: int| 0 <= r < dao.num_data && 0 <= c < k implies (#[trigger] ids[r][c]) < dao.num_data && sims[r][c] == dao.sim(r, ids[r][c] as int) by {
            assert(ids[r][c] == t[r][c].id as usize);
            assert(sims[r][c] == t[r][c].sim);
        }
        assert forall|r: int, c1: int, c2: int|
            0 <= r < dao.num_data && 0 <= c1 < k && 0 <= c2 < k && c1 != c2 implies (#[trigger] ids[r][c1]) != (#[trigger] ids[r][c2]) by {
            assert(ids[r][c1] == t[r][c1].id as usize);
            assert(ids[r][c2] == t[r][c2].id as usize);
        }
        assert forall|r: int| 0 <= r < dao.num_data implies (#[trigger] ids[r]).len() == k && sims[r].len() == k by {}
        assert forall|r: int| 0 <= r < dao.num_data implies (#[trigger] d.neighbours@[r]).len() == k && d.similarities@[r].len() == k by {
            assert(ids.len() == t.len());
            assert(d.neighbours@.len() == ids.len());
            assert(d.similarities@.len() == sims.len());
            assert(ids[r] == d.neighbours@[r]@);
            assert(sims[r] == d.similarities@[r]@);
        }
    }
}

} // verus!

verus! {

/// The reverse links of a table: for every row `r` and every entry `e` of
/// that row, in order, `(r, e.sim)` is offered to the reverse list of
/// `e.id` unless `e.id`'s own row lists `r`; each reverse list keeps at most
/// `nns_in_search_structure` entries (see `reverse_insert`).
pub fn get_reverse_nality_links_not_in_forward(
    neighbourlarities: &Vec<Vec<Nality>>,
    nns_in_search_structure: usize,
) -> (rev: Vec<Vec<Nality>>)
    requires
        neighbourlarities.len() <= u32::MAX,
        ids_below(table_view(*neighbourlarities), neighbourlarities.len() as int),
    ensures
        table_view(rev) == reverse_table(
            table_view(*neighbourlarities),
            table_view(*neighbourlarities),
            nns_in_search_structure as nat,
            neighbourlarities.len() as int,
        ),
{
    build_reverse_lists(neighbourlarities, neighbourlarities, nns_in_search_structure)
}

/// Reverse lists as rows of `cap` ids, a missing entry written `u32::MAX`.
pub open spec fn padded_ids(rev: Seq<Seq<Nality>>, cap: nat) -> Seq<Seq<usize>> {
    Seq::new(
        rev.len(),
        |i: int| Seq::new(cap, |j: int| if j < rev[i].len() { rev[i][j].id as usize } else { u32::MAX as usize }),
    )
}

/// Writes reverse lists as rows of `cap` ids, padding with `u32::MAX`.
pub fn pad_reverse_ids(rev: &Vec<Vec<Nality>>, cap: usize) -> (r: Vec<Vec<usize>>)
    requires
        lists_within(table_view(*rev), cap as nat),
    ensures
        usize_rows(r) == padded_ids(table_view(*rev), cap as nat),
        r.len() == rev.len(),
        forall|t: int| 0 <= t < rev.len() ==> (#[trigger] r@[t]).len() == cap,
        forall|t: int, j: int| 0 <= t < rev.len() && 0 <= j < rev@[t].len() ==> #[trigger] r@[t]@[j] == rev@[t]@[j].id as usize,
        forall|t: int, j: int| 0 <= t < rev.len() && rev@[t].len() <= j < cap ==> #[trigger] r@[t]@[j] == u32::MAX as usize,
{
    let ghost rv = table_view(*rev);
    let mut out: Vec<Vec<usize>> = Vec::new();
    let mut i: usize = 0;
    while i < rev.len()
        invariant
            rv == table_view(*rev),
            lists_within(rv, cap as nat),
            i <= rev.len(),
            out.len() == i,
            forall|k: int| 0 <= k < i ==> #[trigger] usize_rows(out)[k] == padded_ids(rv, cap as nat)[k],
        decreases rev.len() - i,
    {
        let mut row: Vec<usize> = Vec::new();
        let mut j: usize = 0;
        assert(rv[i as int].len() <= cap);
        while j < cap
            invariant
                rv == table_view(*rev),
                i < rev.len(),
                rv[i as int].len() <= cap,
                j <= cap,
                row@ == Seq::new(j as nat, |m: int| if m < rv[i as int].len() { rv[i as int][m].id as usize } else { u32::MAX as usize }),
            decreases cap - j,
        {
            if j < rev[i].len() {
                row.push(rev[i][j].id as usize);
            } else {
                row.push(4294967295usize);
            }
            j = j + 1;
            assert(row@ =~= Seq::new(j as nat, |m: int| if m < rv[i as int].len() { rv[i as int][m].id as usize } else { u32::MAX as usize }));
        }
        let ghost before = usize_rows(out);
        out.push(row);
        assert forall|k: int| 0 <= k <= i implies #[trigger] usize_rows(out)[k] == padded_ids(rv, cap as nat)[k] by {
            if k < i {
                assert(usize_rows(out)[k] == before[k]);
            }
        }
        i = i + 1;
    }
    assert(usize_rows(out) =~= padded_ids(rv, cap as nat));
    assert forall|t: int| 0 <= t < rev.len() implies (#[trigger] out@[t]).len() == cap by {
        assert(usize_rows(out)[t] == out@[t]@);
    }
    assert forall|t: int, j: int| 0 <= t < rev.len() && 0 <= j < rev@[t].len() implies #[trigger] out@[t]@[j] == rev@[t]@[j].id as usize by {
        assert(usize_rows(out)[t] == out@[t]@);
        assert(rv[t] == rev@[t]@);
    }
    assert forall|t: int, j: int| 0 <= t < rev.len() && rev@[t].len() <= j < cap implies #[trigger] out@[t]@[j] == u32::MAX as usize by {
        assert(usize_rows(out)[t] == out@[t]@);
        assert(rv[t] == rev@[t]@);
    }
    out
}

/// The table whose ids and similarities are those of `d`, column by column.
pub open spec fn table_of(d: RDescent) -> Seq<Seq<Nality>> {
    let ids = usize_rows(d.neighbours);
    let sims = i64_rows(d.similarities);
    Seq::new(ids.len(), |r: int| Seq::new(ids[r].len(), |c: int| Nality { id: ids[r][c] as u32, sim: sims[r][c] }))
}

/// Building a neighbour table by descent together with its reverse links.
pub trait IntoRDescentWithRevNNs {
    /// The inputs on which a table of `num_neighbours_in_nn_table` columns
    /// can be built.
    spec fn descent_with_rev_ready(&self, num_neighbours_in_nn_table: usize) -> bool;

    /// `d` is a table built from `self` by descent with reverse lists of
    /// `build_reverse_list_size` entries, stopping at `threshold`
    /// replacements, with reverse rows of `nns_in_search_structure` entries.
    spec fn descent_with_rev_built(
        &self,
        num_neighbours_in_nn_table: usize,
        build_reverse_list_size: usize,
        threshold: usize,
        nns_in_search_structure: usize,
        d: RDescentWithRev,
    ) -> bool;

    fn into_rdescent_with_rev_nn(
        &self,
        num_neighbours_in_nn_table: usize,
        build_reverse_list_size: usize,
        threshold: usize,
        nns_in_search_structure: usize,
    ) -> (d: RDescentWithRev)
        requires
            self.descent_with_rev_ready(num_neighbours_in_nn_table),
        ensures
            self.descent_with_rev_built(num_neighbours_in_nn_table, build_reverse_list_size, threshold, nns_in_search_structure, d),
    ;
}

impl IntoRDescentWithRevNNs for Dao {
    open spec fn descent_with_rev_ready(&self, num_neighbours_in_nn_table: usize) -> bool {
        self.wf() && num_neighbours_in_nn_table <= self.num_data
    }

    /// The table is as for `into_rdescent`; row `t` of `reverse_neighbours`
    /// holds the ids kept by `get_reverse_nality_links_not_in_forward` with
    /// room for `nns_in_search_structure` entries, padded with `u32::MAX`.
    open spec fn descent_with_rev_built(
        &self,
        num_neighbours_in_nn_table: usize,
        build_reverse_list_size: usize,
        threshold: usize,
        nns_in_search_structure: usize,
        d: RDescentWithRev,
    ) -> bool {
        &&& descent_table(d.rdescent, *self, num_neighbours_in_nn_table)
        &&& descended_from_random_start(*self, num_neighbours_in_nn_table, build_reverse_list_size, threshold, table_of(d.rdescent))
        &&& usize_rows(d.reverse_neighbours) == padded_ids(
            reverse_table(table_of(d.rdescent), table_of(d.rdescent), nns_in_search_structure as nat, self.num_data as int),
            nns_in_search_structure as nat,
        )
    }

    /// Builds a neighbour table by descent (as `into_rdescent`) together
    /// with its reverse links.
    fn into_rdescent_with_rev_nn(
        &self,
        num_neighbours_in_nn_table: usize,
        build_reverse_list_size: usize,
        threshold: usize,
        nns_in_search_structure: usize,
    ) -> (d: RDescentWithRev) {
        let mut t = self.initialise_table_randomly(num_neighbours_in_nn_table);
        let ghost t0 = table_view(t);
        get_nn_table2_bsp(self, &mut t, num_neighbours_in_nn_table, threshold, build_reverse_list_size);
        let reverse = get_reverse_nality_links_not_in_forward(&t, nns_in_search_structure);
        proof {
            lemma_reverse_table_within(table_view(t), table_view(t), nns_in_search_structure as nat, t.len() as int);
        }
        let reverse_ids = pad_reverse_ids(&reverse, nns_in_search_structure);
        let rd = split_table(&t);
        proof {
            lemma_split_table_facts(table_view(t), *self, num_neighbours_in_nn_table);
            lemma_table_of_split(table_view(t), rd);
            let draws = choose|draws: Seq<Seq<Seq<usize>>>|
                #[trigger] descent_run(*self, t0, num_neighbours_in_nn_table as nat, build_reverse_list_size as nat, threshold, draws, table_view(t));
            assert(random_start(*self, num_neighbours_in_nn_table, t0));
            assert(descent_run(*self, t0, num_neighbours_in_nn_table as nat, build_reverse_list_size as nat, threshold, draws, table_of(rd)));
        }
        RDescentWithRev { rdescent: rd, reverse_neighbours: reverse_ids }
    }
}

} // verus!

verus! {

/// Building with reverse links builds, in its forward part, a table as
/// `into_rdescent` builds it from the same inputs; the size of the reverse
/// rows plays no part in it.
pub proof fn lemma_built_with_rev_is_built(
    dao: Dao,
    num_neighbours: usize,
    reverse_list_size: usize,
    threshold: usize,
    nns_in_search_structure: usize,
    d: RDescentWithRev,
)
    requires
        dao.descent_with_rev_built(num_neighbours, reverse_list_size, threshold, nns_in_search_structure, d),
    ensures
        dao.descent_built(num_neighbours, reverse_list_size, threshold, d.rdescent),
{
}

/// In a table built with reverse links, row `t` of `reverse_neighbours`
/// lists every reverse link kept for `t` (those of
/// `get_reverse_nality_links_not_in_forward` on the built table), in order,
/// and holds `u32::MAX` only after them, up to `nns_in_search_structure`
/// entries.
pub proof fn lemma_reverse_rows_list_kept_links(
    dao: Dao,
    num_neighbours: usize,
    reverse_list_size: usize,
    threshold: usize,
    nns_in_search_structure: usize,
    d: RDescentWithRev,
)
    requires
        dao.wf(),
        dao.descent_with_rev_built(num_neighbours, reverse_list_size, threshold, nns_in_search_structure, d),
    ensures
        ({
            let rev = reverse_table(
                table_of(d.rdescent),
                table_of(d.rdescent),
                nns_in_search_structure as nat,
                dao.num_data as int,
            );
            let rows = usize_rows(d.reverse_neighbours);
            &&& rows.len() == rev.len()
            &&& forall|t: int| 0 <= t < rows.len() ==> (#[trigger] rows[t]).len() == nns_in_search_structure
            &&& forall|t: int| 0 <= t < rows.len() ==> (#[trigger] rev[t]).len() <= nns_in_search_structure
            &&& forall|t: int, j: int| 0 <= t < rows.len() && 0 <= j < rev[t].len() ==> #[trigger] rows[t][j] == rev[t][j].id as usize
            &&& forall|t: int, j: int|
                0 <= t < rows.len() && rev[t].len() <= j < nns_in_search_structure ==> #[trigger] rows[t][j] == u32::MAX as usize
        }),
{
    lemma_reverse_table_within(table_of(d.rdescent), table_of(d.rdescent), nns_in_search_structure as nat, dao.num_data as int);
}

} // verus!
