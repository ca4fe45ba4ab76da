use vstd::prelude::*;

verus! {

/// Index `a` comes before index `b` in the stable order of `keys`:
/// ascending by key (descending when `desc`), ties in index order.
pub open spec fn comes_before(keys: Seq<i64>, a: int, b: int, desc: bool) -> bool {
    if keys[a] == keys[b] {
        a < b
    } else if desc {
        keys[a] > keys[b]
    } else {
        keys[a] < keys[b]
    }
}

/// `ords` lists every index of `keys` exactly once, in the stable order of
/// `keys` (see `comes_before`).
pub open spec fn is_stable_arg_sort(keys: Seq<i64>, ords: Seq<usize>, desc: bool) -> bool {
    &&& ords.len() == keys.len()
    &&& forall|i: int| 0 <= i < ords.len() ==> #[trigger] ords[i] < keys.len()
    &&& ords.no_duplicates()
    &&& forall|x: usize| x < keys.len() ==> #[trigger] ords.contains(x)
    &&& forall|i: int, j: int|
        0 <= i < j < ords.len() ==> comes_before(keys, #[trigger] ords[i] as int, #[trigger] ords[j] as int, desc)
}

/// The indices of `keys` in stable order (see `is_stable_arg_sort`).
pub open spec fn stable_order(keys: Seq<i64>, desc: bool) -> Seq<usize> {
    choose|o: Seq<usize>| is_stable_arg_sort(keys, o, desc)
}

/// Two sequences, each in strictly increasing stable order and holding the
/// same elements, are equal.
proof fn lemma_sorted_same_elements_equal(keys: Seq<i64>, o1: Seq<usize>, o2: Seq<usize>, desc: bool)
    requires
        forall|i: int| 0 <= i < o1.len() ==> #[trigger] o1[i] < keys.len(),
        forall|i: int| 0 <= i < o2.len() ==> #[trigger] o2[i] < keys.len(),
        forall|i: int, j: int| 0 <= i < j < o1.len() ==> comes_before(keys, #[trigger] o1[i] as int, #[trigger] o1[j] as int, desc),
        forall|i: int, j: int| 0 <= i < j < o2.len() ==> comes_before(keys, #[trigger] o2[i] as int, #[trigger] o2[j] as int, desc),
        forall|x: usize| o1.contains(x) <==> o2.contains(x),
    ensures
        o1 == o2,
    decreases o1.len() + o2.len(),
{
    if o1.len() == 0 {
        if o2.len() > 0 {
            assert(o2.contains(o2[0]));
        }
        assert(o1 =~= o2);
    } else if o2.len() == 0 {
        assert(o1.contains(o1[0]));
    } else {
        let a = o1.last();
        let b = o2.last();
        assert(o1.contains(a));
        assert(o2.contains(b));
        let ia = choose|i: int| 0 <= i < o2.len() && o2[i] == a;
        let ib = choose|i: int| 0 <= i < o1.len() && o1[i] == b;
        if a != b {
            assert(ia < o2.len() - 1);
            assert(ib < o1.len() - 1);
            assert(comes_before(keys, a as int, b as int, desc));
            assert(comes_before(keys, b as int, a as int, desc));
            lemma_comes_before_total(keys, a as int, b as int, desc);
        }
        let p1 = o1.drop_last();
        let p2 = o2.drop_last();
        assert forall|x: usize| p1.contains(x) <==> p2.contains(x) by {
            if p1.contains(x) {
                let i = choose|i: int| 0 <= i < p1.len() && p1[i] == x;
                assert(o1.contains(x));
                let j = choose|j: int| 0 <= j < o2.len() && o2[j] == x;
                if j == o2.len() - 1 {
                    assert(comes_before(keys, o1[i] as int, o1[o1.len() - 1] as int, desc));
                    lemma_comes_before_total(keys, a as int, a as int, desc);
                }
                assert(p2[j] == x);
            }
            if p2.contains(x) {
                let i = choose|i: int| 0 <= i < p2.len() && p2[i] == x;
                assert(o2.contains(x));
                let j = choose|j: int| 0 <= j < o1.len() && o1[j] == x;
                if j == o1.len() - 1 {
                    assert(comes_before(keys, o2[i] as int, o2[o2.len() - 1] as int, desc));
                }
                assert(p1[j] == x);
            }
        }
        lemma_sorted_same_elements_equal(keys, p1, p2, desc);
        assert(o1 =~= p1.push(a));
        assert(o2 =~= p2.push(b));
    }
}

/// There is only one stable arg sort of given keys, so `stable_order` names
/// it.
pub proof fn lemma_stable_arg_sort_unique(keys: Seq<i64>, o: Seq<usize>, desc: bool)
    requires
        is_stable_arg_sort(keys, o, desc),
    ensures
        o == stable_order(keys, desc),
{
    let c = stable_order(keys, desc);
    assert(is_stable_arg_sort(keys, c, desc));
    assert forall|x: usize| o.contains(x) <==> c.contains(x) by {
        if o.contains(x) {
            let i = choose|i: int| 0 <= i < o.len() && o[i] == x;
            assert(x < keys.len());
        }
        if c.contains(x) {
            let i = choose|i: int| 0 <= i < c.len() && c[i] == x;
            assert(x < keys.len());
        }
    }
    lemma_sorted_same_elements_equal(keys, o, c, desc);
}

/// The keys in the order given by `ords`.
pub open spec fn keys_in_order(keys: Seq<i64>, ords: Seq<usize>) -> Seq<i64> {
    ords.map_values(|o: usize| keys[o as int])
}

proof fn lemma_comes_before_total(keys: Seq<i64>, a: int, b: int, desc: bool)
    requires
        a != b,
    ensures
        comes_before(keys, a, b, desc) || comes_before(keys, b, a, desc),
        !(comes_before(keys, a, b, desc) && comes_before(keys, b, a, desc)),
{
}

proof fn lemma_comes_before_transitive(keys: Seq<i64>, a: int, b: int, c: int, desc: bool)
    requires
        comes_before(keys, a, b, desc),
        comes_before(keys, b, c, desc),
    ensures
        comes_before(keys, a, c, desc),
{
}

/// The indices of `keys` in stable order, ascending (or descending when
/// `desc`) by key, ties in index order.
pub fn stable_arg_sort(keys: &Vec<i64>, desc: bool) -> (ords: Vec<usize>)
    ensures
        is_stable_arg_sort(keys@, ords@, desc),
        ords@ == stable_order(keys@, desc),
{
    let n = keys.len();
    let mut ords: Vec<usize> = Vec::new();
    let mut i: usize = 0;
    while i < n
        invariant
            n == keys.len(),
            i <= n,
            ords.len() == i,
            forall|a: int| 0 <= a < ords.len() ==> #[trigger] ords@[a] < i,
            forall|x: usize| x < i ==> #[trigger] ords@.contains(x),
            ords@.no_duplicates(),
            forall|a: int, b: int|
                0 <= a < b < ords.len() ==> comes_before(keys@, #[trigger] ords@[a] as int, #[trigger] ords@[b] as int, desc),
        decreases n - i,
    {
        // the first position whose index comes after `i`
        let mut p: usize = 0;
        while p < ords.len() && !comes_before_exec(keys, i, ords[p], desc)
            invariant
                n == keys.len(),
                i < n,
                p <= ords.len(),
                forall|a: int| 0 <= a < ords.len() ==> #[trigger] ords@[a] < i,
                forall|a: int| 0 <= a < p ==> comes_before(keys@, #[trigger] ords@[a] as int, i as int, desc),
            decreases ords.len() - p,
        {
            proof {
                lemma_comes_before_total(keys@, i as int, ords@[p as int] as int, desc);
            }
            p = p + 1;
        }
        let ghost old_ords = ords@;
        proof {
            assert forall|a: int| p <= a < old_ords.len() implies comes_before(keys@, i as int, #[trigger] old_ords[a] as int, desc) by {
                if a > p {
                    lemma_comes_before_transitive(keys@, i as int, old_ords[p as int] as int, old_ords[a] as int, desc);
                }
            }
        }
        ords.insert(p, i);
        proof {
            let o = ords@;
            assert(o == old_ords.insert(p as int, i));
            assert forall|a: int| 0 <= a < o.len() implies #[trigger] o[a] < i + 1 by {
                if a < p {
                    assert(o[a] == old_ords[a]);
                } else if a > p {
                    assert(o[a] == old_ords[a - 1]);
                }
            }
            assert forall|x: usize| x < i + 1 implies #[trigger] o.contains(x) by {
                if x == i {
                    assert(o[p as int] == i);
                } else {
                    assert(old_ords.contains(x));
                    let j = choose|j: int| 0 <= j < old_ords.len() && old_ords[j] == x;
                    if j < p {
                        assert(o[j] == x);
                    } else {
                        assert(o[j + 1] == x);
                    }
                }
            }
            assert forall|a: int, b: int| 0 <= a < o.len() && 0 <= b < o.len() && a != b implies o[a] != o[b] by {
                if a != p && b != p {
                    let a0 = if a < p { a } else { a - 1 };
                    let b0 = if b < p { b } else { b - 1 };
                    assert(o[a] == old_ords[a0]);
                    assert(o[b] == old_ords[b0]);
                } else if a == p {
                    let b0 = if b < p { b } else { b - 1 };
                    assert(o[b] == old_ords[b0]);
                } else {
                    let a0 = if a < p { a } else { a - 1 };
                    assert(o[a] == old_ords[a0]);
                }
            }
            assert forall|a: int, b: int| 0 <= a < b < o.len() implies comes_before(keys@, #[trigger] o[a] as int, #[trigger] o[b] as int, desc) by {
                if b < p {
                    assert(o[a] == old_ords[a]);
                    assert(o[b] == old_ords[b]);
                } else if b == p {
                    assert(o[a] == old_ords[a]);
                } else if a < p {
                    assert(o[a] == old_ords[a]);
                    assert(o[b] == old_ords[b - 1]);
                    lemma_comes_before_transitive(keys@, o[a] as int, i as int, o[b] as int, desc);
                } else if a == p {
                    assert(o[b] == old_ords[b - 1]);
                } else {
                    assert(o[a] == old_ords[a - 1]);
                    assert(o[b] == old_ords[b - 1]);
                }
            }
        }
        i = i + 1;
    }
    proof {
        lemma_stable_arg_sort_unique(keys@, ords@, desc);
    }
    ords
}

/// Whether index `a` comes before index `b` in the stable order of `keys`.
fn comes_before_exec(keys: &Vec<i64>, a: usize, b: usize, desc: bool) -> (r: bool)
    requires
        a < keys.len(),
        b < keys.len(),
    ensures
        r == comes_before(keys@, a as int, b as int, desc),
{
    if keys[a] == keys[b] {
        a < b
    } else if desc {
        keys[a] > keys[b]
    } else {
        keys[a] < keys[b]
    }
}

/// The keys in the given order.
pub fn gather_keys(keys: &Vec<i64>, ords: &Vec<usize>) -> (r: Vec<i64>)
    requires
        forall|i: int| 0 <= i < ords.len() ==> #[trigger] ords@[i] < keys.len(),
    ensures
        r@ == keys_in_order(keys@, ords@),
{
    let mut r: Vec<i64> = Vec::new();
    let mut i: usize = 0;
    while i < ords.len()
        invariant
            i <= ords.len(),
            forall|j: int| 0 <= j < ords.len() ==> #[trigger] ords@[j] < keys.len(),
            r@ == keys_in_order(keys@, ords@.take(i as int)),
        decreases ords.len() - i,
    {
        r.push(keys[ords[i]]);
        i = i + 1;
        assert(r@ =~= keys_in_order(keys@, ords@.take(i as int)));
    }
    assert(ords@.take(ords.len() as int) =~= ords@);
    r
}

} // verus!

verus! {

/// The rows of a table of keys, each as a sequence.
pub open spec fn key_rows(t: Vec<Vec<i64>>) -> Seq<Seq<i64>> {
    t@.map_values(|r: Vec<i64>| r@)
}

/// The rows of a table, one after another.
pub open spec fn rows_concat(rows: Seq<Seq<i64>>) -> Seq<i64>
    decreases rows.len(),
{
    if rows.len() == 0 {
        Seq::empty()
    } else {
        rows_concat(rows.drop_last()) + rows.last()
    }
}

/// The indices of the values in ascending order, ties in index order, with
/// the values in that order. The values are given by keys ordered as they
/// are: equal keys for equal values, a smaller key for a smaller value.
pub fn arg_sort_small_to_big_1d_f64(vals: &Vec<i64>) -> (r: (Vec<usize>, Vec<i64>))
    ensures
        r.0@ == stable_order(vals@, false),
        r.1@ == keys_in_order(vals@, r.0@),
{
    let ords = stable_arg_sort(vals, false);
    let sorted = gather_keys(vals, &ords);
    (ords, sorted)
}

/// The indices of the values in ascending order, ties in index order, with
/// the values in that order (values given by order keys, as for
/// `arg_sort_small_to_big_1d_f64`).
pub fn arg_sort_small_to_big_1d_f32(vals: &Vec<i64>) -> (r: (Vec<usize>, Vec<i64>))
    ensures
        r.0@ == stable_order(vals@, false),
        r.1@ == keys_in_order(vals@, r.0@),
{
    let ords = stable_arg_sort(vals, false);
    let sorted = gather_keys(vals, &ords);
    (ords, sorted)
}

/// The indices of the values in descending order, ties in index order,
/// with the values in that order (values given by order keys, as for
/// `arg_sort_small_to_big_1d_f64`).
pub fn arg_sort_big_to_small_1d_f32(vals: &Vec<i64>) -> (r: (Vec<usize>, Vec<i64>))
    ensures
        r.0@ == stable_order(vals@, true),
        r.1@ == keys_in_order(vals@, r.0@),
{
    let ords = stable_arg_sort(vals, true);
    let sorted = gather_keys(vals, &ords);
    (ords, sorted)
}

/// All values of a matrix, taken row by row, sorted ascending: the
/// positions in that row-by-row order, ties in position order, with the
/// values in that order (values given by order keys, as for
/// `arg_sort_small_to_big_1d_f64`).
pub fn arg_sort_small_to_big_2d_f32(vals: &Vec<Vec<i64>>) -> (r: (Vec<usize>, Vec<i64>))
    ensures
        r.0@ == stable_order(rows_concat(key_rows(*vals)), false),
        r.1@ == keys_in_order(rows_concat(key_rows(*vals)), r.0@),
{
    let mut flat: Vec<i64> = Vec::new();
    let mut i: usize = 0;
    while i < vals.len()
        invariant
            i <= vals.len(),
            flat@ == rows_concat(key_rows(*vals).take(i as int)),
        decreases vals.len() - i,
    {
        let mut j: usize = 0;
        let ghost base = flat@;
        while j < vals[i].len()
            invariant
                i < vals.len(),
                j <= vals@[i as int].len(),
                flat@ == base + vals@[i as int]@.take(j as int),
            decreases vals@[i as int].len() - j,
        {
            flat.push(vals[i][j]);
            j = j + 1;
            assert(flat@ =~= base + vals@[i as int]@.take(j as int));
        }
        assert(vals@[i as int]@.take(j as int) =~= vals@[i as int]@);
        assert(key_rows(*vals).take(i + 1).drop_last() =~= key_rows(*vals).take(i as int));
        i = i + 1;
    }
    assert(key_rows(*vals).take(vals.len() as int) =~= key_rows(*vals));
    let ords = stable_arg_sort(&flat, false);
    let sorted = gather_keys(&flat, &ords);
    (ords, sorted)
}

/// For every row, its column indices in descending order of the row's
/// values, ties in column order, with the values in that order.
pub fn arg_sort_big_to_small_2d(vals: &Vec<Vec<i64>>) -> (r: (Vec<Vec<usize>>, Vec<Vec<i64>>))
    ensures
        r.0.len() == vals.len(),
        r.1.len() == vals.len(),
        forall|i: int| 0 <= i < vals.len() ==> (#[trigger] r.0@[i])@ == stable_order(vals@[i]@, true),
        forall|i: int| 0 <= i < vals.len() ==> (#[trigger] r.1@[i])@ == keys_in_order(vals@[i]@, r.0@[i]@),
{
    let mut ords: Vec<Vec<usize>> = Vec::new();
    let mut sorted: Vec<Vec<i64>> = Vec::new();
    let mut i: usize = 0;
    while i < vals.len()
        invariant
            i <= vals.len(),
            ords.len() == i,
            sorted.len() == i,
            forall|k: int| 0 <= k < i ==> (#[trigger] ords@[k])@ == stable_order(vals@[k]@, true),
            forall|k: int| 0 <= k < i ==> (#[trigger] sorted@[k])@ == keys_in_order(vals@[k]@, ords@[k]@),
        decreases vals.len() - i,
    {
        let o = stable_arg_sort(&vals[i], true);
        let s = gather_keys(&vals[i], &o);
        ords.push(o);
        sorted.push(s);
        i = i + 1;
    }
    (ords, sorted)
}

} // verus!

verus! {

/// The first position from `j` on whose index comes after `x`, or the
/// length when there is none.
pub open spec fn insert_pos(keys: Seq<i64>, o: Seq<usize>, x: int, desc: bool, j: int) -> int
    decreases o.len() - j,
{
    if j >= o.len() {
        o.len() as int
    } else if comes_before(keys, x, o[j] as int, desc) {
        j
    } else {
        insert_pos(keys, o, x, desc, j + 1)
    }
}

proof fn lemma_insert_pos(keys: Seq<i64>, o: Seq<usize>, x: int, desc: bool, j: int)
    requires
        0 <= j <= o.len(),
        forall|a: int| 0 <= a < o.len() ==> #[trigger] o[a] as int != x,
        forall|a: int| 0 <= a < j ==> comes_before(keys, #[trigger] o[a] as int, x, desc),
    ensures
        j <= insert_pos(keys, o, x, desc, j) <= o.len(),
        forall|a: int| 0 <= a < insert_pos(keys, o, x, desc, j) ==> comes_before(keys, #[trigger] o[a] as int, x, desc),
        insert_pos(keys, o, x, desc, j) < o.len() ==> comes_before(keys, x, o[insert_pos(keys, o, x, desc, j)] as int, desc),
    decreases o.len() - j,
{
    if j < o.len() && !comes_before(keys, x, o[j] as int, desc) {
        lemma_comes_before_total(keys, x, o[j] as int, desc);
        lemma_insert_pos(keys, o, x, desc, j + 1);
    }
}

/// The first `i` indices of `keys` in stable order, built by insertion.
pub proof fn stable_sort_prefix(keys: Seq<i64>, desc: bool, i: int) -> (o: Seq<usize>)
    requires
        0 <= i <= keys.len(),
        keys.len() <= usize::MAX,
    ensures
        o.len() == i,
        forall|a: int| 0 <= a < o.len() ==> #[trigger] o[a] < i,
        forall|x: usize| x < i ==> #[trigger] o.contains(x),
        o.no_duplicates(),
        forall|a: int, b: int| 0 <= a < b < o.len() ==> comes_before(keys, #[trigger] o[a] as int, #[trigger] o[b] as int, desc),
    decreases i,
{
    if i == 0 {
        Seq::empty()
    } else {
        let o0 = stable_sort_prefix(keys, desc, i - 1);
        let x = (i - 1) as usize;
        assert(x as int == i - 1);
        lemma_insert_pos(keys, o0, i - 1, desc, 0);
        let p = insert_pos(keys, o0, i - 1, desc, 0);
        assert forall|a: int| p <= a < o0.len() implies comes_before(keys, i - 1, #[trigger] o0[a] as int, desc) by {
            if a > p {
                lemma_comes_before_transitive(keys, i - 1, o0[p] as int, o0[a] as int, desc);
            }
        }
        let o = o0.insert(p, x);
        assert forall|a: int| 0 <= a < o.len() implies #[trigger] o[a] < i by {
            if a < p {
                assert(o[a] == o0[a]);
            } else if a > p {
                assert(o[a] == o0[a - 1]);
            }
        }
        assert forall|y: usize| y < i implies #[trigger] o.contains(y) by {
            if y == x {
                assert(o[p] == x);
            } else {
                assert(o0.contains(y));
                let j = choose|j: int| 0 <= j < o0.len() && o0[j] == y;
                if j < p {
                    assert(o[j] == y);
                } else {
                    assert(o[j + 1] == y);
                }
            }
        }
        assert forall|a: int, b: int| 0 <= a < o.len() && 0 <= b < o.len() && a != b implies o[a] != o[b] by {
            if a != p && b != p {
                let a0 = if a < p { a } else { a - 1 };
                let b0 = if b < p { b } else { b - 1 };
                assert(o[a] == o0[a0]);
                assert(o[b] == o0[b0]);
            } else if a == p {
                let b0 = if b < p { b } else { b - 1 };
                assert(o[b] == o0[b0]);
            } else {
                let a0 = if a < p { a } else { a - 1 };
                assert(o[a] == o0[a0]);
            }
        }
        assert forall|a: int, b: int| 0 <= a < b < o.len() implies comes_before(keys, #[trigger] o[a] as int, #[trigger] o[b] as int, desc) by {
            if b < p {
                assert(o[a] == o0[a]);
                assert(o[b] == o0[b]);
            } else if b == p {
                assert(o[a] == o0[a]);
            } else if a < p {
                assert(o[a] == o0[a]);
                assert(o[b] == o0[b - 1]);
                lemma_comes_before_transitive(keys, o[a] as int, i - 1, o[b] as int, desc);
            } else if a == p {
                assert(o[b] == o0[b - 1]);
            } else {
                assert(o[a] == o0[a - 1]);
                assert(o[b] == o0[b - 1]);
            }
        }
        o
    }
}

/// Every sequence of keys has a stable arg sort, so `stable_order` is one.
pub proof fn lemma_stable_order_is_arg_sort(keys: Seq<i64>, desc: bool)
    requires
        keys.len() <= usize::MAX,
    ensures
        is_stable_arg_sort(keys, stable_order(keys, desc), desc),
{
    let o = stable_sort_prefix(keys, desc, keys.len() as int);
    assert(is_stable_arg_sort(keys, o, desc));
}

} // verus!
