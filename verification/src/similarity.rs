use vstd::prelude::*;

verus! {

/// A vector whose coordinates are all -1, 0 or +1.
pub open spec fn is_ternary(v: Seq<i8>) -> bool {
    forall|i: int| 0 <= i < v.len() ==> -1 <= #[trigger] v[i] <= 1
}

/// Inner product of the first `n` coordinates of `a` and `b`.
pub open spec fn dot_prefix(a: Seq<i8>, b: Seq<i8>, n: int) -> int
    decreases n,
{
    if n <= 0 {
        0
    } else {
        dot_prefix(a, b, n - 1) + (a[n - 1] as int) * (b[n - 1] as int)
    }
}

/// The similarity of two embeddings: their inner product.
pub open spec fn spec_similarity(a: Seq<i8>, b: Seq<i8>) -> int {
    dot_prefix(a, b, a.len() as int)
}

/// The inner product of two ternary vectors is bounded by the number of
/// coordinates taken.
pub proof fn lemma_dot_prefix_bounded(a: Seq<i8>, b: Seq<i8>, n: int)
    requires
        is_ternary(a),
        is_ternary(b),
        0 <= n <= a.len(),
        n <= b.len(),
    ensures
        -n <= dot_prefix(a, b, n) <= n,
    decreases n,
{
    if n > 0 {
        lemma_dot_prefix_bounded(a, b, n - 1);
        let x = a[n - 1] as int;
        let y = b[n - 1] as int;
        assert(-1 <= x * y <= 1) by (nonlinear_arith)
            requires
                -1 <= x <= 1,
                -1 <= y <= 1,
        ;
    }
}

/// The similarity of two ternary vectors of the same length lies within
/// plus or minus their length.
pub proof fn lemma_similarity_bounded(a: Seq<i8>, b: Seq<i8>)
    requires
        is_ternary(a),
        is_ternary(b),
        a.len() == b.len(),
    ensures
        -(a.len() as int) <= spec_similarity(a, b) <= a.len(),
{
    lemma_dot_prefix_bounded(a, b, a.len() as int);
}

/// Similarity is symmetric.
pub proof fn lemma_similarity_symmetric(a: Seq<i8>, b: Seq<i8>)
    requires
        a.len() == b.len(),
    ensures
        spec_similarity(a, b) == spec_similarity(b, a),
{
    lemma_dot_prefix_symmetric(a, b, a.len() as int);
}

proof fn lemma_dot_prefix_symmetric(a: Seq<i8>, b: Seq<i8>, n: int)
    ensures
        dot_prefix(a, b, n) == dot_prefix(b, a, n),
    decreases n,
{
    if n > 0 {
        lemma_dot_prefix_symmetric(a, b, n - 1);
        let x = a[n - 1] as int;
        let y = b[n - 1] as int;
        assert(x * y == y * x) by (nonlinear_arith);
    }
}

/// The similarity of two ternary embeddings of equal length: the number of
/// coordinates where their signs agree minus the number where they disagree.
pub fn similarity(a: &Vec<i8>, b: &Vec<i8>) -> (s: i64)
    requires
        a.len() == b.len(),
        a.len() <= i64::MAX,
        is_ternary(a@),
        is_ternary(b@),
    ensures
        s == spec_similarity(a@, b@),
{
    let mut acc: i64 = 0;
    let mut i: usize = 0;
    while i < a.len()
        invariant
            a.len() == b.len(),
            a.len() <= i64::MAX,
            is_ternary(a@),
            is_ternary(b@),
            i <= a.len(),
            acc == dot_prefix(a@, b@, i as int),
        decreases a.len() - i,
    {
        proof {
            lemma_dot_prefix_bounded(a@, b@, i as int + 1);
        }
        let x = a[i] as i64;
        let y = b[i] as i64;
        assert(-1 <= x * y <= 1) by (nonlinear_arith)
            requires
                -1 <= x <= 1,
                -1 <= y <= 1,
        ;
        acc = acc + x * y;
        i = i + 1;
    }
    acc
}

} // verus!
