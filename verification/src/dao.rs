use vstd::prelude::*;
use crate::similarity::{is_ternary, spec_similarity, similarity, lemma_similarity_bounded};

verus! {

/// A data set of ternary embeddings, all of the same dimension.
pub struct Dao {
    pub num_data: usize,
    pub dim: usize,
    pub embeddings: Vec<Vec<i8>>,
}

impl Dao {
    /// The embeddings are `num_data` ternary vectors of length `dim`, and
    /// there are at most `u32::MAX` of them, so every id is a `u32` below
    /// `u32::MAX`, which stays free to mark a missing entry.
    pub open spec fn wf(&self) -> bool {
        &&& self.embeddings.len() == self.num_data
        &&& self.num_data <= u32::MAX
        &&& self.dim <= i64::MAX
        &&& forall|i: int|
            0 <= i < self.num_data ==> (#[trigger] self.embeddings@[i])@.len() == self.dim
                && is_ternary(self.embeddings@[i]@)
    }

    /// The similarity of data points `i` and `j`.
    pub open spec fn sim(&self, i: int, j: int) -> int {
        spec_similarity(self.embeddings@[i]@, self.embeddings@[j]@)
    }

    /// The similarity of data points `i` and `j` as an `i64`.
    pub open spec fn sim_i64(&self, i: int, j: int) -> i64 {
        self.sim(i, j) as i64
    }

    /// Similarities between data points lie within plus or minus `dim`.
    pub proof fn lemma_sim_bounded(&self, i: int, j: int)
        requires
            self.wf(),
            0 <= i < self.num_data,
            0 <= j < self.num_data,
        ensures
            -(self.dim as int) <= self.sim(i, j) <= self.dim,
            self.sim_i64(i, j) == self.sim(i, j),
    {
        lemma_similarity_bounded(self.embeddings@[i]@, self.embeddings@[j]@);
    }

    /// The similarity of data points `i` and `j`.
    pub fn similarity_between(&self, i: usize, j: usize) -> (s: i64)
        requires
            self.wf(),
            i < self.num_data,
            j < self.num_data,
        ensures
            s == self.sim(i as int, j as int),
            s == self.sim_i64(i as int, j as int),
            -(self.dim as int) <= s <= self.dim,
    {
        proof {
            self.lemma_sim_bounded(i as int, j as int);
        }
        similarity(&self.embeddings[i], &self.embeddings[j])
    }

    /// The similarity of data point `i` to a query embedding.
    pub fn similarity_to(&self, i: usize, query: &Vec<i8>) -> (s: i64)
        requires
            self.wf(),
            i < self.num_data,
            query.len() == self.dim,
            is_ternary(query@),
        ensures
            s == spec_similarity(self.embeddings@[i as int]@, query@),
            -(self.dim as int) <= s <= self.dim,
    {
        proof {
            lemma_similarity_bounded(self.embeddings@[i as int]@, query@);
        }
        similarity(&self.embeddings[i], query)
    }
}

} // verus!

verus! {

/// Why a set of embeddings cannot make a data set.
#[derive(Clone, Copy, PartialEq, Eq, Structural, Debug)]
pub enum DaoError {
    /// There are more than `u32::MAX` embeddings.
    TooManyPoints,
    /// The dimension exceeds `i64::MAX`.
    DimensionTooLarge,
    /// Embedding `index` is the first whose length is not the dimension or
    /// which has a coordinate other than -1, 0 or +1.
    BadEmbedding { index: usize },
}

/// Embedding `v` has length `dim` and is ternary.
pub open spec fn embedding_fits(v: Seq<i8>, dim: usize) -> bool {
    v.len() == dim && is_ternary(v)
}

/// Whether embedding `v` has length `dim` and is ternary.
fn check_embedding(v: &Vec<i8>, dim: usize) -> (b: bool)
    ensures
        b == embedding_fits(v@, dim),
{
    if v.len() != dim {
        return false;
    }
    let mut i: usize = 0;
    while i < v.len()
        invariant
            i <= v.len(),
            forall|j: int| 0 <= j < i ==> -1 <= #[trigger] v@[j] <= 1,
        decreases v.len() - i,
    {
        if v[i] < -1 || v[i] > 1 {
            return false;
        }
        i = i + 1;
    }
    true
}

/// Makes a data set of the given embeddings. It fails with `TooManyPoints`
/// when there are more than `u32::MAX`, else with `DimensionTooLarge` when
/// `dim` exceeds `i64::MAX`, else with `BadEmbedding` at the first
/// embedding that is not a ternary vector of length `dim`; otherwise it
/// succeeds.
pub fn dao_from_data(embeddings: Vec<Vec<i8>>, dim: usize) -> (r: Result<Dao, DaoError>)
    ensures
        embeddings.len() > u32::MAX ==> r == Err::<Dao, DaoError>(DaoError::TooManyPoints),
        embeddings.len() <= u32::MAX && dim > i64::MAX ==> r == Err::<Dao, DaoError>(DaoError::DimensionTooLarge),
        embeddings.len() <= u32::MAX && dim <= i64::MAX ==> match r {
            Ok(d) => {
                &&& forall|i: int| 0 <= i < embeddings.len() ==> embedding_fits(#[trigger] embeddings@[i]@, dim)
                &&& d.wf()
                &&& d.embeddings@ == embeddings@
                &&& d.num_data == embeddings.len()
                &&& d.dim == dim
            },
            Err(e) => e matches DaoError::BadEmbedding { index } && index < embeddings.len()
                && !embedding_fits(embeddings@[index as int]@, dim)
                && forall|i: int| 0 <= i < index ==> embedding_fits(#[trigger] embeddings@[i]@, dim),
        },
{
    if embeddings.len() > 4294967295usize {
        return Err(DaoError::TooManyPoints);
    }
    if dim as u64 > 9223372036854775807u64 {
        return Err(DaoError::DimensionTooLarge);
    }
    let mut i: usize = 0;
    while i < embeddings.len()
        invariant
            embeddings.len() <= u32::MAX,
            dim <= i64::MAX,
            i <= embeddings.len(),
            forall|j: int| 0 <= j < i ==> embedding_fits(#[trigger] embeddings@[j]@, dim),
        decreases embeddings.len() - i,
    {
        if !check_embedding(&embeddings[i], dim) {
            return Err(DaoError::BadEmbedding { index: i });
        }
        i = i + 1;
    }
    let num_data = embeddings.len();
    Ok(Dao { num_data, dim, embeddings })
}

} // verus!
