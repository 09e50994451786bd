//! An embedding table: `num_embeddings` rows of `embedding_dim` elements in
//! one flat weight vector, read row by row.

use vstd::prelude::*;

verus! {

/// An embedding table of `num_embeddings` rows, each `embedding_dim` wide.
pub struct Embedding<Dtype> {
    num_embeddings: usize,
    embedding_dim: usize,
    pub weight: Vec<Dtype>,
}

/// Row `index` of a flat row-major table whose rows are `dim` wide.
pub open spec fn row_of<Dtype>(w: Seq<Dtype>, dim: int, index: int) -> Seq<Dtype> {
    w.subrange(index * dim, (index + 1) * dim)
}

/// The rows picked by `idxs`, in order.
pub open spec fn rows_of<Dtype>(w: Seq<Dtype>, dim: int, idxs: Seq<usize>) -> Seq<Seq<Dtype>> {
    idxs.map_values(|ix: usize| row_of(w, dim, ix as int))
}

impl<Dtype: Copy> Embedding<Dtype> {
    /// The weight vector's contents.
    pub closed spec fn weight_view(&self) -> Seq<Dtype> {
        self.weight@
    }

    /// The number of rows.
    pub closed spec fn spec_num_embeddings(&self) -> usize {
        self.num_embeddings
    }

    /// The width of each row.
    pub closed spec fn spec_embedding_dim(&self) -> usize {
        self.embedding_dim
    }

    /// Build a table of the given extent, its weights filled with the
    /// default element value. Zero extents are caller errors and are
    /// excluded.
    pub fn new(num_embeddings: usize, embedding_dim: usize) -> (r: Embedding<Dtype>) where
        Dtype: Default,

        requires
            num_embeddings >= 1,
            embedding_dim >= 1,
            num_embeddings * embedding_dim <= usize::MAX,
        ensures
            r.spec_num_embeddings() == num_embeddings,
            r.spec_embedding_dim() == embedding_dim,
            r.weight_view().len() == num_embeddings * embedding_dim,
            forall|i: int| 0 <= i < r.weight_view().len() ==> call_ensures(
                Dtype::default,
                (),
                #[trigger] r.weight_view()[i],
            ),
    {
        let mut weight: Vec<Dtype> = Vec::new();
        let n = num_embeddings * embedding_dim;
        let mut i: usize = 0;
        while i < n
            invariant
                0 <= i <= n,
                weight@.len() == i,
                forall|j: int| 0 <= j < weight@.len() ==> call_ensures(
                    Dtype::default,
                    (),
                    #[trigger] weight@[j],
                ),
            decreases n - i,
        {
            weight.push(Dtype::default());
            i += 1;
        }
        Embedding { num_embeddings, embedding_dim, weight }
    }

    /// The number of rows.
    pub fn num_embeddings(&self) -> (r: usize)
        ensures
            r == self.spec_num_embeddings(),
    {
        self.num_embeddings
    }

    /// The width of each row.
    pub fn embedding_dim(&self) -> (r: usize)
        ensures
            r == self.spec_embedding_dim(),
    {
        self.embedding_dim
    }

    /// Row `index` of the table.
    pub fn index(&self, index: usize) -> (r: Vec<Dtype>)
        requires
            (index + 1) * self.spec_embedding_dim() <= self.weight_view().len(),
        ensures
            r@ == row_of(self.weight_view(), self.spec_embedding_dim() as int, index as int),
    {
        let dim = self.embedding_dim;
        let wl = self.weight.len();
        proof {
            assert(index * dim + dim == (index + 1) * dim) by (nonlinear_arith);
            assert(index * dim >= 0) by (nonlinear_arith);
        }
        let start = index * dim;
        let mut out: Vec<Dtype> = Vec::new();
        let mut d: usize = 0;
        while d < dim
            invariant
                dim == self.spec_embedding_dim(),
                wl == self.weight@.len(),
                start == index * dim,
                start + dim <= wl,
                0 <= d <= dim,
                out@.len() == d,
                forall|j: int| 0 <= j < d ==> out@[j] == self.weight@[start + j],
            decreases dim - d,
        {
            out.push(self.weight[start + d]);
            d += 1;
        }
        proof {
            assert(out@ =~= row_of(self.weight@, dim as int, index as int));
        }
        out
    }

    /// The rows picked by each entry of `x`, concatenated in order. Every
    /// entry must name a row that lies inside the weight vector.
    pub fn forward(&self, x: &[usize]) -> (r: Vec<Dtype>)
        requires
            forall|i: int| 0 <= i < x@.len() ==> (x@[i] + 1) * self.spec_embedding_dim()
                <= self.weight_view().len(),
        ensures
            r@ == rows_of(self.weight_view(), self.spec_embedding_dim() as int, x@).flatten(),
    {
        broadcast use vstd::prelude::Seq::lemma_flatten_push;

        let ghost dim = self.spec_embedding_dim() as int;
        let mut out: Vec<Dtype> = Vec::new();
        let n = x.len();
        let mut i: usize = 0;
        proof {
            assert(rows_of(self.weight@, dim, x@.take(0)) =~= Seq::<Seq<Dtype>>::empty());
            assert(out@ =~= rows_of(self.weight@, dim, x@.take(0)).flatten());
        }
        while i < n
            invariant
                dim == self.spec_embedding_dim() as int,
                n == x@.len(),
                forall|k: int| 0 <= k < x@.len() ==> (x@[k] + 1) * self.spec_embedding_dim()
                    <= self.weight_view().len(),
                0 <= i <= n,
                out@ == rows_of(self.weight@, dim, x@.take(i as int)).flatten(),
            decreases n - i,
        {
            let row = self.index(x[i]);
            let ghost before = out@;
            let mut row_vec = row;
            out.append(&mut row_vec);
            proof {
                let taken = rows_of(self.weight@, dim, x@.take(i as int));
                let taken1 = rows_of(self.weight@, dim, x@.take(i as int + 1));
                let rw = row_of(self.weight@, dim, x@[i as int] as int);
                assert(taken1 =~= taken.push(rw));
                taken.lemma_flatten_push(rw);
                assert(taken1.flatten() == taken.flatten() + rw);
            }
            i += 1;
        }
        proof {
            assert(x@.take(n as int) =~= x@);
        }
        out
    }
}

} // verus!
