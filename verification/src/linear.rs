//! A fully-connected layer's parameter container: a weight matrix of
//! `in_features * out_features` entries and an optional bias vector, each
//! filled with the element type's default value.

use vstd::prelude::*;

verus! {

/// The parameters of a fully-connected layer.
pub struct Linear<Dtype> {
    in_features: usize,
    out_features: usize,
    pub weight: Vec<Dtype>,
    bias: Option<Vec<Dtype>>,
}

impl<Dtype> Linear<Dtype> {
    /// The weight vector's contents.
    pub closed spec fn weight_view(&self) -> Seq<Dtype> {
        self.weight@
    }

    /// The layer's input width.
    pub closed spec fn spec_in_features(&self) -> usize {
        self.in_features
    }

    /// The layer's output width.
    pub closed spec fn spec_out_features(&self) -> usize {
        self.out_features
    }

    /// The bias vector's contents, where the layer carries one.
    pub closed spec fn bias_view(&self) -> Option<Seq<Dtype>> {
        match self.bias {
            Some(ref b) => Some(b@),
            None => None,
        }
    }

    /// Build a layer of the given widths, its weight matrix and — where
    /// asked for — its bias vector filled with the default element value.
    /// Zero-width layers are caller errors and are excluded.
    pub fn new(in_features: usize, out_features: usize, bias: bool) -> (r: Linear<Dtype>) where
        Dtype: Default,

        requires
            in_features >= 1,
            out_features >= 1,
            in_features * out_features <= usize::MAX,
        ensures
            r.spec_in_features() == in_features,
            r.spec_out_features() == out_features,
            r.weight_view().len() == in_features * out_features,
            forall|i: int| 0 <= i < r.weight_view().len() ==> call_ensures(
                Dtype::default,
                (),
                #[trigger] r.weight_view()[i],
            ),
            bias ==> (r.bias_view() matches Some(b) && b.len() == out_features),
            !bias ==> r.bias_view() is None,
    {
        let weight = fill_default::<Dtype>(in_features * out_features);
        let bias_vec = if bias {
            Some(fill_default::<Dtype>(out_features))
        } else {
            None
        };
        Linear { in_features, out_features, weight, bias: bias_vec }
    }
}

/// A vector of `n` default elements.
fn fill_default<Dtype: Default>(n: usize) -> (r: Vec<Dtype>)
    ensures
        r@.len() == n,
        forall|i: int| 0 <= i < r@.len() ==> call_ensures(Dtype::default, (), #[trigger] r@[i]),
{
    let mut out: Vec<Dtype> = Vec::new();
    let mut i: usize = 0;
    while i < n
        invariant
            0 <= i <= n,
            out@.len() == i,
            forall|j: int| 0 <= j < out@.len() ==> call_ensures(
                Dtype::default,
                (),
                #[trigger] out@[j],
            ),
        decreases n - i,
    {
        out.push(Dtype::default());
        i += 1;
    }
    out
}

} // verus!
