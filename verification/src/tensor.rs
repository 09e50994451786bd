//! A minimal two-dimensional tensor over a flat storage vector, with the
//! shape errors its constructors report. The tokenizer's output — a
//! sequence of token ids — is what these containers consume downstream.

use vstd::prelude::*;
use vstd::string::StringExecFns;

use crate::text::{dec_digits, usize_to_string};

verus! {

/// A failure of a tensor operation, one variant per rejected condition.
#[derive(Debug, PartialEq)]
pub enum TensorError {
    InvalidShape { expected: (usize, usize), found: (usize, usize) },
    OutOfBounds { index: usize },
    ArithmeticMismatch { operation: String, shape1: (usize, usize), shape2: (usize, usize) },
    NotImplemented { feature: String },
}

/// The text of a shape pair, rendered as `(rows, cols)`.
pub open spec fn pair_text(p: (usize, usize)) -> Seq<char> {
    "("@ + dec_digits(p.0 as nat) + ", "@ + dec_digits(p.1 as nat) + ")"@
}

/// The message text of a tensor error.
pub open spec fn tensor_error_text(e: TensorError) -> Seq<char> {
    match e {
        TensorError::InvalidShape { expected, found } => "Invalid tensor shape: expected "@
            + pair_text(expected) + ", found "@ + pair_text(found),
        TensorError::OutOfBounds { index } => "Index out of bounds: "@ + dec_digits(
            index as nat,
        ),
        TensorError::ArithmeticMismatch { operation, shape1, shape2 } => {
            "Arithmetic operation '"@ + operation@ + "' cannot be performed on shapes "@
                + pair_text(shape1) + " and "@ + pair_text(shape2)
        },
        TensorError::NotImplemented { feature } => "Feature not implemented: "@ + feature@,
    }
}

/// Render a shape pair as `(rows, cols)`.
fn pair_string(p: (usize, usize)) -> (r: String)
    ensures
        r@ == pair_text(p),
{
    let mut out = "(".to_owned();
    out.append(usize_to_string(p.0).as_str());
    out.append(", ");
    out.append(usize_to_string(p.1).as_str());
    out.append(")");
    proof {
        assert(out@ =~= pair_text(p));
    }
    out
}

impl TensorError {
    /// Render the error's message.
    pub fn describe(&self) -> (r: String)
        ensures
            r@ == tensor_error_text(*self),
    {
        match self {
            TensorError::InvalidShape { expected, found } => {
                let mut out = "Invalid tensor shape: expected ".to_owned();
                out.append(pair_string(*expected).as_str());
                out.append(", found ");
                out.append(pair_string(*found).as_str());
                proof {
                    assert(out@ =~= tensor_error_text(*self));
                }
                out
            },
            TensorError::OutOfBounds { index } => {
                let mut out = "Index out of bounds: ".to_owned();
                out.append(usize_to_string(*index).as_str());
                out
            },
            TensorError::ArithmeticMismatch { operation, shape1, shape2 } => {
                let mut out = "Arithmetic operation '".to_owned();
                out.append(operation.as_str());
                out.append("' cannot be performed on shapes ");
                out.append(pair_string(*shape1).as_str());
                out.append(" and ");
                out.append(pair_string(*shape2).as_str());
                proof {
                    assert(out@ =~= tensor_error_text(*self));
                }
                out
            },
            TensorError::NotImplemented { feature } => {
                let mut out = "Feature not implemented: ".to_owned();
                out.append(feature.as_str());
                out
            },
        }
    }
}

/// A two-dimensional tensor: a `(rows, cols)` shape over a flat storage
/// vector of exactly `rows * cols` elements, stored row-major.
#[derive(Debug, PartialEq, Eq)]
pub struct Tensor<Dtype> {
    pub shape: (usize, usize),
    pub storage: Vec<Dtype>,
}

impl<Dtype: Clone> Clone for Tensor<Dtype> {
    /// A copy with the same shape over a clone of the storage.
    fn clone(&self) -> (r: Tensor<Dtype>)
        ensures
            r.shape == self.shape,
            r.storage@.len() == self.storage@.len(),
    {
        Tensor { shape: (self.shape.0, self.shape.1), storage: self.storage.clone() }
    }
}

/// Conversion of a flat collection into a tensor of a given shape.
pub trait IntoTensor<Dtype> {
    /// The elements the collection holds, in order.
    spec fn tensor_elems(&self) -> Seq<Dtype>;

    /// Reshape the collection into a `row` by `col` tensor. Fails with
    /// `InvalidShape` where the element count is not exactly `row * col`.
    fn to_tensor(self, row: usize, col: usize) -> (r: Result<Tensor<Dtype>, TensorError>)
        requires
            row * col <= usize::MAX,
        ensures
            match r {
                Ok(t) => {
                    &&& self.tensor_elems().len() == row * col
                    &&& t.shape == (row, col)
                    &&& t.storage@ == self.tensor_elems()
                },
                Err(e) => {
                    &&& self.tensor_elems().len() != row * col
                    &&& e == (TensorError::InvalidShape {
                        expected: (row, col),
                        found: (self.tensor_elems().len() as usize, 1usize),
                    })
                },
            },
    ;
}

impl<Dtype> IntoTensor<Dtype> for Vec<Dtype> {
    open spec fn tensor_elems(&self) -> Seq<Dtype> {
        self@
    }

    fn to_tensor(self, row: usize, col: usize) -> (r: Result<Tensor<Dtype>, TensorError>) {
        if self.len() != row * col {
            return Err(TensorError::InvalidShape { expected: (row, col), found: (self.len(), 1) });
        }
        Ok(Tensor { shape: (row, col), storage: self })
    }
}

impl<Dtype> Tensor<Dtype> {
    /// Build a tensor from a shape and its storage. Fails with
    /// `InvalidShape` where the storage does not hold exactly
    /// `shape.0 * shape.1` elements.
    pub fn new(shape: (usize, usize), storage: Vec<Dtype>) -> (r: Result<Tensor<Dtype>, TensorError>)
        requires
            shape.0 * shape.1 <= usize::MAX,
        ensures
            match r {
                Ok(t) => {
                    &&& storage@.len() == shape.0 * shape.1
                    &&& t.shape == shape
                    &&& t.storage@ == storage@
                },
                Err(e) => {
                    &&& storage@.len() != shape.0 * shape.1
                    &&& e == (TensorError::InvalidShape {
                        expected: shape,
                        found: (storage@.len() as usize, 1usize),
                    })
                },
            },
    {
        if storage.len() != shape.0 * shape.1 {
            return Err(TensorError::InvalidShape { expected: shape, found: (storage.len(), 1) });
        }
        Ok(Tensor { shape, storage })
    }

    /// A tensor of the given shape filled with the `Dtype` value of one.
    pub fn ones(shape: (usize, usize)) -> (r: Tensor<Dtype>) where Dtype: From<u8>
        requires
            shape.0 * shape.1 <= usize::MAX,
        ensures
            r.shape == shape,
            r.storage@.len() == shape.0 * shape.1,
            forall|i: int| 0 <= i < r.storage@.len() ==> call_ensures(
                Dtype::from,
                (1u8,),
                #[trigger] r.storage@[i],
            ),
    {
        Tensor { shape, storage: fill_from_u8(1, shape.0 * shape.1) }
    }

    /// A tensor of the given shape filled with the `Dtype` value of zero.
    pub fn zeros(shape: (usize, usize)) -> (r: Tensor<Dtype>) where Dtype: From<u8>
        requires
            shape.0 * shape.1 <= usize::MAX,
        ensures
            r.shape == shape,
            r.storage@.len() == shape.0 * shape.1,
            forall|i: int| 0 <= i < r.storage@.len() ==> call_ensures(
                Dtype::from,
                (0u8,),
                #[trigger] r.storage@[i],
            ),
    {
        Tensor { shape, storage: fill_from_u8(0, shape.0 * shape.1) }
    }

    /// Whether the tensor keeps gradients alongside its storage. This build
    /// carries none, so the answer is always no.
    pub fn retain_grad(&self) -> (r: bool)
        ensures
            r == false,
    {
        false
    }
}

/// A vector of `n` elements, each converted from the byte `v`.
fn fill_from_u8<Dtype: From<u8>>(v: u8, n: usize) -> (r: Vec<Dtype>)
    ensures
        r@.len() == n,
        forall|i: int| 0 <= i < r@.len() ==> call_ensures(Dtype::from, (v,), #[trigger] r@[i]),
{
    let mut out: Vec<Dtype> = Vec::new();
    let mut i: usize = 0;
    while i < n
        invariant
            0 <= i <= n,
            out@.len() == i,
            forall|j: int| 0 <= j < out@.len() ==> call_ensures(Dtype::from, (v,), #[trigger] out@[j]),
        decreases n - i,
    {
        out.push(Dtype::from(v));
        i += 1;
    }
    out
}

} // verus!
