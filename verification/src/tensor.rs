//! The arrays that are handed to the model.
//!
//! The array types of `ndarray` are bounded by traits of that crate, so each
//! holder keeps its array in an opaque private field. It makes it only through
//! the constructors below, so every array here is in standard (row
//! major, contiguous) layout. Elements are bit patterns of single-precision
//! numbers. What the arrays hold is named by `row_items`, `state_items` and
//! `rate_items`, in logical order; the shapes by `row_shape` and `state_shape`.
use vstd::prelude::*;

verus! {

/// A two dimensional array: the samples that the model reads.
#[verifier::external_body]
pub struct InputRow {
    inner: ndarray::Array2<u32>,
}

/// An array whose dimension is known at run time: the recurrent state.
#[verifier::external_body]
pub struct StateTensor {
    inner: ndarray::ArrayD<u32>,
}

/// A one dimensional array: the sample rate.
#[verifier::external_body]
pub struct RateTensor {
    inner: ndarray::Array1<i64>,
}

/// The elements of a row array.
pub uninterp spec fn row_items(row: InputRow) -> Seq<u32>;

/// How many rows and columns a row array has.
pub uninterp spec fn row_shape(row: InputRow) -> (nat, nat);

/// The elements of a state array.
pub uninterp spec fn state_items(state: StateTensor) -> Seq<u32>;

/// The axis lengths of a state array.
pub uninterp spec fn state_shape(state: StateTensor) -> Seq<usize>;

/// The elements of a rate array.
pub uninterp spec fn rate_items(rate: RateTensor) -> Seq<i64>;

/// How `ndarray` words a refusal of `given` elements for `wanted` places.
pub open spec fn shape_error_text(given: int, wanted: int) -> Seq<char> {
    if given < wanted {
        "ShapeError/OutOfBounds: out of bounds indexing"@
    } else {
        "ShapeError/IncompatibleShape: incompatible shapes"@
    }
}

/// The product of the axis lengths.
pub open spec fn volume(shape: Seq<usize>) -> int
    decreases shape.len(),
{
    if shape.len() == 0 {
        1
    } else {
        volume(shape.drop_last()) * shape.last()
    }
}

impl InputRow {
    /// Calls `ndarray::Array2::zeros`, which makes an array of the shape with
    /// every element zero. It panics where the product of the axis lengths, or
    /// the number of bytes of that many elements, overflows `isize`.
    #[verifier::external_body]
    pub(crate) fn zeros(rows: usize, columns: usize) -> (row: InputRow)
        requires
            0 < rows,
            0 < columns,
            rows * columns * 4 <= isize::MAX,
        ensures
            row_shape(row) == (rows as nat, columns as nat),
            row_items(row) == Seq::new((rows * columns) as nat, |i: int| 0u32),
    {
        InputRow { inner: ndarray::Array2::<u32>::zeros((rows, columns)) }
    }

    /// Calls `ndarray::Array2::from_shape_vec`, which takes the elements in
    /// row major order. It refuses a vector whose length is not the product
    /// of the axis lengths: as out of bounds where it is shorter, as
    /// incompatible where it is longer.
    #[verifier::external_body]
    pub(crate) fn from_shape_vec(rows: usize, columns: usize, items: Vec<u32>) -> (result: Result<
        InputRow,
        String,
    >)
        requires
            0 < rows,
            0 < columns,
            rows * columns <= isize::MAX,
        ensures
            result is Ok <==> items@.len() == rows * columns,
            result matches Ok(row) ==> row_shape(row) == (rows as nat, columns as nat) && row_items(
                row,
            ) == items@,
            result matches Err(text) ==> text@ == shape_error_text(
                items@.len() as int,
                rows * columns,
            ),
    {
        match ndarray::Array2::from_shape_vec((rows, columns), items) {
            Ok(inner) => Ok(InputRow { inner }),
            Err(error) => Err(error.to_string()),
        }
    }

    /// Calls `ndarray::ArrayRef::as_slice`, which gives the elements in
    /// logical order for an array in standard layout, as these are.
    #[verifier::external_body]
    pub(crate) fn as_slice(&self) -> (items: Option<&[u32]>)
        ensures
            items is Some,
            items->0@ == row_items(*self),
    {
        self.inner.as_slice()
    }

    /// Calls `ndarray::ArrayBase::as_slice_mut`, which gives the elements for
    /// writing, in logical order, for an array in standard layout.
    #[verifier::external_body]
    pub(crate) fn as_slice_mut(&mut self) -> (items: Option<&mut [u32]>)
        ensures
            items is Some,
            items->0@ == row_items(*old(self)),
            final(items->0)@ == row_items(*final(self)),
            row_shape(*final(self)) == row_shape(*old(self)),
    {
        self.inner.as_slice_mut()
    }

    /// The elements, in row major order.
    pub fn items(&self) -> (items: &[u32])
        ensures
            items@ == row_items(*self),
    {
        self.as_slice().unwrap()
    }
}

impl StateTensor {
    /// Calls `ndarray::ArrayD::zeros`, which makes an array of the shape with
    /// every element zero. It panics where the product of the axis lengths, or
    /// the number of bytes of that many elements, overflows `isize`.
    #[verifier::external_body]
    pub(crate) fn zeros(shape: &[usize]) -> (state: StateTensor)
        requires
            forall|i: int| 0 <= i < shape@.len() ==> 0 < #[trigger] shape@[i],
            volume(shape@) * 4 <= isize::MAX,
        ensures
            state_shape(state) == shape@,
            state_items(state) == Seq::new(volume(shape@) as nat, |i: int| 0u32),
    {
        StateTensor { inner: ndarray::ArrayD::<u32>::zeros(ndarray::IxDyn(shape)) }
    }

    /// Calls `ndarray::ArrayD::from_shape_vec`, which takes the elements in
    /// row major order. It refuses a vector whose length is not the product
    /// of the axis lengths: as out of bounds where it is shorter, as
    /// incompatible where it is longer.
    #[verifier::external_body]
    pub(crate) fn from_shape_vec(shape: &[usize], items: Vec<u32>) -> (result: Result<
        StateTensor,
        String,
    >)
        requires
            forall|i: int| 0 <= i < shape@.len() ==> 0 < #[trigger] shape@[i],
            volume(shape@) <= isize::MAX,
        ensures
            result is Ok <==> items@.len() == volume(shape@),
            result matches Ok(state) ==> state_shape(state) == shape@ && state_items(state)
                == items@,
            result matches Err(text) ==> text@ == shape_error_text(
                items@.len() as int,
                volume(shape@),
            ),
    {
        match ndarray::ArrayD::from_shape_vec(ndarray::IxDyn(shape), items) {
            Ok(inner) => Ok(StateTensor { inner }),
            Err(error) => Err(error.to_string()),
        }
    }

    /// Calls `ndarray::ArrayRef::as_slice`, which gives the elements in
    /// logical order for an array in standard layout, as these are.
    #[verifier::external_body]
    pub(crate) fn as_slice(&self) -> (items: Option<&[u32]>)
        ensures
            items is Some,
            items->0@ == state_items(*self),
    {
        self.inner.as_slice()
    }

    /// Calls `ndarray::ArrayBase::as_slice_mut`, which gives the elements for
    /// writing, in logical order, for an array in standard layout.
    #[verifier::external_body]
    pub(crate) fn as_slice_mut(&mut self) -> (items: Option<&mut [u32]>)
        ensures
            items is Some,
            items->0@ == state_items(*old(self)),
            final(items->0)@ == state_items(*final(self)),
            state_shape(*final(self)) == state_shape(*old(self)),
    {
        self.inner.as_slice_mut()
    }

    /// The elements, in row major order.
    pub fn items(&self) -> (items: &[u32])
        ensures
            items@ == state_items(*self),
    {
        self.as_slice().unwrap()
    }
}

impl RateTensor {
    /// Calls `ndarray::Array1::from_vec`, which keeps the elements in order.
    #[verifier::external_body]
    pub(crate) fn from_vec(items: Vec<i64>) -> (rate: RateTensor)
        ensures
            rate_items(rate) == items@,
    {
        RateTensor { inner: ndarray::Array1::from_vec(items) }
    }

    /// Calls `ndarray::ArrayRef::as_slice`, which gives the elements in order
    /// for an array in standard layout, as these are.
    #[verifier::external_body]
    pub(crate) fn as_slice(&self) -> (items: Option<&[i64]>)
        ensures
            items is Some,
            items->0@ == rate_items(*self),
    {
        self.inner.as_slice()
    }

    /// The elements.
    pub fn items(&self) -> (items: &[i64])
        ensures
            items@ == rate_items(*self),
    {
        self.as_slice().unwrap()
    }
}

} // verus!
