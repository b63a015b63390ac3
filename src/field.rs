//! The trace as a table of Mersenne31 field elements, the form the proving
//! backend consumes.
use vstd::prelude::*;
use p3_field::PrimeCharacteristicRing;
use p3_matrix::dense::{DenseMatrix, RowMajorMatrix};
use p3_mersenne_31::Mersenne31;

verus! {

#[verifier::external_type_specification]
#[verifier::external_body]
pub struct ExMersenne31(Mersenne31);

#[verifier::external_type_specification]
#[verifier::external_body]
#[verifier::reject_recursive_types(T)]
#[verifier::reject_recursive_types(V)]
pub struct ExDenseMatrix<T, V>(DenseMatrix<T, V>);

/// The canonical values of a field table's entries, row after row.
pub uninterp spec fn matrix_entries(m: RowMajorMatrix<Mersenne31>) -> Seq<u32>;

/// The number of columns of a field table.
pub uninterp spec fn matrix_width(m: RowMajorMatrix<Mersenne31>) -> nat;

/// Relies on `PrimeCharacteristicRing::from_u8`, which maps `r` to the sum of
/// `r` copies of `ONE` (the element of canonical value `r`, as `r < 2^31 - 1`),
/// and on `DenseMatrix::new`, which keeps the values in order and the width
/// as given.
#[verifier::external_body]
pub(crate) fn field_matrix(values: &Vec<u8>, width: usize) -> (r: RowMajorMatrix<Mersenne31>)
    requires
        width > 0,
        values@.len() % (width as nat) == 0,
    ensures
        matrix_entries(r) == values@.map_values(|x: u8| x as u32),
        matrix_width(r) == width,
{
    RowMajorMatrix::new(values.iter().map(|&x| Mersenne31::from_u8(x)).collect(), width)
}

} // verus!
