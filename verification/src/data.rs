//! Integer tensors at rest: what goes to a tensor backend and what comes back.
//!
//! A [`TensorData`] is the backend-neutral container that every backend loads
//! from and reads back into. The items marked as trusted here state what it
//! holds; the rest of the library works on plain vectors.

use burn::tensor::TensorData;
use vstd::prelude::*;

verus! {

/// The backend-neutral tensor container.
#[verifier::external_type_specification]
#[verifier::external_body]
pub struct ExTensorData(TensorData);

/// The integers that a container holds, row by row.
pub uninterp spec fn cells(d: TensorData) -> Seq<i64>;

/// The extent of a container in each dimension.
pub uninterp spec fn dims(d: TensorData) -> Seq<usize>;

/// Whether a container can be read as 64-bit integers: that is its element type
/// and its buffer is laid out for it.
pub uninterp spec fn reads_as_longs(d: TensorData) -> bool;

/// Whether a container can be read as 32-bit integers: that is its element type
/// and its buffer is laid out for it.
pub uninterp spec fn reads_as_shorts(d: TensorData) -> bool;

/// `TensorData::new` on 64-bit integers with a shape of two dimensions. The
/// container holds the values in the order given, under that shape, and can be
/// read as 64-bit integers: it keeps the vector's own buffer. It panics where
/// the shape asks for another number of values.
#[verifier::external_body]
pub(crate) fn int_table(values: Vec<i64>, rows: usize, cols: usize) -> (r: TensorData)
    requires
        values@.len() == rows * cols,
    ensures
        cells(r) == values@,
        dims(r) == seq![rows, cols],
        reads_as_longs(r),
{
    TensorData::new(values, [rows, cols])
}

/// `TensorData::to_vec` for 64-bit integers: the values, if the container is
/// of that element type and laid out for it. Which containers those are is left
/// to the name.
#[verifier::external_body]
pub(crate) fn long_values(d: &TensorData) -> (r: Option<Vec<i64>>)
    ensures
        r is Some <==> reads_as_longs(*d),
        r matches Some(v) ==> v@ == cells(*d),
{
    d.to_vec::<i64>().ok()
}

/// The values of `xs` as 64-bit integers.
pub open spec fn widened(xs: Seq<i32>) -> Seq<i64> {
    xs.map_values(|x: i32| x as i64)
}

/// `TensorData::to_vec` for 32-bit integers: the values, if the container is
/// of that element type and laid out for it. Which containers those are is left
/// to the name; none of them can be read as 64-bit integers.
#[verifier::external_body]
pub(crate) fn short_values(d: &TensorData) -> (r: Option<Vec<i32>>)
    ensures
        r is Some <==> reads_as_shorts(*d),
        r matches Some(v) ==> widened(v@) == cells(*d),
        r is Some ==> !reads_as_longs(*d),
{
    d.to_vec::<i32>().ok()
}

/// What was read, from whichever of the two element types it was read as.
pub fn read_back(longs: Option<Vec<i64>>, shorts: Option<Vec<i32>>) -> (r: Option<Vec<i64>>)
    ensures
        (match r {
            Some(v) => Some(v@),
            None => None,
        }) == (match (longs, shorts) {
            (Some(v), _) => Some(v@),
            (None, Some(v)) => Some(widened(v@)),
            (None, None) => None,
        }),
{
    match longs {
        Some(v) => Some(v),
        None => match shorts {
            None => None,
            Some(v) => {
                let mut out: Vec<i64> = Vec::new();
                let mut i: usize = 0;
                while i < v.len()
                    invariant
                        i <= v@.len(),
                        out@ =~= widened(v@).take(i as int),
                    decreases v@.len() - i,
                {
                    out.push(v[i] as i64);
                    i = i + 1;
                }
                assert(out@ =~= widened(v@));
                Some(out)
            },
        },
    }
}

/// Backend-agnostic integer readback (CPU backends use 64-bit integers, CUDA
/// 32-bit ones). `None` for any other element type.
pub fn int_vec(data: &TensorData) -> (r: Option<Vec<i64>>)
    ensures
        r is Some <==> reads_as_longs(*data) || reads_as_shorts(*data),
        r matches Some(v) ==> v@ == cells(*data),
{
    let longs: Option<Vec<i64>> = long_values(data);
    let shorts: Option<Vec<i32>> = short_values(data);
    read_back(longs, shorts)
}

/// The first integer of a container; -1 where there is none.
pub fn int_scalar(data: &TensorData) -> (r: Option<i64>)
    ensures
        r is Some <==> reads_as_longs(*data) || reads_as_shorts(*data),
        r matches Some(x) ==> x == if cells(*data).len() > 0 {
            cells(*data)[0]
        } else {
            (-1) as i64
        },
{
    match int_vec(data) {
        None => None,
        Some(v) => if v.len() > 0 {
            Some(v[0])
        } else {
            Some(-1)
        },
    }
}

/// Widening changes no value and no place.
pub proof fn lemma_widened(xs: Seq<i32>, i: int)
    requires
        0 <= i < xs.len(),
    ensures
        widened(xs).len() == xs.len(),
        widened(xs)[i] == xs[i],
{
}

} // verus!
