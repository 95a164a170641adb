//! The size checks made before a run of bytes is taken as records of a
//! fixed size.

use vstd::prelude::*;

verus! {

/// Why bytes could not be taken as records.
#[derive(Debug, Clone, Copy, PartialEq, Eq, Structural)]
pub enum CastError {
    /// The length is not a whole number of records.
    SizeNotMultiple,
    /// The length is not that of one record.
    SizeMismatch,
    /// The bytes do not hold the given number of records.
    CountMismatch(usize),
}

/// Checks that `data` is a whole number of `size`-byte records, and hands it
/// back for reading as such.
pub fn cast_data_vec(data: &[u8], size: usize) -> (r: Result<&[u8], CastError>)
    requires
        size > 0,
    ensures
        (data@.len() as int) % (size as int) == 0 ==> r == Ok::<&[u8], CastError>(data),
        (data@.len() as int) % (size as int) != 0 ==> r == Err::<&[u8], CastError>(CastError::SizeNotMultiple),
{
    if data.len() % size == 0 {
        Ok(data)
    } else {
        Err(CastError::SizeNotMultiple)
    }
}

/// Checks that `data` is exactly one `size`-byte record, and hands it back
/// for reading as such.
pub fn cast_data(data: &[u8], size: usize) -> (r: Result<&[u8], CastError>)
    ensures
        data@.len() == size ==> r == Ok::<&[u8], CastError>(data),
        data@.len() != size ==> r == Err::<&[u8], CastError>(CastError::SizeMismatch),
{
    if data.len() == size {
        Ok(data)
    } else {
        Err(CastError::SizeMismatch)
    }
}

/// Checks that `data` holds `count` records of `size` bytes (a trailing part
/// of a record left aside in the count), and hands it back for reading as
/// such records.
pub fn cast_data_n(data: &[u8], size: usize, count: usize) -> (r: Result<&[u8], CastError>)
    requires
        size > 0,
        (data@.len() as int) / (size as int) == count ==> (data@.len() as int) % (size as int) == 0,
    ensures
        (data@.len() as int) / (size as int) == count ==> r == Ok::<&[u8], CastError>(data),
        (data@.len() as int) / (size as int) != count ==> r == Err::<&[u8], CastError>(
            CastError::CountMismatch(count),
        ),
{
    if data.len() / size == count {
        Ok(data)
    } else {
        Err(CastError::CountMismatch(count))
    }
}

} // verus!
