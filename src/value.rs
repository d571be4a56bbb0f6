//! The monetary value carried by each declaration entry.
use vstd::prelude::*;

use crate::bytes::{get_u64, put_u64, short_read, u64_be_bytes, u64_from_be, ReadError};

verus! {

/// An amount of money, in the smallest unit.
#[derive(Clone, Copy, Debug, PartialEq, Eq, Structural)]
pub struct Value(pub u64);

impl Value {
    /// Reads a value, eight big-endian bytes, at `pos`; returns it with the
    /// position after it.
    pub fn read(buf: &[u8], pos: usize) -> (r: Result<(Value, usize), ReadError>)
        requires
            pos <= buf@.len(),
        ensures
            buf@.len() - pos >= 8 ==> r == Ok::<(Value, usize), ReadError>(
                (Value(u64_from_be(buf@, pos as int)), (pos + 8) as usize),
            ),
            buf@.len() - pos < 8 ==> r == Err::<(Value, usize), ReadError>(
                short_read(buf@.len() as int, pos as int, 8),
            ),
    {
        match get_u64(buf, pos) {
            Ok((n, next)) => Ok((Value(n), next)),
            Err(e) => Err(e),
        }
    }

    /// Appends the eight big-endian bytes of the value.
    pub fn serialize_into(&self, out: &mut Vec<u8>)
        ensures
            final(out)@ == old(out)@ + u64_be_bytes(self.0),
    {
        put_u64(out, self.0);
    }
}

} // verus!
