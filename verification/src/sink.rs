use vstd::prelude::*;
use crate::error::ParseError;

verus! {

/// The result that an operation reports: `Ok(())` when no error occurred,
/// `Err(e)` otherwise.
pub open spec fn outcome(err: Option<ParseError>) -> Result<(), ParseError> {
    match err {
        None => Ok(()),
        Some(e) => Err(e),
    }
}

/// A destination for the bytes that the parser keeps.
///
/// Writing may fail; `accept` says, for a state of the destination and the bytes
/// handed to it, what state the destination is left in and which error, if any,
/// the write reports.
pub trait ByteSink: View + Sized {
    /// The state after writing `bytes` in state `state`, and the error of the write if it failed.
    spec fn accept(state: Self::V, bytes: Seq<u8>) -> (Self::V, Option<ParseError>);

    /// Writes all of `bytes`.
    fn write_all(&mut self, bytes: &[u8]) -> (r: Result<(), ParseError>)
        ensures
            final(self)@ == Self::accept(old(self)@, bytes@).0,
            r == outcome(Self::accept(old(self)@, bytes@).1),
    ;
}

/// Writes `chunks` one after the other into a destination in state `st`, stopping
/// at the first write that fails; gives the final state and the error, if any.
pub open spec fn write_chunks<O: ByteSink>(st: O::V, chunks: Seq<Seq<u8>>) -> (O::V, Option<ParseError>)
    decreases chunks.len(),
{
    if chunks.len() == 0 {
        (st, None)
    } else {
        let (st1, err) = O::accept(st, chunks[0]);
        match err {
            None => write_chunks::<O>(st1, chunks.drop_first()),
            Some(e) => (st1, Some(e)),
        }
    }
}

impl ByteSink for Vec<u8> {
    /// A vector takes every write and appends it.
    open spec fn accept(state: Seq<u8>, bytes: Seq<u8>) -> (Seq<u8>, Option<ParseError>) {
        (state + bytes, None)
    }

    fn write_all(&mut self, bytes: &[u8]) -> (r: Result<(), ParseError>) {
        let n = bytes.len();
        let mut i: usize = 0;
        while i < n
            invariant
                n == bytes@.len(),
                i <= n,
                self@ == old(self)@ + bytes@.take(i as int),
            decreases n - i,
        {
            self.push(bytes[i]);
            i = i + 1;
            assert(bytes@.take(i as int) =~= bytes@.take(i - 1) + seq![bytes@[i - 1]]);
        }
        assert(bytes@.take(n as int) =~= bytes@);
        Ok(())
    }
}

} // verus!
