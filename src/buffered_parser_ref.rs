use vstd::prelude::*;

use crate::framing::{pull_outcome, read_record, ParseError};
use crate::source::ByteSource;

verus! {

/// The outcome of a pull, the lent record seen as its bytes.
pub open spec fn lent_outcome(r: Result<Option<&[u8]>, ParseError>) -> Result<Option<Seq<u8>>, ParseError> {
    match r {
        Ok(Some(s)) => Ok(Some(s@)),
        Ok(None) => Ok(None),
        Err(e) => Err(e),
    }
}

/// A parser that reads every record into one buffer and lends each payload
/// out of it. The borrow checker keeps a lent payload from outliving the
/// next read, so the buffer is always reused in place.
pub struct BufferedParser<S> {
    buffer: Vec<u8>,
    source: S,
}

impl<S: ByteSource> BufferedParser<S> {
    /// The byte source in its current state.
    pub closed spec fn source_state(&self) -> S {
        self.source
    }

    /// A parser over `source`, with an empty buffer.
    pub fn new(source: S) -> (r: Self)
        ensures
            r.source_state() == source,
    {
        BufferedParser { buffer: Vec::new(), source }
    }

    /// Reads the next record and lends its payload, or returns `None` when the
    /// stream ended at a record boundary.
    pub fn next(&mut self) -> (r: Result<Option<&[u8]>, ParseError>)
        ensures
            final(self).source_state().reliable() == old(self).source_state().reliable(),
            pull_outcome(
                old(self).source_state().remaining(),
                old(self).source_state().reliable(),
                lent_outcome(r),
                final(self).source_state().remaining(),
            ),
    {
        let r = read_record(&mut self.source, &mut self.buffer);
        match r {
            Ok(Some(length)) => {
                let all: &[u8] = self.buffer.as_slice();
                Ok(Some(&all[1..1 + length]))
            },
            Ok(None) => Ok(None),
            Err(e) => Err(e),
        }
    }
}

} // verus!
