use vstd::prelude::*;

use crate::framing::{
    after_first, collect_outcome, first_payload, lemma_pull_record, pull_outcome, records,
    well_framed, ParseError,
};
use crate::source::{ByteSource, ReadError};

verus! {

/// The outcome of a pull, each record seen as its bytes.
pub open spec fn owned_outcome(r: Result<Option<Vec<u8>>, ParseError>) -> Result<Option<Seq<u8>>, ParseError> {
    match r {
        Ok(Some(v)) => Ok(Some(v@)),
        Ok(None) => Ok(None),
        Err(e) => Err(e),
    }
}

/// The payloads held by a sequence of buffers, in order.
pub open spec fn owned_views(v: Seq<Vec<u8>>) -> Seq<Seq<u8>> {
    v.map_values(|b: Vec<u8>| b@)
}

/// A whole-stream outcome, each record seen as its bytes.
pub open spec fn owned_all_outcome(r: Result<Vec<Vec<u8>>, ParseError>) -> Result<Seq<Seq<u8>>, ParseError> {
    match r {
        Ok(v) => Ok(owned_views(v@)),
        Err(e) => Err(e),
    }
}

/// A parser that gives every record in a buffer of its own, allocated for it.
pub struct AllocatingParser<S> {
    source: S,
}

impl<S: ByteSource> AllocatingParser<S> {
    /// The byte source in its current state.
    pub closed spec fn source_state(&self) -> S {
        self.source
    }

    /// A parser over `source`.
    pub fn new(source: S) -> (r: Self)
        ensures
            r.source_state() == source,
    {
        AllocatingParser { source }
    }

    /// Reads the next record into a new buffer of exactly its length, or
    /// returns `None` when the stream ended at a record boundary.
    pub fn next(&mut self) -> (r: Result<Option<Vec<u8>>, ParseError>)
        ensures
            final(self).source_state().reliable() == old(self).source_state().reliable(),
            pull_outcome(
                old(self).source_state().remaining(),
                old(self).source_state().reliable(),
                owned_outcome(r),
                final(self).source_state().remaining(),
            ),
    {
        let ghost rem = self.source.remaining();
        let mut head: Vec<u8> = Vec::new();
        head.push(0);
        match self.source.read_exact(&mut head, 0, 1) {
            Ok(()) => {},
            Err(ReadError::EndOfStream) => {
                return Ok(None);
            },
            Err(ReadError::Truncated) => {
                return Err(ParseError::TruncatedRecord);
            },
            Err(ReadError::Io) => {
                return Err(ParseError::IoFailure);
            },
        }
        let length = head[0] as usize;
        assert(head@[0] == rem[0]);
        let mut payload: Vec<u8> = Vec::with_capacity(length);
        payload.resize(length, 0);
        let ghost mid = self.source.remaining();
        assert(mid =~= rem.skip(1));
        match self.source.read_exact(&mut payload, 0, length) {
            Ok(()) => {},
            Err(ReadError::Io) => {
                return Err(ParseError::IoFailure);
            },
            Err(_) => {
                return Err(ParseError::TruncatedRecord);
            },
        }
        assert(payload@ =~= first_payload(rem));
        assert(self.source.remaining() =~= after_first(rem));
        Ok(Some(payload))
    }

    /// Reads every remaining record, each into a buffer of its own.
    pub fn collect(&mut self) -> (r: Result<Vec<Vec<u8>>, ParseError>)
        ensures
            final(self).source_state().reliable() == old(self).source_state().reliable(),
            collect_outcome(
                old(self).source_state().remaining(),
                old(self).source_state().reliable(),
                owned_all_outcome(r),
            ),
    {
        let ghost rem = self.source_state().remaining();
        let ghost reliable = self.source_state().reliable();
        let mut out: Vec<Vec<u8>> = Vec::new();
        loop
            invariant
                rem == old(self).source_state().remaining(),
                reliable == old(self).source_state().reliable(),
                self.source_state().reliable() == reliable,
                records(rem) == owned_views(out@).add(records(self.source_state().remaining())),
                well_framed(rem) == well_framed(self.source_state().remaining()),
            decreases self.source_state().remaining().len(),
        {
            let ghost cur = self.source_state().remaining();
            match self.next() {
                Ok(Some(payload)) => {
                    proof {
                        lemma_pull_record(cur, payload@, self.source_state().remaining(), owned_views(out@));
                    }
                    let ghost before = out@;
                    let ghost p = payload@;
                    out.push(payload);
                    assert(owned_views(out@) =~= owned_views(before).push(p));
                },
                Ok(None) => {
                    assert(owned_views(out@) =~= records(rem));
                    return Ok(out);
                },
                Err(e) => {
                    assert(e == ParseError::TruncatedRecord ==> !well_framed(cur));
                    return Err(e);
                },
            }
        }
    }
}

} // verus!
