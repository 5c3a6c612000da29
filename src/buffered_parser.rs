use std::rc::Rc;
use vstd::prelude::*;

use crate::framing::{collect_outcome, lemma_pull_record, pull_outcome, read_record, records, well_framed, ParseError};
use crate::allocating_parser::owned_all_outcome;
use crate::source::ByteSource;

verus! {

/// A read-only view of one record's payload. It shares the buffer that the
/// record was read into; while any view of a buffer is alive, the parser
/// never writes to that buffer again.
pub struct Entry {
    buffer: Rc<Vec<u8>>,
    offset: usize,
    length: usize,
}

impl View for Entry {
    type V = Seq<u8>;

    closed spec fn view(&self) -> Seq<u8> {
        self.buffer@.subrange(self.offset as int, self.offset + self.length)
    }
}

impl Entry {
    #[verifier::type_invariant]
    spec fn within_buffer(&self) -> bool {
        self.offset + self.length <= self.buffer@.len()
    }

    /// The payload bytes.
    pub fn as_slice(&self) -> (r: &[u8])
        ensures
            r@ == self@,
    {
        proof {
            use_type_invariant(self);
        }
        let all: &[u8] = self.buffer.as_slice();
        assert(self.offset + self.length <= all.len());
        &all[self.offset..self.offset + self.length]
    }

    /// The number of payload bytes.
    pub fn len(&self) -> (r: usize)
        ensures
            r == self@.len(),
    {
        proof {
            use_type_invariant(self);
        }
        self.length
    }

    /// Whether the payload is empty.
    pub fn is_empty(&self) -> (r: bool)
        ensures
            r == (self@.len() == 0),
    {
        self.len() == 0
    }

    /// A copy of the payload bytes in a buffer of their own.
    pub fn to_vec(&self) -> (r: Vec<u8>)
        ensures
            r@ == self@,
    {
        let s = self.as_slice();
        let mut v: Vec<u8> = Vec::with_capacity(s.len());
        let mut i: usize = 0;
        while i < s.len()
            invariant
                i <= s@.len(),
                v@ == s@.take(i as int),
            decreases s@.len() - i,
        {
            v.push(s[i]);
            i = i + 1;
            assert(v@ =~= s@.take(i as int));
        }
        assert(v@ =~= s@);
        v
    }
}

impl Clone for Entry {
    /// Another view of the same bytes; the bytes are shared, not copied.
    fn clone(&self) -> (r: Self)
        ensures
            r@ == self@,
    {
        proof {
            use_type_invariant(self);
        }
        Entry { buffer: Rc::clone(&self.buffer), offset: self.offset, length: self.length }
    }
}

/// The outcome of a pull, each record seen as its payload bytes.
pub open spec fn entry_outcome(r: Result<Option<Entry>, ParseError>) -> Result<Option<Seq<u8>>, ParseError> {
    match r {
        Ok(Some(e)) => Ok(Some(e@)),
        Ok(None) => Ok(None),
        Err(e) => Err(e),
    }
}

/// The payloads that a sequence of views shows, in order.
pub open spec fn entry_views(v: Seq<Entry>) -> Seq<Seq<u8>> {
    v.map_values(|e: Entry| e@)
}

/// A whole-stream outcome, each record seen as its payload bytes.
pub open spec fn entries_outcome(r: Result<Vec<Entry>, ParseError>) -> Result<Seq<Seq<u8>>, ParseError> {
    match r {
        Ok(v) => Ok(entry_views(v@)),
        Err(e) => Err(e),
    }
}

impl PartialEq for Entry {
    /// Two views are equal when they show the same bytes.
    fn eq(&self, other: &Entry) -> (r: bool)
        ensures
            r == (self@ == other@),
    {
        let a = self.as_slice();
        let b = other.as_slice();
        if a.len() != b.len() {
            return false;
        }
        let mut i: usize = 0;
        while i < a.len()
            invariant
                a@ == self@,
                b@ == other@,
                a@.len() == b@.len(),
                i <= a@.len(),
                a@.take(i as int) == b@.take(i as int),
            decreases a@.len() - i,
        {
            if a[i] != b[i] {
                assert(a@[i as int] != b@[i as int]);
                return false;
            }
            assert(a@.take(i + 1) =~= a@.take(i as int).push(a@[i as int]));
            assert(b@.take(i + 1) =~= b@.take(i as int).push(b@[i as int]));
            i = i + 1;
        }
        assert(a@ =~= a@.take(a@.len() as int));
        assert(b@ =~= b@.take(b@.len() as int));
        true
    }
}

impl vstd::std_specs::cmp::PartialEqSpecImpl for Entry {
    open spec fn obeys_eq_spec() -> bool {
        true
    }

    open spec fn eq_spec(&self, other: &Entry) -> bool {
        self@ == other@
    }
}

/// A parser that reads every record into one buffer, which it reuses as long
/// as no view of an earlier record is alive; otherwise it starts a fresh
/// buffer and leaves the old one to the views that still hold it.
pub struct BufferedParser<S> {
    buffer: Option<Rc<Vec<u8>>>,
    source: S,
}

impl<S: ByteSource> BufferedParser<S> {
    /// The byte source in its current state.
    pub closed spec fn source_state(&self) -> S {
        self.source
    }

    /// A parser over `source`, with no buffer yet.
    pub fn new(source: S) -> (r: Self)
        ensures
            r.source_state() == source,
    {
        BufferedParser { buffer: None, source }
    }

    /// Reads the next record and returns a view of its payload, or `None`
    /// when the stream ended at a record boundary.
    pub fn next(&mut self) -> (r: Result<Option<Entry>, ParseError>)
        ensures
            final(self).source_state().reliable() == old(self).source_state().reliable(),
            pull_outcome(
                old(self).source_state().remaining(),
                old(self).source_state().reliable(),
                entry_outcome(r),
                final(self).source_state().remaining(),
            ),
    {
        // The buffer is written in place only when this parser holds the one
        // reference to it, that is, when no view of it is alive.
        let mut buffer: Vec<u8> = match self.buffer.take() {
            Some(shared) => match Rc::try_unwrap(shared) {
                Ok(owned) => owned,
                Err(_still_viewed) => Vec::new(),
            },
            None => Vec::new(),
        };
        let r = read_record(&mut self.source, &mut buffer);
        let shared = Rc::new(buffer);
        let out = match r {
            Ok(Some(length)) => {
                let e = Entry { buffer: Rc::clone(&shared), offset: 1, length };
                Ok(Some(e))
            },
            Ok(None) => Ok(None),
            Err(e) => Err(e),
        };
        self.buffer = Some(shared);
        out
    }

    /// Reads every remaining record and keeps a view of each. The views stay
    /// valid and unchanged while the later records are read.
    pub fn collect(&mut self) -> (r: Result<Vec<Entry>, ParseError>)
        ensures
            final(self).source_state().reliable() == old(self).source_state().reliable(),
            collect_outcome(
                old(self).source_state().remaining(),
                old(self).source_state().reliable(),
                entries_outcome(r),
            ),
    {
        let ghost rem = self.source_state().remaining();
        let ghost reliable = self.source_state().reliable();
        let mut out: Vec<Entry> = Vec::new();
        loop
            invariant
                rem == old(self).source_state().remaining(),
                reliable == old(self).source_state().reliable(),
                self.source_state().reliable() == reliable,
                records(rem) == entry_views(out@).add(records(self.source_state().remaining())),
                well_framed(rem) == well_framed(self.source_state().remaining()),
            decreases self.source_state().remaining().len(),
        {
            let ghost cur = self.source_state().remaining();
            match self.next() {
                Ok(Some(e)) => {
                    proof {
                        lemma_pull_record(cur, e@, self.source_state().remaining(), entry_views(out@));
                    }
                    let ghost before = out@;
                    out.push(e);
                    assert(entry_views(out@) =~= entry_views(before).push(e@));
                },
                Ok(None) => {
                    assert(entry_views(out@) =~= records(rem));
                    return Ok(out);
                },
                Err(e) => {
                    assert(e == ParseError::TruncatedRecord ==> !well_framed(cur));
                    return Err(e);
                },
            }
        }
    }
}

/// On the same reliable stream, the allocating parser and the buffered parser
/// read the same sequence of payloads, or fail in the same way.
pub proof fn lemma_parsers_agree(
    rem: Seq<u8>,
    owned: Result<Vec<Vec<u8>>, ParseError>,
    viewed: Result<Vec<Entry>, ParseError>,
)
    requires
        collect_outcome(rem, true, owned_all_outcome(owned)),
        collect_outcome(rem, true, entries_outcome(viewed)),
    ensures
        owned_all_outcome(owned) == entries_outcome(viewed),
{
}

} // verus!
