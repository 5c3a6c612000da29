use vstd::prelude::*;

use crate::source::{ByteSource, ReadError};

verus! {

/// Why a stream could not be parsed to its end.
#[derive(Debug, Clone, Copy, PartialEq, Eq, Structural)]
pub enum ParseError {
    /// A length byte was read but fewer payload bytes than it declares followed.
    TruncatedRecord,
    /// The byte source reported a transport failure.
    IoFailure,
}

/// The payload length that the first byte of `s` declares.
pub open spec fn declared_len(s: Seq<u8>) -> int
    recommends
        s.len() > 0,
{
    s[0] as int
}

/// `s` starts with a length byte but ends before the payload it declares.
pub open spec fn starts_truncated(s: Seq<u8>) -> bool {
    s.len() > 0 && s.len() < 1 + declared_len(s)
}

/// `s` starts with one complete record.
pub open spec fn starts_with_record(s: Seq<u8>) -> bool {
    s.len() > 0 && 1 + declared_len(s) <= s.len()
}

/// The payload of the record at the front of `s`.
pub open spec fn first_payload(s: Seq<u8>) -> Seq<u8> {
    s.subrange(1, 1 + declared_len(s))
}

/// What follows the record at the front of `s`.
pub open spec fn after_first(s: Seq<u8>) -> Seq<u8> {
    s.subrange(1 + declared_len(s), s.len() as int)
}

/// The payloads of the complete records at the front of `s`, in order.
pub open spec fn records(s: Seq<u8>) -> Seq<Seq<u8>>
    decreases s.len(),
{
    if starts_with_record(s) {
        seq![first_payload(s)].add(records(after_first(s)))
    } else {
        Seq::empty()
    }
}

/// `s` is a concatenation of complete records, with nothing left over.
pub open spec fn well_framed(s: Seq<u8>) -> bool
    decreases s.len(),
{
    if s.len() == 0 {
        true
    } else if starts_with_record(s) {
        well_framed(after_first(s))
    } else {
        false
    }
}

/// The wire form of one record: its length byte, then its payload.
pub open spec fn encode_one(p: Seq<u8>) -> Seq<u8> {
    seq![p.len() as u8].add(p)
}

/// The wire form of a sequence of records.
pub open spec fn encode(ps: Seq<Seq<u8>>) -> Seq<u8>
    decreases ps.len(),
{
    if ps.len() == 0 {
        Seq::empty()
    } else {
        encode_one(ps[0]).add(encode(ps.drop_first()))
    }
}

/// Every payload fits the single length byte.
pub open spec fn all_encodable(ps: Seq<Seq<u8>>) -> bool {
    forall|i: int| 0 <= i < ps.len() ==> #[trigger] ps[i].len() <= 255
}

/// Encoding payloads of at most 255 bytes each and parsing the result gives
/// back exactly those payloads, in order, with no bytes left over.
pub proof fn lemma_round_trip(ps: Seq<Seq<u8>>)
    requires
        all_encodable(ps),
    ensures
        well_framed(encode(ps)),
        records(encode(ps)) == ps,
    decreases ps.len(),
{
    if ps.len() > 0 {
        let rest = ps.drop_first();
        assert(all_encodable(rest)) by {
            assert forall|i: int| 0 <= i < rest.len() implies #[trigger] rest[i].len() <= 255 by {
                assert(rest[i] == ps[i + 1]);
            }
        }
        lemma_round_trip(rest);
        let s = encode(ps);
        let p = ps[0];
        assert(ps[0].len() <= 255);
        assert(s[0] == p.len() as u8);
        assert(declared_len(s) == p.len());
        assert(starts_with_record(s));
        assert(first_payload(s) =~= p);
        assert(after_first(s) =~= encode(rest));
        assert(records(s) =~= ps);
    }
}

/// Encoding a sequence with one more payload appends that payload's wire form.
pub proof fn lemma_encode_push(ps: Seq<Seq<u8>>, p: Seq<u8>)
    ensures
        encode(ps.push(p)) == encode(ps).add(encode_one(p)),
    decreases ps.len(),
{
    if ps.len() == 0 {
        let one = ps.push(p);
        assert(one.drop_first() =~= Seq::<Seq<u8>>::empty());
        assert(one[0] == p);
        assert(encode(one) == encode_one(p).add(encode(one.drop_first())));
        assert(encode(ps.push(p)) =~= encode(ps).add(encode_one(p)));
    } else {
        let rest = ps.drop_first();
        lemma_encode_push(rest, p);
        assert(ps.push(p).drop_first() =~= rest.push(p));
        assert(encode(ps.push(p)) =~= encode(ps).add(encode_one(p)));
    }
}

/// Writes `payloads` in the wire format: each one as its length byte
/// followed by its bytes.
pub fn encode_records(payloads: &Vec<Vec<u8>>) -> (r: Vec<u8>)
    requires
        all_encodable(payloads@.map_values(|p: Vec<u8>| p@)),
    ensures
        r@ == encode(payloads@.map_values(|p: Vec<u8>| p@)),
{
    let ghost ps = payloads@.map_values(|p: Vec<u8>| p@);
    let mut out: Vec<u8> = Vec::new();
    let mut i: usize = 0;
    while i < payloads.len()
        invariant
            ps == payloads@.map_values(|p: Vec<u8>| p@),
            all_encodable(ps),
            i <= payloads@.len(),
            out@ == encode(ps.take(i as int)),
        decreases payloads@.len() - i,
    {
        let p: &Vec<u8> = &payloads[i];
        assert(ps[i as int] == p@);
        assert(p@.len() <= 255);
        let ghost before = out@;
        out.push(p.len() as u8);
        let mut j: usize = 0;
        while j < p.len()
            invariant
                j <= p@.len(),
                p@.len() <= 255,
                out@ == before.add(seq![p@.len() as u8]).add(p@.take(j as int)),
            decreases p@.len() - j,
        {
            out.push(p[j]);
            j = j + 1;
            assert(out@ =~= before.add(seq![p@.len() as u8]).add(p@.take(j as int)));
        }
        proof {
            lemma_encode_push(ps.take(i as int), p@);
            assert(ps.take(i + 1) =~= ps.take(i as int).push(p@));
            assert(out@ =~= before.add(encode_one(p@)));
        }
        i = i + 1;
    }
    assert(ps.take(i as int) =~= ps);
    out
}

/// What one pull from a parser may give, for a stream whose unread bytes were
/// `rem` and are `rest` afterwards, the record being seen as its bytes:
/// exhaustion only on an empty stream, a record only when a complete one is
/// at the front, truncation only when the front record is cut short, and a
/// transport failure only from an unreliable source.
pub open spec fn pull_outcome(
    rem: Seq<u8>,
    reliable: bool,
    r: Result<Option<Seq<u8>>, ParseError>,
    rest: Seq<u8>,
) -> bool {
    &&& match r {
        Ok(None) => rem.len() == 0 && rest.len() == 0,
        Ok(Some(p)) => starts_with_record(rem) && p == first_payload(rem) && rest == after_first(rem),
        Err(ParseError::TruncatedRecord) => starts_truncated(rem),
        Err(ParseError::IoFailure) => !reliable,
    }
    &&& reliable ==> r != Err::<Option<Seq<u8>>, ParseError>(ParseError::IoFailure)
}

/// What reading a whole stream may give, for a stream whose unread bytes
/// were `rem`, the records being seen as their bytes: every record in order
/// exactly when the stream is well framed, truncation exactly when it is not,
/// and a transport failure only from an unreliable source.
pub open spec fn collect_outcome(rem: Seq<u8>, reliable: bool, r: Result<Seq<Seq<u8>>, ParseError>) -> bool {
    &&& match r {
        Ok(ps) => well_framed(rem) && ps == records(rem),
        Err(ParseError::TruncatedRecord) => !well_framed(rem),
        Err(ParseError::IoFailure) => !reliable,
    }
    &&& reliable ==> r != Err::<Seq<Seq<u8>>, ParseError>(ParseError::IoFailure)
}

/// One pull that gave a record moves that record from the unread stream to
/// the records read so far, and leaves the stream as well framed as before.
pub proof fn lemma_pull_record(rem: Seq<u8>, p: Seq<u8>, rest: Seq<u8>, done: Seq<Seq<u8>>)
    requires
        starts_with_record(rem),
        p == first_payload(rem),
        rest == after_first(rem),
    ensures
        done.add(records(rem)) == done.push(p).add(records(rest)),
        well_framed(rem) == well_framed(rest),
        rest.len() < rem.len(),
{
    assert(records(rem) == seq![p].add(records(rest)));
    assert(done.add(records(rem)) =~= done.push(p).add(records(rest)));
}

/// From a reliable source, one pull has exactly one possible outcome: any
/// two pulls from the same unread bytes agree on the result and, when it is
/// not an error, on what is left unread.
pub proof fn lemma_pull_determined(
    rem: Seq<u8>,
    r1: Result<Option<Seq<u8>>, ParseError>,
    rest1: Seq<u8>,
    r2: Result<Option<Seq<u8>>, ParseError>,
    rest2: Seq<u8>,
)
    requires
        pull_outcome(rem, true, r1, rest1),
        pull_outcome(rem, true, r2, rest2),
    ensures
        r1 == r2,
        r1 is Ok ==> rest1 == rest2,
{
    if r1 is Ok {
        assert(rest1 =~= rest2);
    }
}

/// Pulling from an empty stream reports exhaustion, not an error.
pub proof fn lemma_empty_stream_ends(r: Result<Option<Seq<u8>>, ParseError>, rest: Seq<u8>)
    requires
        pull_outcome(Seq::empty(), true, r, rest),
    ensures
        r == Ok::<Option<Seq<u8>>, ParseError>(None),
{
}

/// A length byte of zero gives an empty record, and the next record starts
/// at the byte right after it.
pub proof fn lemma_zero_length_record(s: Seq<u8>, r: Result<Option<Seq<u8>>, ParseError>, rest: Seq<u8>)
    requires
        s.len() > 0,
        s[0] == 0,
        pull_outcome(s, true, r, rest),
    ensures
        r == Ok::<Option<Seq<u8>>, ParseError>(Some(Seq::empty())),
        rest == s.skip(1),
{
    assert(first_payload(s) =~= Seq::<u8>::empty());
    assert(after_first(s) =~= s.skip(1));
}

/// A length byte followed by fewer payload bytes than it declares fails the
/// pull as a truncated record.
pub proof fn lemma_truncation_fails(s: Seq<u8>, r: Result<Option<Seq<u8>>, ParseError>, rest: Seq<u8>)
    requires
        s.len() > 0,
        s.len() < 1 + s[0],
        pull_outcome(s, true, r, rest),
    ensures
        r == Err::<Option<Seq<u8>>, ParseError>(ParseError::TruncatedRecord),
{
}

/// Reading a whole reliable stream that holds the encoding of payloads of at
/// most 255 bytes each gives back exactly those payloads, in order.
pub proof fn lemma_collect_round_trip(ps: Seq<Seq<u8>>, r: Result<Seq<Seq<u8>>, ParseError>)
    requires
        all_encodable(ps),
        collect_outcome(encode(ps), true, r),
    ensures
        r == Ok::<Seq<Seq<u8>>, ParseError>(ps),
{
    lemma_round_trip(ps);
}

/// The outcome of a pull that placed the payload in `buf[1..1 + len]`.
pub open spec fn placed_outcome(r: Result<Option<usize>, ParseError>, buf: Seq<u8>) -> Result<Option<Seq<u8>>, ParseError> {
    match r {
        Ok(Some(len)) => Ok(Some(buf.subrange(1, 1 + len))),
        Ok(None) => Ok(None),
        Err(e) => Err(e),
    }
}

/// Reads one record from `source` into `buffer`: the length byte goes to
/// `buffer[0]` and the payload right after it. The buffer grows to fit the
/// record and never shrinks. Returns the payload length, or `None` when the
/// source was exhausted at the record boundary.
pub fn read_record<S: ByteSource>(source: &mut S, buffer: &mut Vec<u8>) -> (r: Result<Option<usize>, ParseError>)
    ensures
        final(buffer).len() >= old(buffer).len(),
        final(source).reliable() == old(source).reliable(),
        pull_outcome(
            old(source).remaining(),
            old(source).reliable(),
            placed_outcome(r, final(buffer)@),
            final(source).remaining(),
        ),
        r matches Ok(Some(len)) ==> 1 + len <= final(buffer).len() && len <= 255,
{
    let ghost rem = source.remaining();
    if buffer.len() < 1 {
        buffer.resize(1, 0);
    }
    match source.read_exact(buffer, 0, 1) {
        Ok(()) => {},
        Err(ReadError::EndOfStream) => {
            return Ok(None);
        },
        Err(ReadError::Truncated) => {
            return Err(ParseError::TruncatedRecord);
        },
        Err(ReadError::Io) => {
            return Err(ParseError::IoFailure);
        },
    }
    let len = buffer[0] as usize;
    assert(buffer@[0] == rem[0]);
    if buffer.len() < 1 + len {
        buffer.resize(1 + len, 0);
    }
    let ghost mid = source.remaining();
    let ghost filled = buffer@;
    assert(mid =~= rem.skip(1));
    match source.read_exact(buffer, 1, len) {
        Ok(()) => {},
        Err(ReadError::Io) => {
            return Err(ParseError::IoFailure);
        },
        Err(_) => {
            return Err(ParseError::TruncatedRecord);
        },
    }
    assert(buffer@.subrange(1, 1 + len as int) =~= first_payload(rem));
    assert(source.remaining() =~= after_first(rem));
    Ok(Some(len))
}

} // verus!
