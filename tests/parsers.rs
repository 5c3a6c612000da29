use buffered_iterator::allocating_parser::AllocatingParser;
use buffered_iterator::buffered_parser::{BufferedParser, Entry};
use buffered_iterator::buffered_parser_ref::BufferedParser as LendingParser;
use buffered_iterator::framing::{encode_records, read_record, ParseError};
use buffered_iterator::source::{ByteSource, ReadError, SliceSource};

const SAMPLE: [u8; 8] = [1, 5, 0, 4, 3, 4, 5, 6];

fn buffered_all(bytes: &[u8]) -> Result<Vec<Vec<u8>>, ParseError> {
    let mut parser = BufferedParser::new(SliceSource::from_slice(bytes));
    parser
        .collect()
        .map(|entries| entries.iter().map(|e| e.to_vec()).collect())
}

fn allocating_all(bytes: &[u8]) -> Result<Vec<Vec<u8>>, ParseError> {
    let mut parser = AllocatingParser::new(SliceSource::from_slice(bytes));
    parser.collect()
}

fn lending_all(bytes: &[u8]) -> Result<Vec<Vec<u8>>, ParseError> {
    let mut parser = LendingParser::new(SliceSource::from_slice(bytes));
    let mut out = Vec::new();
    loop {
        match parser.next()? {
            Some(payload) => out.push(payload.to_vec()),
            None => return Ok(out),
        }
    }
}

#[test]
fn sample_stream_buffered() {
    let mut parser = BufferedParser::new(SliceSource::from_slice(&SAMPLE));
    let first = parser.next().unwrap().unwrap();
    assert_eq!(first.as_slice(), &[5u8][..]);
    let second = parser.next().unwrap().unwrap();
    assert!(second.is_empty());
    let third = parser.next().unwrap().unwrap();
    assert_eq!(third.as_slice(), &[3u8, 4, 5, 6][..]);
    assert_eq!(third.len(), 4);
    assert!(parser.next().unwrap().is_none());
}

#[test]
fn sample_stream_allocating() {
    let mut parser = AllocatingParser::new(SliceSource::from_slice(&SAMPLE));
    assert_eq!(parser.next(), Ok(Some(vec![5u8])));
    assert_eq!(parser.next(), Ok(Some(vec![])));
    assert_eq!(parser.next(), Ok(Some(vec![3u8, 4, 5, 6])));
    assert_eq!(parser.next(), Ok(None));
}

#[test]
fn sample_stream_lending() {
    let mut parser = LendingParser::new(SliceSource::from_slice(&SAMPLE));
    assert_eq!(parser.next(), Ok(Some(&[5u8][..])));
    assert_eq!(parser.next(), Ok(Some(&[][..])));
    assert_eq!(parser.next(), Ok(Some(&[3u8, 4, 5, 6][..])));
    assert_eq!(parser.next(), Ok(None));
}

#[test]
fn zero_length_record_is_empty_not_error() {
    let bytes = [0u8, 2, 7, 8, 0];
    let expected: Vec<Vec<u8>> = vec![vec![], vec![7, 8], vec![]];
    assert_eq!(buffered_all(&bytes), Ok(expected.clone()));
    assert_eq!(allocating_all(&bytes), Ok(expected.clone()));
    assert_eq!(lending_all(&bytes), Ok(expected));
}

#[test]
fn empty_stream_is_exhausted_at_once() {
    let mut buffered = BufferedParser::new(SliceSource::new(Vec::new()));
    assert!(buffered.next().unwrap().is_none());
    let mut allocating = AllocatingParser::new(SliceSource::new(Vec::new()));
    assert_eq!(allocating.next(), Ok(None));
    let mut lending = LendingParser::new(SliceSource::new(Vec::new()));
    assert_eq!(lending.next(), Ok(None));
    assert_eq!(buffered_all(&[]), Ok(vec![]));
}

#[test]
fn truncated_payload_is_fatal() {
    let bytes = [5u8, 1, 2, 3];
    let mut buffered = BufferedParser::new(SliceSource::from_slice(&bytes));
    assert!(matches!(buffered.next(), Err(ParseError::TruncatedRecord)));
    let mut allocating = AllocatingParser::new(SliceSource::from_slice(&bytes));
    assert_eq!(allocating.next(), Err(ParseError::TruncatedRecord));
    let mut lending = LendingParser::new(SliceSource::from_slice(&bytes));
    assert_eq!(lending.next(), Err(ParseError::TruncatedRecord));
}

#[test]
fn truncation_after_complete_records_fails_the_whole_read() {
    let bytes = [1u8, 9, 3, 1];
    assert_eq!(buffered_all(&bytes), Err(ParseError::TruncatedRecord));
    assert_eq!(allocating_all(&bytes), Err(ParseError::TruncatedRecord));
    assert_eq!(lending_all(&bytes), Err(ParseError::TruncatedRecord));
}

#[test]
fn missing_payload_after_length_byte_is_truncation() {
    let bytes = [3u8];
    assert_eq!(buffered_all(&bytes), Err(ParseError::TruncatedRecord));
    assert_eq!(allocating_all(&bytes), Err(ParseError::TruncatedRecord));
}

#[test]
fn retained_view_survives_later_records() {
    let bytes = [3u8, 1, 2, 3, 3, 7, 8, 9, 1, 4];
    let mut parser = BufferedParser::new(SliceSource::from_slice(&bytes));
    let kept = parser.next().unwrap().unwrap();
    let second = parser.next().unwrap().unwrap();
    assert_eq!(second.as_slice(), &[7u8, 8, 9][..]);
    drop(second);
    let third = parser.next().unwrap().unwrap();
    assert_eq!(third.as_slice(), &[4u8][..]);
    assert_eq!(kept.as_slice(), &[1u8, 2, 3][..]);
    assert_eq!(kept.to_vec(), vec![1u8, 2, 3]);
}

#[test]
fn collected_views_all_keep_their_records() {
    let bytes = [2u8, 10, 11, 2, 20, 21, 2, 30, 31];
    let mut parser = BufferedParser::new(SliceSource::from_slice(&bytes));
    let entries = parser.collect().unwrap();
    let seen: Vec<Vec<u8>> = entries.iter().map(|e| e.to_vec()).collect();
    assert_eq!(seen, vec![vec![10u8, 11], vec![20, 21], vec![30, 31]]);
}

#[test]
fn dropped_views_let_the_buffer_be_reused() {
    let bytes = [2u8, 1, 2, 1, 3, 4, 4, 5, 6, 7];
    let mut parser = BufferedParser::new(SliceSource::from_slice(&bytes));
    let mut seen = Vec::new();
    while let Some(entry) = parser.next().unwrap() {
        seen.push(entry.to_vec());
    }
    assert_eq!(seen, vec![vec![1u8, 2], vec![3], vec![4, 5, 6, 7]]);
}

#[test]
fn entry_clone_and_equality_follow_the_bytes() {
    let bytes = [2u8, 1, 2, 2, 1, 2, 1, 1];
    let mut parser = BufferedParser::new(SliceSource::from_slice(&bytes));
    let a = parser.next().unwrap().unwrap();
    let b = parser.next().unwrap().unwrap();
    let c = parser.next().unwrap().unwrap();
    let a2: Entry = a.clone();
    assert!(a == b);
    assert!(a2 == a);
    assert!(a != c);
    assert_eq!(a2.as_slice(), &[1u8, 2][..]);
}

#[test]
fn largest_record_is_read_whole() {
    let payload: Vec<u8> = (0..255u32).map(|i| i as u8).collect();
    let mut bytes = vec![255u8];
    bytes.extend_from_slice(&payload);
    bytes.push(1);
    bytes.push(42);
    let expected = vec![payload.clone(), vec![42u8]];
    assert_eq!(buffered_all(&bytes), Ok(expected.clone()));
    assert_eq!(allocating_all(&bytes), Ok(expected.clone()));
    assert_eq!(lending_all(&bytes), Ok(expected));
}

#[test]
fn encode_then_parse_round_trips() {
    let payloads: Vec<Vec<u8>> = vec![
        vec![],
        vec![1, 2, 3],
        (0..255u32).map(|i| (i * 7) as u8).collect(),
        vec![0],
        vec![],
    ];
    let bytes = encode_records(&payloads);
    assert_eq!(bytes.len(), 5 + 3 + 255 + 1);
    assert_eq!(&bytes[..5], &[0u8, 3, 1, 2, 3][..]);
    assert_eq!(buffered_all(&bytes), Ok(payloads.clone()));
    assert_eq!(allocating_all(&bytes), Ok(payloads.clone()));
    assert_eq!(lending_all(&bytes), Ok(payloads));
}

#[test]
fn encode_writes_length_prefixes() {
    let payloads: Vec<Vec<u8>> = vec![vec![5], vec![], vec![3, 4, 5, 6]];
    assert_eq!(encode_records(&payloads), SAMPLE.to_vec());
    assert_eq!(encode_records(&Vec::new()), Vec::<u8>::new());
}

#[test]
fn parsers_agree_on_the_same_stream() {
    let streams: Vec<Vec<u8>> = vec![
        SAMPLE.to_vec(),
        vec![],
        vec![0, 0, 0],
        vec![2, 1, 1, 4, 9],
        vec![1, 200, 3, 50, 60, 70, 0],
    ];
    for s in &streams {
        assert_eq!(allocating_all(s), buffered_all(s));
        assert_eq!(allocating_all(s), lending_all(s));
    }
}

#[test]
fn read_record_places_payload_after_length_byte() {
    let mut source = SliceSource::from_slice(&[2u8, 8, 9, 1, 5]);
    let mut buffer: Vec<u8> = vec![0; 6];
    assert_eq!(read_record(&mut source, &mut buffer), Ok(Some(2)));
    assert_eq!(&buffer[..3], &[2u8, 8, 9][..]);
    assert_eq!(buffer.len(), 6);
    assert_eq!(read_record(&mut source, &mut buffer), Ok(Some(1)));
    assert_eq!(&buffer[..2], &[1u8, 5][..]);
    assert_eq!(read_record(&mut source, &mut buffer), Ok(None));
}

#[test]
fn read_record_grows_an_empty_buffer() {
    let mut source = SliceSource::from_slice(&[3u8, 1, 2, 3]);
    let mut buffer: Vec<u8> = Vec::new();
    assert_eq!(read_record(&mut source, &mut buffer), Ok(Some(3)));
    assert_eq!(&buffer[..4], &[3u8, 1, 2, 3][..]);
}

#[test]
fn slice_source_reports_each_way_of_failing() {
    let mut source = SliceSource::from_slice(&[1u8, 2, 3]);
    assert_eq!(source.available(), 3);
    let mut buf = vec![0u8; 5];
    assert_eq!(source.read_exact(&mut buf, 1, 2), Ok(()));
    assert_eq!(buf, vec![0u8, 1, 2, 0, 0]);
    assert_eq!(source.read_exact(&mut buf, 0, 4), Err(ReadError::Truncated));
    assert_eq!(source.read_exact(&mut buf, 4, 1), Ok(()));
    assert_eq!(buf[4], 3);
    assert_eq!(source.available(), 0);
    assert_eq!(source.read_exact(&mut buf, 0, 1), Err(ReadError::EndOfStream));
    assert_eq!(source.read_exact(&mut buf, 0, 0), Ok(()));
}
