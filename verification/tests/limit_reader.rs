use static_fs::io::{deliver, limit_bytes, LimitReader};
use std::io::Cursor;
use std::io::Read;

#[test]
fn test_limit_reader() {
    let data = vec![0, 1, 2, 3, 4, 5, 6, 7, 8, 9];
    let cursor = Cursor::new(data);

    let mut limit_reader = LimitReader::new(cursor, 6);

    {
        let buffer = &mut [0u8; 4];
        limit_reader.read(buffer).unwrap();
        assert_eq!(buffer, &[0, 1, 2, 3]);
    }

    {
        let buffer = &mut [0u8; 4];
        limit_reader.read(buffer).unwrap();
        assert_eq!(buffer, &[4, 5, 0, 0]);
    }
}

#[test]
fn limit_reader_reports_the_counts_it_delivers() {
    let mut reader = LimitReader::new(Cursor::new(vec![7u8; 10]), 6);
    let mut buffer = [0u8; 4];
    assert_eq!(reader.read(&mut buffer).unwrap(), 4);
    assert_eq!(reader.read(&mut buffer).unwrap(), 2);
}

#[test]
fn limit_reader_is_at_its_end_once_the_limit_is_reached() {
    let mut reader = LimitReader::new(Cursor::new(vec![1u8, 2, 3, 4, 5]), 3);
    let mut buffer = [9u8; 8];
    assert_eq!(reader.read(&mut buffer).unwrap(), 3);
    assert_eq!(buffer, [1, 2, 3, 9, 9, 9, 9, 9]);
    let mut again = [9u8; 8];
    assert_eq!(reader.read(&mut again).unwrap(), 0);
    assert_eq!(again, [9u8; 8]);
    assert_eq!(reader.read(&mut again).unwrap(), 0);
}

#[test]
fn limit_reader_with_limit_zero_delivers_nothing() {
    let mut reader = LimitReader::new(Cursor::new(vec![1u8, 2, 3]), 0);
    let mut buffer = [5u8; 2];
    assert_eq!(reader.read(&mut buffer).unwrap(), 0);
    assert_eq!(buffer, [5, 5]);
}

#[test]
fn limit_reader_stops_where_the_stream_ends() {
    let mut reader = LimitReader::new(Cursor::new(vec![1u8, 2]), 100);
    let mut out = Vec::new();
    reader.read_to_end(&mut out).unwrap();
    assert_eq!(out, vec![1, 2]);
}

#[test]
fn limit_reader_gives_the_stream_back_where_it_stopped() {
    let mut reader = LimitReader::new(Cursor::new(vec![1u8, 2, 3, 4, 5]), 2);
    let mut out = Vec::new();
    reader.read_to_end(&mut out).unwrap();
    assert_eq!(out, vec![1, 2]);
    let mut rest = Vec::new();
    reader.into_inner().read_to_end(&mut rest).unwrap();
    assert_eq!(rest, vec![3, 4, 5]);
}

#[test]
fn limit_reader_takes_an_empty_buffer() {
    let mut reader = LimitReader::new(Cursor::new(vec![1u8, 2, 3]), 2);
    let mut nothing: [u8; 0] = [];
    assert_eq!(reader.read(&mut nothing).unwrap(), 0);
    let mut one = [0u8; 1];
    assert_eq!(reader.read(&mut one).unwrap(), 1);
    assert_eq!(one, [1]);
}

#[test]
fn limit_bytes_cuts_at_the_limit() {
    assert_eq!(limit_bytes(vec![1, 2, 3, 4], 2), vec![1, 2]);
    assert_eq!(limit_bytes(vec![1, 2, 3, 4], 4), vec![1, 2, 3, 4]);
    assert_eq!(limit_bytes(vec![1, 2, 3, 4], 9), vec![1, 2, 3, 4]);
    assert_eq!(limit_bytes(vec![1, 2, 3, 4], 0), Vec::<u8>::new());
    assert_eq!(limit_bytes(vec![1, 2], u64::MAX), vec![1, 2]);
}

#[test]
fn chunk_is_put_at_the_start_of_the_buffer() {
    let mut buffer = [9u8; 5];
    deliver(&mut buffer, &vec![1, 2, 3]);
    assert_eq!(buffer, [1, 2, 3, 9, 9]);
    deliver(&mut buffer, &vec![]);
    assert_eq!(buffer, [1, 2, 3, 9, 9]);
    deliver(&mut buffer, &vec![5, 6, 7, 8, 9]);
    assert_eq!(buffer, [5, 6, 7, 8, 9]);
    deliver(&mut buffer, &vec![0, 1, 2, 3, 4, 5, 6]);
    assert_eq!(buffer, [0, 1, 2, 3, 4]);
    let mut nothing: [u8; 0] = [];
    deliver(&mut nothing, &vec![1]);
}

/// A stream that claims more bytes than it was given room for.
struct Boaster;

impl Read for Boaster {
    fn read(&mut self, buf: &mut [u8]) -> std::io::Result<usize> {
        for b in buf.iter_mut() {
            *b = 1;
        }
        Ok(buf.len() + 10)
    }
}

/// A stream that always fails.
struct Broken;

impl Read for Broken {
    fn read(&mut self, _buf: &mut [u8]) -> std::io::Result<usize> {
        Err(std::io::Error::new(std::io::ErrorKind::Other, "broken"))
    }
}

#[test]
fn limit_reader_counts_no_more_than_it_had_room_for() {
    let mut reader = LimitReader::new(Boaster, 5);
    let mut buffer = [0u8; 3];
    assert_eq!(reader.read(&mut buffer).unwrap(), 3);
    assert_eq!(reader.read(&mut buffer).unwrap(), 2);
    assert_eq!(reader.read(&mut buffer).unwrap(), 0);
}

#[test]
fn limit_reader_hands_on_the_failure_of_the_stream() {
    let mut reader = LimitReader::new(Broken, 5);
    let mut buffer = [7u8; 3];
    assert!(reader.read(&mut buffer).is_err());
    assert_eq!(buffer, [7, 7, 7]);
}

#[test]
fn limit_reader_at_its_limit_succeeds_whatever_the_stream_does() {
    let mut reader = LimitReader::new(Broken, 0);
    let mut buffer = [7u8; 3];
    assert_eq!(reader.read(&mut buffer).unwrap(), 0);
    assert_eq!(buffer, [7, 7, 7]);

    let mut reader = LimitReader::new(Broken, 5);
    let mut nothing: [u8; 0] = [];
    assert_eq!(reader.read(&mut nothing).unwrap(), 0);
    assert!(reader.read(&mut buffer).is_err());

    let mut reader = LimitReader::new(Boaster, 2);
    assert_eq!(reader.read(&mut buffer).unwrap(), 2);
    assert_eq!(reader.read(&mut buffer).unwrap(), 0);
    assert_eq!(reader.read(&mut buffer).unwrap(), 0);
}

#[test]
fn window_is_as_long_as_the_allowance() {
    let mut reader = LimitReader::new(Cursor::new(vec![0u8, 1, 2, 3, 4, 5, 6, 7, 8, 9]), 6);
    assert_eq!(reader.allowed(4), 4);
    assert_eq!(reader.window(4), vec![0u8; 4]);
    assert_eq!(reader.window(100), vec![0u8; 6]);
    assert_eq!(reader.window(0), Vec::<u8>::new());
    let mut buffer = [0u8; 4];
    reader.read(&mut buffer).unwrap();
    assert_eq!(reader.allowed(4), 2);
    assert_eq!(reader.window(4), vec![0u8; 2]);
    assert_eq!(reader.window(1), vec![0u8; 1]);
    reader.read(&mut buffer).unwrap();
    assert_eq!(reader.allowed(4), 0);
    assert_eq!(reader.window(4), Vec::<u8>::new());
}

#[test]
fn stream_is_asked_for_no_more_than_the_allowance() {
    let mut reader = LimitReader::new(Cursor::new(vec![0u8, 1, 2, 3, 4, 5, 6, 7, 8, 9]), 6);
    let mut buffer = [0u8; 100];
    assert_eq!(reader.read(&mut buffer).unwrap(), 6);
    assert_eq!(&buffer[..8], &[0, 1, 2, 3, 4, 5, 0, 0]);
    let mut rest = Vec::new();
    reader.into_inner().read_to_end(&mut rest).unwrap();
    assert_eq!(rest, vec![6, 7, 8, 9]);
}

#[test]
fn settle_hands_on_what_the_stream_answered() {
    let mut reader = LimitReader::new(Cursor::new(Vec::<u8>::new()), 6);
    let mut buffer = [9u8; 4];
    assert_eq!(reader.settle(&mut buffer, vec![0, 1, 2, 3], Ok(4)).unwrap(), 4);
    assert_eq!(buffer, [0, 1, 2, 3]);
    assert_eq!(reader.allowed(4), 2);

    let mut buffer = [0u8; 4];
    assert_eq!(reader.settle(&mut buffer, vec![4, 5], Ok(2)).unwrap(), 2);
    assert_eq!(buffer, [4, 5, 0, 0]);
    assert_eq!(reader.allowed(4), 0);
}

#[test]
fn settle_counts_no_more_than_the_chunk_holds() {
    let mut reader = LimitReader::new(Cursor::new(Vec::<u8>::new()), 10);
    let mut buffer = [9u8; 4];
    assert_eq!(reader.settle(&mut buffer, vec![1, 2], Ok(7)).unwrap(), 2);
    assert_eq!(buffer, [1, 2, 9, 9]);
    assert_eq!(reader.allowed(100), 8);
    assert_eq!(reader.settle(&mut buffer, vec![3, 4], Ok(0)).unwrap(), 0);
    assert_eq!(buffer, [3, 4, 9, 9]);
    assert_eq!(reader.allowed(100), 8);
}

#[test]
fn settle_keeps_no_more_of_a_chunk_than_the_allowance() {
    let mut reader = LimitReader::new(Cursor::new(Vec::<u8>::new()), 3);
    let mut buffer = [9u8; 5];
    assert_eq!(reader.settle(&mut buffer, vec![1, 2, 3, 4, 5], Ok(5)).unwrap(), 3);
    assert_eq!(buffer, [1, 2, 3, 9, 9]);
    assert_eq!(reader.allowed(5), 0);
    assert_eq!(reader.settle(&mut buffer, vec![7, 7], Ok(2)).unwrap(), 0);
    assert_eq!(buffer, [1, 2, 3, 9, 9]);
}

#[test]
fn settle_hands_on_the_failure_of_the_stream() {
    let mut reader = LimitReader::new(Cursor::new(Vec::<u8>::new()), 6);
    let mut buffer = [9u8; 4];
    let failure = std::io::Error::new(std::io::ErrorKind::TimedOut, "late");
    let handed_on = reader.settle(&mut buffer, vec![1, 2, 3, 4], Err(failure)).unwrap_err();
    assert_eq!(handed_on.kind(), std::io::ErrorKind::TimedOut);
    assert_eq!(handed_on.to_string(), "late");
    assert_eq!(buffer, [9, 9, 9, 9]);
    assert_eq!(reader.allowed(4), 4);
}
