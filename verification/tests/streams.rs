use kvs::index::{Index, Value};
use kvs::utils::{BufReaderWithPos, BufWriterWithPos, SeekFrom, Stream};
use kvs::KvsError;

fn s(text: &str) -> String {
    text.to_string()
}

fn stream(text: &[u8], offset: u64) -> Stream {
    Stream::new(text.to_vec(), offset)
}

#[test]
fn stream_reads_from_its_offset() {
    let mut inner = stream(b"hello world", 6);
    let mut buf = [0u8; 3];
    assert_eq!(inner.read(&mut buf), 3);
    assert_eq!(&buf, b"wor");
    assert_eq!(inner.offset, 9);
    assert_eq!(inner.read(&mut buf), 2);
    assert_eq!(&buf, b"ldr");
    assert_eq!(inner.offset, 11);
    assert_eq!(inner.read(&mut buf), 0);
    assert_eq!(inner.offset, 11);
}

#[test]
fn stream_writes_over_and_past_its_bytes() {
    let mut inner = stream(b"abcdef", 4);
    assert_eq!(inner.write(b"XYZ"), Ok(3));
    assert_eq!(inner.data, b"abcdXYZ".to_vec());
    assert_eq!(inner.offset, 7);
    assert_eq!(inner.seek(SeekFrom::Start(1)), Ok(1));
    assert_eq!(inner.write(b"--"), Ok(2));
    assert_eq!(inner.data, b"a--dXYZ".to_vec());
    assert_eq!(inner.offset, 3);
    assert_eq!(inner.write(b""), Ok(0));
    assert_eq!(inner.data, b"a--dXYZ".to_vec());
}

#[test]
fn stream_fills_a_gap_with_zeros() {
    let mut inner = stream(b"ab", 4);
    assert_eq!(inner.write(b"c"), Ok(1));
    assert_eq!(inner.data, vec![b'a', b'b', 0, 0, b'c']);
    assert_eq!(inner.offset, 5);
}

#[test]
fn stream_refuses_to_outgrow_memory() {
    let mut inner = stream(b"ab", u64::MAX - 1);
    assert_eq!(inner.write(b"cde"), Err(KvsError::Io));
    assert_eq!(inner.data, b"ab".to_vec());
    assert_eq!(inner.offset, u64::MAX - 1);
}

#[test]
fn stream_seeks_from_start_end_and_current() {
    let mut inner = stream(b"0123456789", 0);
    assert_eq!(inner.seek(SeekFrom::Start(4)), Ok(4));
    assert_eq!(inner.seek(SeekFrom::Current(3)), Ok(7));
    assert_eq!(inner.seek(SeekFrom::Current(-7)), Ok(0));
    assert_eq!(inner.seek(SeekFrom::End(0)), Ok(10));
    assert_eq!(inner.seek(SeekFrom::End(-10)), Ok(0));
    assert_eq!(inner.seek(SeekFrom::End(5)), Ok(15));
    assert_eq!(inner.offset, 15);
    assert_eq!(inner.seek(SeekFrom::Start(u64::MAX)), Ok(u64::MAX));
    assert_eq!(inner.seek(SeekFrom::Current(0)), Ok(u64::MAX));
}

#[test]
fn stream_refuses_a_seek_out_of_range() {
    let mut inner = stream(b"0123456789", 3);
    assert_eq!(inner.seek(SeekFrom::Current(-4)), Err(KvsError::Io));
    assert_eq!(inner.offset, 3);
    assert_eq!(inner.seek(SeekFrom::End(-11)), Err(KvsError::Io));
    assert_eq!(inner.seek(SeekFrom::End(i64::MIN)), Err(KvsError::Io));
    assert_eq!(inner.offset, 3);
    assert_eq!(inner.seek(SeekFrom::Start(u64::MAX)), Ok(u64::MAX));
    assert_eq!(inner.seek(SeekFrom::Current(1)), Err(KvsError::Io));
    assert_eq!(inner.offset, u64::MAX);
}

#[test]
fn reader_starts_where_the_stream_stands() {
    let reader = BufReaderWithPos::new(stream(b"hello", 0));
    assert_eq!(reader.pos, 0);
    let mut reader = BufReaderWithPos::new(stream(b"hello", 3));
    assert_eq!(reader.pos, 3);
    let mut buf = [0u8; 4];
    assert_eq!(reader.read(&mut buf), Ok(2));
    assert_eq!(&buf, b"lo\0\0");
    assert_eq!(reader.pos, 5);
}

#[test]
fn reader_counts_the_bytes_it_gives() {
    let mut reader = BufReaderWithPos::new(stream(b"hello world", 0));
    assert_eq!(reader.pos, 0);
    let mut buf = [0u8; 5];
    assert_eq!(reader.read(&mut buf), Ok(5));
    assert_eq!(&buf, b"hello");
    assert_eq!(reader.pos, 5);
    assert_eq!(reader.read(&mut buf), Ok(5));
    assert_eq!(&buf, b" worl");
    assert_eq!(reader.pos, 10);
    assert_eq!(reader.read(&mut buf), Ok(1));
    assert_eq!(&buf, b"dworl");
    assert_eq!(reader.pos, 11);
    assert_eq!(reader.read(&mut buf), Ok(0));
    assert_eq!(reader.pos, 11);
}

#[test]
fn reader_seek_sets_the_position() {
    let mut reader = BufReaderWithPos::new(stream(b"0123456789", 0));
    assert_eq!(reader.seek(SeekFrom::Start(7)), Ok(7));
    assert_eq!(reader.pos, 7);
    let mut buf = [0u8; 2];
    assert_eq!(reader.read(&mut buf), Ok(2));
    assert_eq!(&buf, b"78");
    assert_eq!(reader.pos, 9);
    assert_eq!(reader.seek(SeekFrom::Current(-4)), Ok(5));
    assert_eq!(reader.pos, 5);
    assert_eq!(reader.seek(SeekFrom::End(-1)), Ok(9));
    assert_eq!(reader.read(&mut buf), Ok(1));
    assert_eq!(&buf, b"98");
    assert_eq!(reader.seek(SeekFrom::Start(100)), Ok(100));
    assert_eq!(reader.read(&mut buf), Ok(0));
    assert_eq!(reader.pos, 100);
    assert_eq!(reader.seek(SeekFrom::End(-11)), Err(KvsError::Io));
    assert_eq!(reader.pos, 100);
    assert_eq!(reader.reader.offset, 100);
}

#[test]
fn reader_refuses_to_leave_the_range_of_offsets() {
    let mut reader = BufReaderWithPos::new(stream(b"abc", 0));
    reader.pos = u64::MAX - 1;
    let mut buf = [0u8; 3];
    assert_eq!(reader.read(&mut buf), Err(KvsError::Io));
    assert_eq!(&buf, &[0u8; 3]);
    assert_eq!(reader.pos, u64::MAX - 1);
    assert_eq!(reader.reader.offset, 0);
    let mut one = [0u8; 1];
    assert_eq!(reader.read(&mut one), Ok(1));
    assert_eq!(reader.pos, u64::MAX);
}

#[test]
fn writer_starts_where_the_stream_stands() {
    let writer = BufWriterWithPos::new(stream(b"abc", 3));
    assert_eq!(writer.pos, 3);
    assert!(writer.buffer.is_empty());
    assert_eq!(writer.writer.data, b"abc".to_vec());
}

#[test]
fn writer_counts_the_bytes_it_takes() {
    let mut writer = BufWriterWithPos::new(stream(b"0123456789", 10));
    assert_eq!(writer.pos, 10);
    assert_eq!(writer.write(b"abc"), Ok(3));
    assert_eq!(writer.pos, 13);
    assert_eq!(writer.write(b""), Ok(0));
    assert_eq!(writer.write(b"de"), Ok(2));
    assert_eq!(writer.pos, 15);
    assert_eq!(writer.buffer, b"abcde".to_vec());
    assert_eq!(writer.writer.data, b"0123456789".to_vec());
    assert_eq!(writer.flush(), Ok(()));
    assert_eq!(writer.pos, 15);
    assert!(writer.buffer.is_empty());
    assert_eq!(writer.writer.data, b"0123456789abcde".to_vec());
    assert_eq!(writer.writer.offset, 15);
    assert_eq!(writer.flush(), Ok(()));
    assert_eq!(writer.writer.data, b"0123456789abcde".to_vec());
}

#[test]
fn writer_refuses_to_leave_the_range_of_offsets() {
    let mut writer = BufWriterWithPos::new(stream(b"", u64::MAX - 2));
    assert_eq!(writer.write(b"abc"), Err(KvsError::Io));
    assert_eq!(writer.pos, u64::MAX - 2);
    assert!(writer.buffer.is_empty());
    assert_eq!(writer.write(b"ab"), Ok(2));
    assert_eq!(writer.pos, u64::MAX);
    assert_eq!(writer.write(b"c"), Err(KvsError::Io));
    assert_eq!(writer.buffer, b"ab".to_vec());
}

#[test]
fn writer_seek_flushes_first() {
    let mut writer = BufWriterWithPos::new(stream(b"", 0));
    assert_eq!(writer.write(b"hello"), Ok(5));
    assert_eq!(writer.pos, 5);
    assert_eq!(writer.seek(SeekFrom::Start(1)), Ok(1));
    assert_eq!(writer.pos, 1);
    assert!(writer.buffer.is_empty());
    assert_eq!(writer.writer.data, b"hello".to_vec());
    assert_eq!(writer.writer.offset, 1);
    assert_eq!(writer.write(b"ipp"), Ok(3));
    assert_eq!(writer.pos, 4);
    assert_eq!(writer.seek(SeekFrom::End(0)), Ok(5));
    assert_eq!(writer.writer.data, b"hippo".to_vec());
    assert_eq!(writer.pos, 5);
    assert_eq!(writer.write(b"s"), Ok(1));
    assert_eq!(writer.seek(SeekFrom::Current(-6)), Ok(0));
    assert_eq!(writer.writer.data, b"hippos".to_vec());
    assert_eq!(writer.pos, 0);
}

#[test]
fn writer_seek_that_the_stream_refuses_has_flushed() {
    let mut writer = BufWriterWithPos::new(stream(b"ab", 2));
    assert_eq!(writer.write(b"cd"), Ok(2));
    assert_eq!(writer.seek(SeekFrom::Current(-5)), Err(KvsError::Io));
    assert_eq!(writer.pos, 4);
    assert!(writer.buffer.is_empty());
    assert_eq!(writer.writer.data, b"abcd".to_vec());
    assert_eq!(writer.writer.offset, 4);
}

#[test]
fn writer_flush_that_the_stream_refuses_changes_nothing() {
    let mut writer = BufWriterWithPos::new(stream(b"ab", u64::MAX - 1));
    writer.pos = 0;
    assert_eq!(writer.write(b"cde"), Ok(3));
    assert_eq!(writer.flush(), Err(KvsError::Io));
    assert_eq!(writer.buffer, b"cde".to_vec());
    assert_eq!(writer.writer.data, b"ab".to_vec());
    assert_eq!(writer.seek(SeekFrom::Start(0)), Err(KvsError::Io));
    assert_eq!(writer.buffer, b"cde".to_vec());
    assert_eq!(writer.pos, 3);
    assert_eq!(writer.writer.offset, u64::MAX - 1);
}

#[test]
fn index_insert_get_remove() {
    let mut index = Index::new();
    assert_eq!(index.get(&s("a")), None);
    let one = Value { gen: 1, pos: 0, size: 10 };
    let two = Value { gen: 1, pos: 10, size: 12 };
    let three = Value { gen: 2, pos: 0, size: 7 };
    assert_eq!(index.insert(s("a"), one), None);
    assert_eq!(index.insert(s("b"), two), None);
    assert_eq!(index.insert(s("a"), three), Some(one));
    assert_eq!(index.get(&s("a")), Some(three));
    assert_eq!(index.get(&s("b")), Some(two));
    assert_eq!(index.remove(&s("a")), Some(three));
    assert_eq!(index.remove(&s("a")), None);
    assert_eq!(index.get(&s("a")), None);
    assert_eq!(index.get(&s("b")), Some(two));
    assert_eq!(index.remove(&s("b")), Some(two));
    assert_eq!(index.get(&s("b")), None);
}

#[test]
fn index_holds_many_keys() {
    let mut index = Index::new();
    for n in 0..500u64 {
        assert_eq!(index.insert(format!("key{}", n), Value { gen: 1, pos: n, size: 1 }), None);
    }
    for n in 0..500u64 {
        assert_eq!(index.get(&format!("key{}", n)), Some(Value { gen: 1, pos: n, size: 1 }));
    }
    for n in (0..500u64).step_by(2) {
        assert_eq!(index.remove(&format!("key{}", n)), Some(Value { gen: 1, pos: n, size: 1 }));
    }
    for n in 0..500u64 {
        let expected = if n % 2 == 0 { None } else { Some(Value { gen: 1, pos: n, size: 1 }) };
        assert_eq!(index.get(&format!("key{}", n)), expected);
        assert_eq!(index.insert(format!("key{}", n), Value { gen: 2, pos: n, size: 2 }), expected);
    }
    assert_eq!(index.get(&s("key")), None);
}
