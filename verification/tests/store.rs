use kvs::kv::{load_file, new_log_file, new_reader, new_writer};
use kvs::index::{Index, Value};
use kvs::segment::gen_fname;
use kvs::utils::{BufReaderWithPos, SeekFrom, Stream};
use kvs::{KvStore, KvsError};
use std::collections::HashMap;

fn s(text: &str) -> String {
    text.to_string()
}

fn file(name: &str, text: &str) -> (String, Vec<u8>) {
    (name.to_string(), text.as_bytes().to_vec())
}

/// The directory as it is after the store's writes: the files it was opened
/// on and the segment that took the writes.
fn directory_after(files: &[(String, Vec<u8>)], store: &KvStore) -> Vec<(String, Vec<u8>)> {
    let gen = store.current_gen();
    let mut after = files.to_vec();
    after.push((gen_fname(gen), store.segment(gen).unwrap()));
    after
}

#[test]
fn scenario_set_get_remove_reopen() {
    let files: Vec<(String, Vec<u8>)> = Vec::new();
    let mut store = KvStore::open(&files).unwrap();
    assert_eq!(store.current_gen(), 1);
    store.set(s("a"), s("1")).unwrap();
    store.set(s("b"), s("2")).unwrap();
    store.set(s("a"), s("3")).unwrap();
    assert_eq!(store.get(s("a")), Ok(Some(s("3"))));
    assert_eq!(store.remove(s("b")), Ok(()));
    assert_eq!(store.get(s("b")), Ok(None));
    assert_eq!(store.remove(s("b")), Err(KvsError::KeyNotFound));

    let after = directory_after(&files, &store);
    let mut fresh = KvStore::open(&after).unwrap();
    assert_eq!(fresh.current_gen(), 2);
    assert_eq!(fresh.get(s("a")), Ok(Some(s("3"))));
    assert_eq!(fresh.get(s("b")), Ok(None));
}

#[test]
fn get_on_new_store_gives_no_value() {
    let mut store = KvStore::open(&Vec::new()).unwrap();
    assert_eq!(store.get(s("anything")), Ok(None));
    assert_eq!(store.get(s("")), Ok(None));
    assert_eq!(store.segment(1), Some(Vec::new()));
    assert_eq!(store.segment(2), None);
}

#[test]
fn get_after_opens_without_writes_gives_no_value() {
    let first = KvStore::open(&Vec::new()).unwrap();
    let files = directory_after(&[], &first);
    assert_eq!(files, vec![(s("1.log"), Vec::new())]);
    let second = KvStore::open(&files).unwrap();
    let files = directory_after(&files, &second);
    let mut third = KvStore::open(&files).unwrap();
    assert_eq!(third.current_gen(), 3);
    assert_eq!(third.get(s("k")), Ok(None));
}

#[test]
fn set_writes_the_record_and_get_reads_it() {
    let mut store = KvStore::open(&Vec::new()).unwrap();
    store.set(s("key"), s("value")).unwrap();
    assert_eq!(
        store.segment(1).unwrap(),
        b"{\"SetRecord\":{\"key\":\"key\",\"value\":\"value\"}}".to_vec()
    );
    assert_eq!(store.get(s("key")), Ok(Some(s("value"))));
}

#[test]
fn round_trip_of_strings_that_need_escapes() {
    let mut store = KvStore::open(&Vec::new()).unwrap();
    let pairs = [
        ("", ""),
        ("quote\"d", "back\\slash"),
        ("line\nbreak", "tab\there"),
        ("{\"SetRecord\":{}}", "}}{{"),
        ("caf\u{e9}", "\u{1f600} \u{0} \u{7f}"),
        ("  spaced  ", "\r\n"),
    ];
    for (key, value) in pairs.iter() {
        assert_eq!(store.set(s(key), s(value)), Ok(()));
        assert_eq!(store.get(s(key)), Ok(Some(s(value))));
    }
    for (key, value) in pairs.iter() {
        assert_eq!(store.get(s(key)), Ok(Some(s(value))));
    }
    let after = directory_after(&[], &store);
    let mut fresh = KvStore::open(&after).unwrap();
    for (key, value) in pairs.iter() {
        assert_eq!(fresh.get(s(key)), Ok(Some(s(value))));
    }
}

#[test]
fn remove_leaves_no_value_and_fails_the_second_time() {
    let mut store = KvStore::open(&Vec::new()).unwrap();
    store.set(s("k"), s("v")).unwrap();
    assert_eq!(store.remove(s("k")), Ok(()));
    assert_eq!(store.get(s("k")), Ok(None));
    assert_eq!(store.remove(s("k")), Err(KvsError::KeyNotFound));
    assert_eq!(store.get(s("k")), Ok(None));
}

#[test]
fn second_remove_leaves_every_lookup_as_it_was() {
    let files = vec![file("1.log", "{\"SetRecord\":{\"key\":\"old\",\"value\":\"0\"}}")];
    let mut store = KvStore::open(&files).unwrap();
    store.set(s("a"), s("1")).unwrap();
    store.set(s("b"), s("2")).unwrap();
    assert_eq!(store.remove(s("a")), Ok(()));
    assert_eq!(store.get(s("b")), Ok(Some(s("2"))));
    assert_eq!(store.get(s("old")), Ok(Some(s("0"))));
    assert_eq!(store.remove(s("a")), Err(KvsError::KeyNotFound));
    assert_eq!(store.get(s("a")), Ok(None));
    assert_eq!(store.get(s("b")), Ok(Some(s("2"))));
    assert_eq!(store.get(s("old")), Ok(Some(s("0"))));
}

#[test]
fn lookups_after_many_writes_are_no_errors() {
    let mut store = KvStore::open(&Vec::new()).unwrap();
    for n in 0..200 {
        store.set(format!("key{}", n % 50), format!("value{}", n)).unwrap();
        if n % 7 == 0 {
            store.remove(format!("key{}", n % 50)).unwrap();
        }
    }
    let after = directory_after(&[], &store);
    let mut fresh = KvStore::open(&after).unwrap();
    for n in 0..60 {
        let key = format!("key{}", n);
        let answer = store.get(key.clone());
        assert!(answer.is_ok());
        assert_eq!(fresh.get(key), answer);
    }
    assert_eq!(store.get(s("key49")), Ok(Some(s("value199"))));
    assert_eq!(store.get(s("key46")), Ok(None));
    assert_eq!(store.get(s("key50")), Ok(None));
}

#[test]
fn remove_of_missing_key_still_writes_a_tombstone() {
    let mut store = KvStore::open(&Vec::new()).unwrap();
    assert_eq!(store.remove(s("ghost")), Err(KvsError::KeyNotFound));
    assert_eq!(store.segment(1).unwrap(), b"{\"RemoveRecord\":{\"key\":\"ghost\"}}".to_vec());
}

#[test]
fn reopen_gives_the_same_answers() {
    let files = vec![file("1.log", "{\"SetRecord\":{\"key\":\"old\",\"value\":\"1\"}}")];
    let mut store = KvStore::open(&files).unwrap();
    store.set(s("a"), s("1")).unwrap();
    store.remove(s("old")).unwrap();
    store.set(s("b"), s("2")).unwrap();
    store.set(s("a"), s("4")).unwrap();
    assert_eq!(store.remove(s("missing")), Err(KvsError::KeyNotFound));
    store.remove(s("b")).unwrap();
    store.set(s("c"), s("5")).unwrap();

    let keys = ["a", "b", "c", "old", "missing", "never"];
    let mut answers = Vec::new();
    for key in keys.iter() {
        answers.push(store.get(s(key)));
    }
    assert_eq!(
        answers,
        vec![Ok(Some(s("4"))), Ok(None), Ok(Some(s("5"))), Ok(None), Ok(None), Ok(None)]
    );

    let after = directory_after(&files, &store);
    let mut fresh = KvStore::open(&after).unwrap();
    let mut again = Vec::new();
    for key in keys.iter() {
        again.push(fresh.get(s(key)));
    }
    assert_eq!(again, answers);
}

#[test]
fn set_after_remove_is_found_after_reopen() {
    let mut store = KvStore::open(&Vec::new()).unwrap();
    store.set(s("a"), s("1")).unwrap();
    store.remove(s("a")).unwrap();
    store.set(s("b"), s("2")).unwrap();
    let after = directory_after(&[], &store);
    let mut fresh = KvStore::open(&after).unwrap();
    assert_eq!(fresh.get(s("a")), Ok(None));
    assert_eq!(fresh.get(s("b")), Ok(Some(s("2"))));
}

#[test]
fn later_generation_wins() {
    let mut first = KvStore::open(&Vec::new()).unwrap();
    first.set(s("k"), s("from one")).unwrap();
    let files = directory_after(&[], &first);

    let mut second = KvStore::open(&files).unwrap();
    assert_eq!(second.current_gen(), 2);
    assert_eq!(second.get(s("k")), Ok(Some(s("from one"))));
    second.set(s("k"), s("from two")).unwrap();
    let files = directory_after(&files, &second);

    let mut third = KvStore::open(&files).unwrap();
    assert_eq!(third.get(s("k")), Ok(Some(s("from two"))));
    let files = directory_after(&files, &third);

    let mut fourth = KvStore::open(&files).unwrap();
    assert_eq!(fourth.current_gen(), 4);
    assert_eq!(fourth.get(s("k")), Ok(Some(s("from two"))));
}

#[test]
fn generations_are_replayed_by_number_not_by_name_order() {
    let files = vec![
        file("10.log", "{\"SetRecord\":{\"key\":\"k\",\"value\":\"ten\"}}"),
        file("9.log", "{\"SetRecord\":{\"key\":\"k\",\"value\":\"nine\"}}"),
    ];
    let mut store = KvStore::open(&files).unwrap();
    assert_eq!(store.current_gen(), 11);
    assert_eq!(store.get(s("k")), Ok(Some(s("ten"))));
}

#[test]
fn listing_order_makes_no_difference() {
    let one = file("1.log", "{\"SetRecord\":{\"key\":\"a\",\"value\":\"1\"}}{\"SetRecord\":{\"key\":\"b\",\"value\":\"1\"}}");
    let two = file("2.log", "{\"SetRecord\":{\"key\":\"a\",\"value\":\"2\"}}{\"RemoveRecord\":{\"key\":\"b\"}}");
    let three = file("3.log", "{\"SetRecord\":{\"key\":\"c\",\"value\":\"3\"}}");
    let other = file("notes.txt", "not a segment");
    let orders = vec![
        vec![one.clone(), two.clone(), three.clone(), other.clone()],
        vec![three.clone(), other.clone(), one.clone(), two.clone()],
        vec![two.clone(), one.clone(), other.clone(), three.clone()],
        vec![other.clone(), three.clone(), two.clone(), one.clone()],
    ];
    for files in orders.iter() {
        let mut store = KvStore::open(files).unwrap();
        assert_eq!(store.current_gen(), 4);
        assert_eq!(store.get(s("a")), Ok(Some(s("2"))));
        assert_eq!(store.get(s("b")), Ok(None));
        assert_eq!(store.get(s("c")), Ok(Some(s("3"))));
    }
}

#[test]
fn truncated_segment_fails_to_open() {
    let mut store = KvStore::open(&Vec::new()).unwrap();
    store.set(s("a"), s("1")).unwrap();
    store.set(s("b"), s("2")).unwrap();
    let mut bytes = store.segment(1).unwrap();
    let whole = bytes.len();
    bytes.truncate(whole - 5);
    let files = vec![(s("1.log"), bytes)];
    assert_eq!(KvStore::open(&files).err(), Some(KvsError::Corruption));
}

#[test]
fn every_truncation_inside_a_record_fails_to_open() {
    let text = "{\"SetRecord\":{\"key\":\"a\",\"value\":\"1\"}}";
    for cut in 1..text.len() {
        let files = vec![(s("1.log"), text.as_bytes()[..cut].to_vec())];
        assert_eq!(KvStore::open(&files).err(), Some(KvsError::Corruption));
    }
}

#[test]
fn segment_that_is_no_record_fails_to_open() {
    for text in ["garbage", "{}", "[1,2]", "{\"Other\":{\"key\":\"a\"}}", "{\"SetRecord\":{\"key\":\"a\"}}"] {
        let files = vec![file("1.log", text)];
        assert_eq!(KvStore::open(&files).err(), Some(KvsError::Corruption));
    }
}

#[test]
fn segment_under_another_spelling_fails_with_io() {
    let files = vec![file("01.log", "")];
    assert_eq!(KvStore::open(&files).err(), Some(KvsError::Io));
}

#[test]
fn no_generation_left_is_an_invalid_directory() {
    let files = vec![file("18446744073709551615.log", "")];
    assert_eq!(KvStore::open(&files).err(), Some(KvsError::InvalidDirectory));
    let files = vec![file("18446744073709551614.log", "")];
    assert_eq!(KvStore::open(&files).unwrap().current_gen(), 18446744073709551615);
}

#[test]
fn open_passes_over_other_files() {
    let files = vec![
        file("readme.md", "{"),
        file("1.log.bak", "{"),
        file("x1.log", "{"),
        file(".log", "{"),
        file("18446744073709551616.log", "{"),
        file("7.log", "{\"SetRecord\":{\"key\":\"k\",\"value\":\"v\"}}"),
    ];
    let mut store = KvStore::open(&files).unwrap();
    assert_eq!(store.current_gen(), 8);
    assert_eq!(store.get(s("k")), Ok(Some(s("v"))));
    assert_eq!(store.segment(7).unwrap().len(), 37);
    assert_eq!(store.segment(1), None);
}

#[test]
fn white_space_between_records_is_passed_over() {
    let files = vec![file(
        "1.log",
        " {\"SetRecord\":{\"key\":\"a\",\"value\":\"1\"}}\n\n{\"SetRecord\":{\"key\":\"b\",\"value\":\"2\"}} \n",
    )];
    let mut store = KvStore::open(&files).unwrap();
    assert_eq!(store.get(s("a")), Ok(Some(s("1"))));
    assert_eq!(store.get(s("b")), Ok(Some(s("2"))));
}

#[test]
fn load_file_records_places() {
    let text = "{\"SetRecord\":{\"key\":\"a\",\"value\":\"1\"}}{\"RemoveRecord\":{\"key\":\"zz\"}}{\"SetRecord\":{\"key\":\"b\",\"value\":\"22\"}}";
    let mut index = Index::new();
    let mut reader = BufReaderWithPos::new(Stream::new(text.as_bytes().to_vec(), 0));
    assert_eq!(load_file(3, &mut index, &mut reader), Ok(104));
    assert_eq!(reader.pos, 104);
    assert_eq!(reader.reader.offset, 104);
    assert_eq!(index.get(&s("a")), Some(Value { gen: 3, pos: 0, size: 37 }));
    assert_eq!(index.get(&s("b")), Some(Value { gen: 3, pos: 66, size: 38 }));
    assert_eq!(index.get(&s("zz")), None);
}

#[test]
fn load_file_keeps_what_came_before_the_corruption() {
    let text = "{\"SetRecord\":{\"key\":\"a\",\"value\":\"1\"}}{\"SetRec";
    let mut index = Index::new();
    index.insert(s("earlier"), Value { gen: 1, pos: 0, size: 5 });
    let mut reader = BufReaderWithPos::new(Stream::new(text.as_bytes().to_vec(), 0));
    assert_eq!(load_file(2, &mut index, &mut reader), Err(KvsError::Corruption));
    assert_eq!(reader.pos, 37);
    assert_eq!(index.get(&s("a")), Some(Value { gen: 2, pos: 0, size: 37 }));
    assert_eq!(index.get(&s("earlier")), Some(Value { gen: 1, pos: 0, size: 5 }));
}

#[test]
fn load_file_of_empty_segment() {
    let mut index = Index::new();
    let mut reader = BufReaderWithPos::new(Stream::new(Vec::new(), 0));
    assert_eq!(load_file(1, &mut index, &mut reader), Ok(0));
    assert_eq!(reader.pos, 0);
    assert_eq!(index.get(&s("a")), None);
}

#[test]
fn new_reader_finds_the_file_by_name() {
    let files = vec![file("1.log", "one"), file("2.log", "two")];
    let reader = new_reader(&files, &s("2.log")).unwrap();
    assert_eq!(reader.reader.data, b"two".to_vec());
    assert_eq!(reader.reader.offset, 0);
    assert_eq!(reader.pos, 0);
    assert_eq!(new_reader(&files, &s("3.log")).err(), Some(KvsError::Io));
}

#[test]
fn new_writer_stands_where_asked() {
    let files = vec![file("1.log", "one"), file("2.log", "two!")];
    let mut writer = new_writer(&files, &s("2.log"), 4);
    assert_eq!(writer.pos, 4);
    assert_eq!(writer.writer.data, b"two!".to_vec());
    assert_eq!(writer.writer.offset, 4);
    assert!(writer.buffer.is_empty());
    assert_eq!(writer.write(b"?"), Ok(1));
    assert_eq!(writer.flush(), Ok(()));
    assert_eq!(writer.writer.data, b"two!?".to_vec());

    let writer = new_writer(&files, &s("2.log"), 1);
    assert_eq!(writer.pos, 1);
    assert_eq!(writer.writer.offset, 1);
}

#[test]
fn new_writer_makes_the_file_that_is_not_there() {
    let files = vec![file("1.log", "one")];
    let writer = new_writer(&files, &s("9.log"), 42);
    assert_eq!(writer.pos, 42);
    assert_eq!(writer.writer.offset, 42);
    assert!(writer.writer.data.is_empty());
    assert!(writer.buffer.is_empty());
}

#[test]
fn new_log_file_registers_a_reader() {
    let mut readers: HashMap<u64, BufReaderWithPos> = HashMap::new();
    let writer = new_log_file(5, &mut readers);
    assert_eq!(writer.pos, 0);
    assert_eq!(readers.len(), 1);
    assert!(readers[&5].reader.data.is_empty());

    let mut old = BufReaderWithPos::new(Stream::new(b"abc".to_vec(), 0));
    assert_eq!(old.seek(SeekFrom::Start(2)), Ok(2));
    readers.insert(6, old);
    let writer = new_log_file(6, &mut readers);
    assert_eq!(writer.pos, 3);
    assert_eq!(writer.writer.offset, 3);
    assert_eq!(writer.writer.data, b"abc".to_vec());
    assert_eq!(readers[&6].reader.data, b"abc".to_vec());
    assert_eq!(readers[&6].reader.offset, 0);
    assert_eq!(readers[&6].pos, 0);
    assert_eq!(readers.len(), 2);
}

#[test]
fn store_new_log_file_keeps_the_segments() {
    let mut store = KvStore::open(&Vec::new()).unwrap();
    store.set(s("a"), s("1")).unwrap();
    let writer = store.new_log_file(2);
    assert_eq!(writer.pos, 0);
    assert_eq!(store.segment(2), Some(Vec::new()));
    assert_eq!(store.current_gen(), 1);
    let again = store.new_log_file(1);
    assert_eq!(again.pos, 37);
    assert_eq!(store.get(s("a")), Ok(Some(s("1"))));
    store.set(s("b"), s("2")).unwrap();
    assert_eq!(store.get(s("b")), Ok(Some(s("2"))));
    assert_eq!(store.segment(1).unwrap().len(), 74);
}
