use kvs::record::{decode, encode, record_from, Record};
use kvs::KvsError;

fn s(text: &str) -> String {
    text.to_string()
}

fn set(key: &str, value: &str) -> Record {
    Record::SetRecord { key: s(key), value: s(value) }
}

fn remove(key: &str) -> Record {
    Record::RemoveRecord { key: s(key) }
}

#[test]
fn encode_set_record() {
    assert_eq!(
        encode(&set("a", "1")),
        Ok(b"{\"SetRecord\":{\"key\":\"a\",\"value\":\"1\"}}".to_vec())
    );
}

#[test]
fn encode_remove_record() {
    assert_eq!(encode(&remove("a")), Ok(b"{\"RemoveRecord\":{\"key\":\"a\"}}".to_vec()));
}

#[test]
fn encode_escapes_strings() {
    assert_eq!(
        encode(&set("a\"b", "c\\d\n")),
        Ok(b"{\"SetRecord\":{\"key\":\"a\\\"b\",\"value\":\"c\\\\d\\n\"}}".to_vec())
    );
    assert_eq!(
        encode(&remove("\u{1}\u{e9}")),
        Ok("{\"RemoveRecord\":{\"key\":\"\\u0001\u{e9}\"}}".as_bytes().to_vec())
    );
}

#[test]
fn decode_reads_one_record_and_its_length() {
    let text = b"{\"SetRecord\":{\"key\":\"a\",\"value\":\"1\"}}{\"RemoveRecord\":{\"key\":\"a\"}}";
    assert_eq!(decode(text), Ok(Some((set("a", "1"), 37))));
    assert_eq!(decode(&text[37..]), Ok(Some((remove("a"), 28))));
    assert_eq!(decode(&text[65..]), Ok(None));
}

#[test]
fn decode_gives_back_what_encode_wrote() {
    for record in [set("k", "v"), set("", ""), remove("k"), set("a\"\\\n\t", "\u{1f600}"), remove("{}")] {
        let bytes = encode(&record).unwrap();
        let len = bytes.len();
        assert_eq!(decode(&bytes), Ok(Some((record, len))));
    }
}

#[test]
fn decode_unescapes_strings() {
    let text = b"{\"SetRecord\":{\"key\":\"a\\u0041\\n\",\"value\":\"\\\"\"}}";
    assert_eq!(decode(text), Ok(Some((set("aA\n", "\""), text.len()))));
}

#[test]
fn decode_counts_white_space_before_the_record() {
    let text = b" \n\t{\"RemoveRecord\":{\"key\":\"a\"}}  ";
    assert_eq!(decode(text), Ok(Some((remove("a"), 31))));
    assert_eq!(decode(&text[31..]), Ok(None));
}

#[test]
fn decode_takes_members_in_any_order_and_with_white_space() {
    let text = b"{ \"SetRecord\" : { \"value\" : \"v\", \"key\" : \"k\" } }";
    assert_eq!(decode(text), Ok(Some((set("k", "v"), text.len()))));
}

#[test]
fn decode_at_the_end_of_input() {
    assert_eq!(decode(b""), Ok(None));
    assert_eq!(decode(b"  \n "), Ok(None));
}

#[test]
fn decode_refuses_what_is_no_record() {
    let cases: [&[u8]; 12] = [
        b"x",
        b"{",
        b"{\"SetRecord\":{\"key\":\"a\",\"value\":\"1\"}",
        b"{\"SetRecord\":{\"key\":\"a\"}}",
        b"{\"SetRecord\":{\"key\":\"a\",\"value\":\"1\",\"more\":\"2\"}}",
        b"{\"SetRecord\":{\"key\":\"a\",\"value\":1}}",
        b"{\"RemoveRecord\":{\"key\":\"a\",\"value\":\"1\"}}",
        b"{\"RemoveRecord\":{}}",
        b"{\"Unknown\":{\"key\":\"a\"}}",
        b"{}",
        b"{\"SetRecord\":{\"key\":\"a\",\"value\":\"1\"},\"RemoveRecord\":{\"key\":\"a\"}}",
        b"\"SetRecord\"",
    ];
    for text in cases.iter() {
        assert_eq!(decode(text), Err(KvsError::Corruption));
    }
}

#[test]
fn record_from_reads_the_two_kinds() {
    let object = vec![(s("SetRecord"), vec![(s("key"), s("k")), (s("value"), s("v"))])];
    assert_eq!(record_from(object), Some(set("k", "v")));
    let object = vec![(s("RemoveRecord"), vec![(s("key"), s("k"))])];
    assert_eq!(record_from(object), Some(remove("k")));
}

#[test]
fn record_from_refuses_other_shapes() {
    assert_eq!(record_from(Vec::new()), None);
    let object = vec![(s("SetRecord"), vec![(s("value"), s("v")), (s("key"), s("k"))])];
    assert_eq!(record_from(object), None);
    let object = vec![(s("SetRecord"), vec![(s("key"), s("k"))])];
    assert_eq!(record_from(object), None);
    let object = vec![(s("RemoveRecord"), vec![(s("key"), s("k")), (s("value"), s("v"))])];
    assert_eq!(record_from(object), None);
    let object = vec![(s("setrecord"), vec![(s("key"), s("k")), (s("value"), s("v"))])];
    assert_eq!(record_from(object), None);
    let object = vec![
        (s("RemoveRecord"), vec![(s("key"), s("k"))]),
        (s("SetRecord"), vec![(s("key"), s("k")), (s("value"), s("v"))]),
    ];
    assert_eq!(record_from(object), None);
}
