use kvs::segment::{gen_fname, get_gen_list, segment_gen};

fn file(name: &str) -> (String, Vec<u8>) {
    (name.to_string(), Vec::new())
}

#[test]
fn gen_fname_is_digits_and_suffix() {
    assert_eq!(gen_fname(0), "0.log");
    assert_eq!(gen_fname(1), "1.log");
    assert_eq!(gen_fname(9), "9.log");
    assert_eq!(gen_fname(10), "10.log");
    assert_eq!(gen_fname(1234567890), "1234567890.log");
    assert_eq!(gen_fname(u64::MAX), "18446744073709551615.log");
}

#[test]
fn segment_gen_reads_segment_names() {
    assert_eq!(segment_gen("0.log"), Some(0));
    assert_eq!(segment_gen("1.log"), Some(1));
    assert_eq!(segment_gen("42.log"), Some(42));
    assert_eq!(segment_gen("007.log"), Some(7));
    assert_eq!(segment_gen("18446744073709551615.log"), Some(u64::MAX));
    assert_eq!(segment_gen("000018446744073709551615.log"), Some(u64::MAX));
}

#[test]
fn segment_gen_refuses_other_names() {
    for name in [
        "",
        ".log",
        "log",
        "1",
        "1.lo",
        "1.logs",
        "1.LOG",
        "1.log.log",
        "a.log",
        "1a.log",
        "+1.log",
        "-1.log",
        " 1.log",
        "1 .log",
        "1.log ",
        "18446744073709551616.log",
        "99999999999999999999999.log",
        "\u{661}.log",
        "1\u{e9}.log",
        "dir/1.log",
    ] {
        assert_eq!(segment_gen(name), None);
    }
}

#[test]
fn segment_gen_reads_what_gen_fname_writes() {
    for gen in [0u64, 1, 5, 10, 99, 100, 4294967296, u64::MAX - 1, u64::MAX] {
        assert_eq!(segment_gen(&gen_fname(gen)), Some(gen));
    }
}

#[test]
fn get_gen_list_of_empty_directory() {
    assert_eq!(get_gen_list(&Vec::new()), Vec::<u64>::new());
}

#[test]
fn get_gen_list_sorts_by_number() {
    let files = vec![file("10.log"), file("2.log"), file("33.log"), file("1.log")];
    assert_eq!(get_gen_list(&files), vec![1, 2, 10, 33]);
}

#[test]
fn get_gen_list_passes_over_other_files() {
    let files = vec![file("b.log"), file("3.log"), file("notes"), file("3.txt"), file("1.log")];
    assert_eq!(get_gen_list(&files), vec![1, 3]);
}

#[test]
fn get_gen_list_holds_each_generation_once() {
    let files = vec![file("2.log"), file("02.log"), file("1.log"), file("002.log"), file("2.log")];
    assert_eq!(get_gen_list(&files), vec![1, 2]);
}
