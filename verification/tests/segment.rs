use simple_kv::engine::segment::{get_sorted_gen_list, log_path, parse_gen, stale_gens};

fn names(list: &[&str]) -> Vec<String> {
    list.iter().map(|name| name.to_string()).collect()
}

#[test]
fn log_path_names_the_segment_after_its_generation() {
    assert_eq!(log_path("dir", 12), "dir/12.log");
    assert_eq!(log_path("/var/lib/kvs", 1), "/var/lib/kvs/1.log");
    assert_eq!(log_path("dir", 0), "dir/0.log");
    assert_eq!(log_path("dir", u64::MAX), "dir/18446744073709551615.log");
}

#[test]
fn log_path_in_the_empty_directory_is_the_name_alone() {
    assert_eq!(log_path("", 7), "7.log");
}

#[test]
fn parse_gen_reads_the_generation_of_a_segment_file() {
    assert_eq!(parse_gen("1.log"), Some(1));
    assert_eq!(parse_gen("0.log"), Some(0));
    assert_eq!(parse_gen("1234567890.log"), Some(1234567890));
    assert_eq!(parse_gen("18446744073709551615.log"), Some(u64::MAX));
}

#[test]
fn parse_gen_passes_over_other_names() {
    for name in [
        "",
        ".log",
        "log",
        "engine",
        "1.txt",
        "1.log.bak",
        "1.log.log",
        "a1.log",
        "1a.log",
        "+1.log",
        "-1.log",
        " 1.log",
        "01.log",
        "00.log",
        "1.LOG",
        "18446744073709551616.log",
        "99999999999999999999999.log",
        "١.log",
        "1\u{e9}.log",
    ] {
        assert_eq!(parse_gen(name), None);
    }
}

#[test]
fn parse_gen_reads_back_what_log_path_wrote() {
    for gen in [0, 1, 9, 10, 11, 99, 100, 12345, u64::MAX - 1, u64::MAX] {
        assert_eq!(parse_gen(&log_path("", gen)), Some(gen));
    }
}

#[test]
fn the_generations_of_a_directory_come_in_ascending_order() {
    let found = get_sorted_gen_list(&names(&["10.log", "engine", "2.log", "x.log", "33.log", "1.log"]));
    assert_eq!(found, vec![1, 2, 10, 33]);
}

#[test]
fn a_directory_without_segments_has_no_generations() {
    assert_eq!(get_sorted_gen_list(&names(&["engine", "notes.txt"])), Vec::<u64>::new());
    assert_eq!(get_sorted_gen_list(&Vec::new()), Vec::<u64>::new());
}

#[test]
fn the_segments_below_the_compaction_are_stale() {
    assert_eq!(stale_gens(&vec![1, 2, 3, 4, 5], 4), vec![1, 2, 3]);
    assert_eq!(stale_gens(&vec![5, 1, 4, 2], 4), vec![1, 2]);
    assert_eq!(stale_gens(&vec![4, 5], 4), Vec::<u64>::new());
    assert_eq!(stale_gens(&Vec::new(), 4), Vec::<u64>::new());
}
