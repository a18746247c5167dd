use kvs::{gen_of_file_name, get_gen_list, log_path};

#[test]
fn log_file_names_parse_to_generations() {
    assert_eq!(gen_of_file_name("1.log"), Some(1));
    assert_eq!(gen_of_file_name("01.log"), Some(1));
    assert_eq!(gen_of_file_name("5.log.log"), Some(5));
    assert_eq!(gen_of_file_name("+7.log"), Some(7));
    assert_eq!(gen_of_file_name("18446744073709551615.log"), Some(u64::MAX));
}

#[test]
fn other_names_are_not_logs() {
    assert_eq!(gen_of_file_name(".log"), None);
    assert_eq!(gen_of_file_name("..log"), None);
    assert_eq!(gen_of_file_name("a.log"), None);
    assert_eq!(gen_of_file_name("7.txt"), None);
    assert_eq!(gen_of_file_name("7"), None);
    assert_eq!(gen_of_file_name("-7.log"), None);
    assert_eq!(gen_of_file_name(" 7.log"), None);
    assert_eq!(gen_of_file_name("18446744073709551616.log"), None);
    assert_eq!(gen_of_file_name("+.log"), None);
}

#[test]
fn gen_list_is_sorted() {
    let names: Vec<String> = ["3.log", "1.log", "x", "2.log", "notes.txt", "10.log"]
        .iter()
        .map(|s| s.to_string())
        .collect();
    assert_eq!(get_gen_list(&names), vec![1, 2, 3, 10]);
    assert_eq!(get_gen_list(&vec![]), Vec::<u64>::new());
}

#[test]
fn gen_list_keeps_a_generation_named_twice() {
    let names: Vec<String> = ["8.log", "08.log"].iter().map(|s| s.to_string()).collect();
    assert_eq!(get_gen_list(&names), vec![8, 8]);
}

#[test]
fn log_path_names_the_generation() {
    let p = log_path("dir", 7);
    assert_eq!(p, std::path::Path::new("dir").join("7.log").to_string_lossy());
    assert_eq!(log_path("/tmp/db/", 0), "/tmp/db/0.log");
    assert_eq!(log_path("", 12), "12.log");
}

#[test]
fn the_name_of_a_log_parses_back() {
    for g in [0u64, 9, 10, 12345, u64::MAX] {
        let p = log_path("", g);
        assert_eq!(gen_of_file_name(&p), Some(g));
    }
}
