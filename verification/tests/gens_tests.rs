use kvs::log_path;
use kvs::parse_gen_file_name;
use kvs::sorted_gen_list;

#[test]
fn log_path_spells_the_generation_in_decimal() {
    assert_eq!(log_path(0), "0.log");
    assert_eq!(log_path(1), "1.log");
    assert_eq!(log_path(42), "42.log");
    assert_eq!(log_path(1234567890), "1234567890.log");
    assert_eq!(log_path(u64::MAX), "18446744073709551615.log");
}

#[test]
fn parse_accepts_exactly_the_names_log_path_makes() {
    assert_eq!(parse_gen_file_name("0.log"), Some(0));
    assert_eq!(parse_gen_file_name("42.log"), Some(42));
    assert_eq!(parse_gen_file_name("18446744073709551615.log"), Some(u64::MAX));
    for g in [0u64, 1, 9, 10, 99, 100, 4096, u64::MAX] {
        assert_eq!(parse_gen_file_name(&log_path(g)), Some(g));
    }
}

#[test]
fn parse_rejects_foreign_names() {
    assert_eq!(parse_gen_file_name(""), None);
    assert_eq!(parse_gen_file_name(".log"), None);
    assert_eq!(parse_gen_file_name("42"), None);
    assert_eq!(parse_gen_file_name("42.txt"), None);
    assert_eq!(parse_gen_file_name("a.log"), None);
    assert_eq!(parse_gen_file_name("4a2.log"), None);
    assert_eq!(parse_gen_file_name("-42.log"), None);
    assert_eq!(parse_gen_file_name("007.log"), None);
    assert_eq!(parse_gen_file_name("18446744073709551616.log"), None);
    assert_eq!(parse_gen_file_name("99999999999999999999999.log"), None);
}

#[test]
fn sorted_gen_list_orders_numerically_and_skips_other_files() {
    let names = vec![
        String::from("10.log"),
        String::from("2.log"),
        String::from("notes.txt"),
        String::from("1.log"),
        String::from("09.log"),
        String::from("lock"),
    ];
    assert_eq!(sorted_gen_list(&names), vec![1, 2, 10]);
    assert_eq!(sorted_gen_list(&Vec::new()), Vec::<u64>::new());
}
