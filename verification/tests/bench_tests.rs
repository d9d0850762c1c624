use spatio::bench::{cpu_model, parse_benchmark_line, system_info_text, whole_gib, UNIT_MS, UNIT_NS, UNIT_US};
use spatio::report::{table_group_name, table_groups};

fn texts(cs: &[(String, u8)]) -> Vec<(&str, u8)> {
    cs.iter().map(|(t, u)| (t.as_str(), *u)).collect()
}

#[test]
fn libtest_lines_give_name_and_nanoseconds() {
    let (name, cs) =
        parse_benchmark_line("test benches::basic_operations::single_insert ... bench:       1,428 ns/iter (+/- 12)")
            .unwrap();
    assert_eq!(name, "basic_operations/single_insert");
    assert_eq!(texts(&cs), vec![("1428", UNIT_NS)]);
}

#[test]
fn libtest_lines_without_a_path_or_words_give_nothing() {
    assert!(parse_benchmark_line("test foo ... bench: 5 ns/iter").is_none());
    assert!(parse_benchmark_line("bench: ns/iter").is_none());
    assert!(parse_benchmark_line("test a::b ... bench:x 5 ns/iter").is_none());
}

#[test]
fn criterion_lines_offer_their_timed_words() {
    let (name, cs) = parse_benchmark_line("group/y time: 12 34 5.5\u{3bc}s 7ms extra").unwrap();
    assert_eq!(name, "group/y");
    assert_eq!(texts(&cs), vec![("5.5", UNIT_US), ("7", UNIT_MS)]);
    let (_, cs) = parse_benchmark_line("a time: b c 1,234.5ns z").unwrap();
    assert_eq!(texts(&cs), vec![("1234.5", UNIT_NS)]);
    // Units standing as words of their own leave no number.
    let (_, cs) = parse_benchmark_line("g/x  time:   [420.1 ns 428.3 ns 431.0 ns]").unwrap();
    assert_eq!(texts(&cs), vec![("", UNIT_NS), ("", UNIT_NS)]);
}

#[test]
fn other_lines_give_nothing() {
    assert!(parse_benchmark_line("x time: 5ns").is_none());
    assert!(parse_benchmark_line("Running benches").is_none());
    assert!(parse_benchmark_line("").is_none());
}

#[test]
fn table_groups_follow_the_table_order() {
    let names: Vec<String> = ["spatial_operations/a", "basic_operations/x", "other/z", "basic_operations/y", "ttl_operations"]
        .iter()
        .map(|s| s.to_string())
        .collect();
    let g = table_groups(&names);
    assert_eq!(g.len(), 9);
    assert_eq!(g[0], vec![1, 3]);
    assert_eq!(g[1], vec![0]);
    assert_eq!(g[8], vec![4]);
    for k in 2..8 {
        assert!(g[k].is_empty());
    }
    assert_eq!(table_group_name(0), "basic_operations");
    assert_eq!(table_group_name(8), "ttl_operations");
}

#[test]
fn cpu_model_is_read_from_the_first_model_name_line() {
    let text = "processor\t: 0\r\nmodel name\t: Intel(R) Xeon(R)  \r\nmodel name\t: other\n";
    assert_eq!(cpu_model(text), Some("Intel(R) Xeon(R)".to_string()));
    // A model name line without a colon is passed over.
    assert_eq!(cpu_model("model name only\nmodel name: a:b\n"), Some("a".to_string()));
    assert_eq!(cpu_model("model name:  last line"), Some("last line".to_string()));
    assert_eq!(cpu_model("vendor: x\n"), None);
    assert_eq!(cpu_model(""), None);
}

#[test]
fn system_info_lines() {
    assert_eq!(whole_gib(17_179_869_184), 16);
    assert_eq!(whole_gib(1_073_741_823), 0);
    assert_eq!(
        system_info_text(Some("M1"), Some(17_179_869_184), Some("Darwin 23.0")),
        "**CPU**: M1\n**Memory**: 16 GB\n**OS**: Darwin 23.0\n"
    );
    assert_eq!(system_info_text(None, None, None), "**System**: Information not available\n");
    assert_eq!(system_info_text(None, Some(0), None), "**Memory**: 0 GB\n");
}
