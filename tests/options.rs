use yjit::options::{parse_option, parse_usize, Options};

#[test]
fn defaults() {
    let o = Options::default();
    assert_eq!(o.exec_mem_size, 256);
    assert_eq!(o.call_threshold, 10);
    assert_eq!(o.max_versions, 4);
    assert!(!o.greedy_versioning);
    assert!(!o.no_type_prop);
    assert!(!o.gen_stats);
}

#[test]
fn numeric_options() {
    let mut o = Options::default();
    assert!(parse_option(&mut o, "exec-mem-size=64"));
    assert_eq!(o.exec_mem_size, 64);
    assert!(parse_option(&mut o, "call-threshold=+5"));
    assert_eq!(o.call_threshold, 5);
    assert!(parse_option(&mut o, "max-versions=1"));
    assert_eq!(o.max_versions, 1);
}

#[test]
fn rejected_numbers_change_nothing() {
    let mut o = Options::default();
    assert!(!parse_option(&mut o, "max-versions=abc"));
    assert!(!parse_option(&mut o, "max-versions="));
    assert!(!parse_option(&mut o, "max-versions=-1"));
    assert!(!parse_option(&mut o, "max-versions=18446744073709551616"));
    assert!(!parse_option(&mut o, "exec-mem-size"));
    assert_eq!(o, Options::default());
}

#[test]
fn flag_options() {
    let mut o = Options::default();
    assert!(parse_option(&mut o, "greedy-versioning"));
    assert!(parse_option(&mut o, "no-type-prop"));
    assert!(parse_option(&mut o, "stats="));
    assert!(o.greedy_versioning && o.no_type_prop && o.gen_stats);
    let mut p = Options::default();
    assert!(!parse_option(&mut p, "stats=1"));
    assert!(!parse_option(&mut p, "unknown-flag"));
    assert!(!parse_option(&mut p, ""));
    assert_eq!(p, Options::default());
}

#[test]
fn usize_parsing() {
    assert_eq!(parse_usize("0"), Some(0));
    assert_eq!(parse_usize("+42"), Some(42));
    assert_eq!(parse_usize("18446744073709551615"), Some(usize::MAX));
    assert_eq!(parse_usize("18446744073709551616"), None);
    assert_eq!(parse_usize("+"), None);
    assert_eq!(parse_usize(""), None);
    assert_eq!(parse_usize("1a"), None);
}
