use kv::{generate_id, log_path};

#[test]
fn log_path_formats_ids() {
    assert_eq!(log_path(0), "0.log");
    assert_eq!(log_path(7), "7.log");
    assert_eq!(log_path(1234567), "1234567.log");
    assert_eq!(log_path(u64::MAX), "18446744073709551615.log");
}

#[test]
fn generate_id_filters_and_sorts() {
    let names = vec![
        "2.log".to_string(),
        "10.log".to_string(),
        "1.log".to_string(),
        "junk.txt".to_string(),
        "a.log".to_string(),
        "3.logx".to_string(),
        String::new(),
        ".log".to_string(),
        "18446744073709551616.log".to_string(),
        "007.log".to_string(),
        "7.log".to_string(),
    ];
    assert_eq!(generate_id(&names), vec![1, 2, 7, 10]);
}

#[test]
fn generate_id_rejects_leading_zeros() {
    // the store never writes leading zeros, so such names are not segments
    assert_eq!(generate_id(&vec!["007.log".to_string()]), Vec::<u64>::new());
    assert_eq!(generate_id(&vec!["01.log".to_string()]), Vec::<u64>::new());
    assert_eq!(generate_id(&vec!["0.log".to_string()]), vec![0]);
}

#[test]
fn generate_id_accepts_largest_id() {
    let names = vec!["18446744073709551615.log".to_string()];
    assert_eq!(generate_id(&names), vec![u64::MAX]);
}

#[test]
fn generate_id_empty_listing() {
    assert_eq!(generate_id(&Vec::new()), Vec::<u64>::new());
}
