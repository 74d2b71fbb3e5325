use memprof::memory::{extract_number, peek, procfile, MemoryError, TopicalUsage};
use nix::unistd::Pid;

#[test]
fn get_value() {
    let result = extract_number("VmPeak:	  241296 kB", "VmPeak:");

    match result {
        Some(value) => assert_eq!(value, 241296u64),
        None => panic!("Failed to extract number"),
    }
}

#[test]
fn proc_file() {
    let filename = procfile(Pid::from_raw(1).as_raw());

    assert_eq!(filename, "/proc/1/status")
}

#[test]
fn get_usage() {
    let usage = TopicalUsage::from(&vec![1, 2, 3, 4]);

    assert_eq!(usage.r_size(), 1u64);
    assert_eq!(usage.r_peak(), 2u64);
    assert_eq!(usage.v_size(), 3u64);
    assert_eq!(usage.v_peak(), 4u64);
}

#[test]
fn nil_usage() {
    let usage = TopicalUsage::from(&vec![1, 0, 0, 0]);
    assert_eq!(usage.empty(), false);

    let usage = TopicalUsage::from(&vec![0, 0, 256, 0]);
    assert_eq!(usage.empty(), false);

    let usage = TopicalUsage::from(&vec![0, 0, 0, 0]);
    assert!(usage.empty());
}

fn status_text() -> Vec<String> {
    vec![
        String::from("Name:\tsleep"),
        String::from("Umask:\t0022"),
        String::from("State:\tS (sleeping)"),
        String::from("Pid:\t4242"),
        String::from("VmPeak:\t    8264 kB"),
        String::from("VmSize:\t    8200 kB"),
        String::from("VmLck:\t       0 kB"),
        String::from("VmHWM:\t     916 kB"),
        String::from("VmRSS:\t     812 kB"),
        String::from("Threads:\t1"),
    ]
}

#[test]
fn peek_self() {
    let lines = status_text();
    let result = peek(Some(&lines));

    match result {
        Ok(usage) => assert_eq!(usage.empty(), false),
        Err(e) => panic!("Failed to get memory usage: {:?}", e),
    }
}

#[test]
fn peek_reads_each_counter_from_its_key() {
    let lines = status_text();
    let usage = peek(Some(&lines)).unwrap();

    assert_eq!(usage.r_size(), 812);
    assert_eq!(usage.r_peak(), 916);
    assert_eq!(usage.v_size(), 8200);
    assert_eq!(usage.v_peak(), 8264);
}

#[test]
fn peek_keeps_the_last_number_of_a_counter() {
    let lines = vec![
        String::from("VmRSS:\t 10 kB"),
        String::from("VmRSS:\t 20 kB"),
        String::from("VmRSS:\t twenty kB"),
    ];
    let usage = peek(Some(&lines)).unwrap();

    assert_eq!(usage.r_size(), 20);
    assert_eq!(usage.r_peak(), 0);
    assert_eq!(usage.v_size(), 0);
    assert_eq!(usage.v_peak(), 0);
}

#[test]
fn peek_without_counters() {
    let lines = vec![String::from("Name:\tsleep"), String::from("VmRSS:\t 0 kB")];

    assert_eq!(peek(Some(&lines)).err(), Some(MemoryError::NoData));
    assert_eq!(peek(Some(&Vec::new())).err(), Some(MemoryError::NoData));
}

#[test]
fn peek_without_status_text() {
    assert_eq!(peek(None).err(), Some(MemoryError::NotFound));
}

#[test]
fn extract_number_of_a_peak_line() {
    assert_eq!(extract_number("VmPeak:\t   1024 kB", "VmPeak:"), Some(1024));
}

#[test]
fn extract_number_needs_key_unit_and_number() {
    assert_eq!(extract_number("VmPeak:\t   1024 kB", "VmSize:"), None);
    assert_eq!(extract_number(" VmPeak:\t   1024 kB", "VmPeak:"), None);
    assert_eq!(extract_number("VmPeak:\t   1024 MB", "VmPeak:"), None);
    assert_eq!(extract_number("VmPeak:\t   1024 kB ", "VmPeak:"), None);
    assert_eq!(extract_number("VmPeak:\t   10 24 kB", "VmPeak:"), None);
    assert_eq!(extract_number("VmPeak:\t   -1 kB", "VmPeak:"), None);
    assert_eq!(extract_number("VmPeak: kB", "VmPeak:"), None);
    assert_eq!(extract_number("VmPeak:", "VmPeak:"), None);
    assert_eq!(extract_number("", "VmPeak:"), None);
}

#[test]
fn extract_number_reads_as_the_standard_library_does() {
    assert_eq!(extract_number("VmPeak:+7kB", "VmPeak:"), Some(7));
    assert_eq!(extract_number("VmPeak:\u{a0}007\u{3000}kB", "VmPeak:"), Some(7));
    assert_eq!(
        extract_number("VmPeak: 18446744073709551615 kB", "VmPeak:"),
        Some(u64::MAX)
    );
    assert_eq!(extract_number("VmPeak: 18446744073709551616 kB", "VmPeak:"), None);
    assert_eq!(extract_number("kB", ""), None);
    assert_eq!(extract_number("5kB", ""), Some(5));
}

#[test]
fn proc_file_of_other_numbers() {
    assert_eq!(procfile(0), "/proc/0/status");
    assert_eq!(procfile(4242), "/proc/4242/status");
    assert_eq!(procfile(-1), "/proc/-1/status");
    assert_eq!(procfile(i32::MAX), "/proc/2147483647/status");
    assert_eq!(procfile(i32::MIN), "/proc/-2147483648/status");
}
