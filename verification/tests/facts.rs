use oxidfetch::module::{convert_kilobytes, convert_seconds, host, memory, os, u64_dec, uptime};

#[test]
fn seconds_formatting() {
    assert_eq!(convert_seconds(0), "");
    assert_eq!(convert_seconds(59), "");
    assert_eq!(convert_seconds(60), "1m ");
    assert_eq!(convert_seconds(3661), "1h 1m ");
    assert_eq!(convert_seconds(86400 + 3600 + 60), "1d 1h 1m ");
    assert_eq!(convert_seconds(2 * 86400 + 120), "2d 2m ");
}

#[test]
fn kilobytes_formatting() {
    assert_eq!(convert_kilobytes(0), "0 kB");
    assert_eq!(convert_kilobytes(1), "1 kB");
    assert_eq!(convert_kilobytes(500), "500 kB");
    assert_eq!(convert_kilobytes(1500), "1.5 MB");
    assert_eq!(convert_kilobytes(1234567), "1.23 GB");
    assert_eq!(convert_kilobytes(999996), "1000 MB");
    assert_eq!(convert_kilobytes(12_000_000_000), "12 TB");
}

#[test]
fn decimal_formatting() {
    assert_eq!(u64_dec(0), "0");
    assert_eq!(u64_dec(7), "7");
    assert_eq!(u64_dec(12345), "12345");
    assert_eq!(u64_dec(u64::MAX), "18446744073709551615");
}

#[test]
fn host_fetch_names_user_and_host() {
    let pair = host::fetch();
    assert_eq!(pair.len(), 2);
}

#[test]
fn live_queries_answer() {
    let _ = os::fetch();
    let _ = uptime::fetch();
    let mem = memory::fetch();
    assert!(mem.contains('/'));
}
