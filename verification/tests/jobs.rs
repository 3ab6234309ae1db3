use anza_xtask::commands::jobs::{
    div_round, env_count, jobs, memsize_from_sysctl, parse_meminfo, BYTES_PER_JOB,
};

const GIB: u64 = 1024 * 1024 * 1024;

#[test]
fn meminfo_is_parsed_as_kilobytes() {
    let meminfo = "\
MemTotal:       32819516 kB
MemFree:         1234567 kB
";
    assert_eq!(parse_meminfo(meminfo).unwrap(), 32819516 * 1024);
}

#[test]
fn missing_memtotal_is_an_error() {
    assert!(parse_meminfo("MemFree: 1234 kB\n").is_err());
}

#[test]
fn memory_is_rounded_to_nearest_job() {
    assert_eq!(div_round(16 * GIB, BYTES_PER_JOB), 4);
    assert_eq!(div_round(30 * GIB, BYTES_PER_JOB), 8);
    assert_eq!(div_round(29 * GIB, BYTES_PER_JOB), 7);
    assert_eq!(div_round(GIB, BYTES_PER_JOB), 0);
}

#[test]
fn meminfo_errors_say_what_is_wrong() {
    assert_eq!(parse_meminfo("MemFree: 1 kB\n").unwrap_err().to_string(), "no MemTotal in /proc/meminfo");
    assert_eq!(
        parse_meminfo("MemTotal:   \n").unwrap_err().to_string(),
        "empty MemTotal in /proc/meminfo"
    );
    assert_eq!(
        parse_meminfo("MemTotal: lots kB\n").unwrap_err().to_string(),
        "failed to parse MemTotal `lots`"
    );
    assert_eq!(
        parse_meminfo("MemTotal: 18446744073709551615 kB\n").unwrap_err().to_string(),
        "MemTotal `18446744073709551615` kB overflows"
    );
    // Only a line that starts with the key counts, and CRLF endings are fine.
    assert_eq!(parse_meminfo("X MemTotal: 5 kB\r\nMemTotal:\t7 kB\r\n").unwrap(), 7 * 1024);
}

#[test]
fn div_round_by_zero_is_zero() {
    assert_eq!(div_round(5, 0), 0);
    assert_eq!(div_round(u64::MAX, 2), u64::MAX / 2);
}

#[test]
fn env_counts_are_trimmed_and_checked() {
    assert_eq!(env_count(None, "JOBS").unwrap(), None);
    assert_eq!(env_count(Some(""), "JOBS").unwrap(), None);
    assert_eq!(env_count(Some(" 12\n"), "JOBS").unwrap(), Some(12));
    assert_eq!(
        env_count(Some("many"), "JOBS").unwrap_err().to_string(),
        "failed to parse JOBS=`many`"
    );
}

#[test]
fn jobs_override_wins() {
    assert_eq!(jobs(Some("3"), 0, 0, Some("bogus")).unwrap(), 3);
}

#[test]
fn jobs_are_capped_by_memory_and_cpus() {
    // 64 GiB allows 16 jobs; 8 CPUs allow 8.
    assert_eq!(jobs(None, 64 * GIB, 8, None).unwrap(), 8);
    assert_eq!(jobs(None, 16 * GIB, 32, None).unwrap(), 4);
    // Split across three host slots, rounding up.
    assert_eq!(jobs(None, 64 * GIB, 8, Some("3")).unwrap(), 3);
    // Never fewer than one.
    assert_eq!(jobs(None, GIB, 8, None).unwrap(), 1);
    assert_eq!(jobs(None, 64 * GIB, 2, Some("8")).unwrap(), 1);
    assert_eq!(
        jobs(None, 64 * GIB, 8, Some("x")).unwrap_err().to_string(),
        "failed to parse CI_HOST_SLOTS=`x`"
    );
}

#[test]
fn sysctl_output_is_read() {
    assert_eq!(memsize_from_sysctl(true, Some("17179869184\n"), "").unwrap(), 16 * GIB);
    assert_eq!(
        memsize_from_sysctl(false, Some(""), " no such key \n").unwrap_err().to_string(),
        "`sysctl -n hw.memsize` failed: no such key"
    );
    assert_eq!(memsize_from_sysctl(true, None, "").unwrap_err().to_string(), "`sysctl` output is not utf-8");
    assert_eq!(
        memsize_from_sysctl(true, Some(" 12x "), "").unwrap_err().to_string(),
        "failed to parse hw.memsize `12x`"
    );
}
