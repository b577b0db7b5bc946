use runperf::args::{client_threads, flag, has, server_cpus};
use runperf::guard::{
    client_buffer_bytes, mem_available_bytes, mem_available_kb, oom_guard, server_buffer_bytes,
    OomRefusal,
};

fn args(v: &[&str]) -> Vec<String> {
    v.iter().map(|s| s.to_string()).collect()
}

#[test]
fn flag_takes_the_next_argument() {
    let a = args(&["client", "--connect", "10.0.0.2:5201", "--len", "64", "--len", "128"]);
    assert_eq!(flag(&a, "--connect"), Some("10.0.0.2:5201".to_string()));
    assert_eq!(flag(&a, "--len"), Some("64".to_string()));
    assert_eq!(flag(&a, "--udp"), None);
}

#[test]
fn flag_as_last_argument_has_no_value() {
    let a = args(&["server", "--bind"]);
    assert_eq!(flag(&a, "--bind"), None);
}

#[test]
fn has_finds_switches() {
    let a = args(&["client", "--udp", "--json"]);
    assert!(has(&a, "--udp"));
    assert!(has(&a, "--json"));
    assert!(!has(&a, "--xdp"));
    assert!(!has(&a, "--ud"));
}

const MEMINFO: &str = "MemTotal:       16318480 kB\nMemFree:         1234567 kB\nMemAvailable:    8000000 kB\nBuffers:          100 kB\n";

#[test]
fn meminfo_available() {
    assert_eq!(mem_available_kb(MEMINFO), Some(8000000));
    assert_eq!(mem_available_bytes(MEMINFO), Some(8000000 * 1024));
}

#[test]
fn meminfo_first_matching_line_decides() {
    assert_eq!(mem_available_kb("MemAvailable: x kB\nMemAvailable: 5 kB\n"), None);
    assert_eq!(mem_available_kb("MemAvailable:\nMemAvailable: 5 kB\n"), None);
    assert_eq!(mem_available_kb(" MemAvailable: 3\r\nMemAvailable:\t7\r\n"), Some(7));
    assert_eq!(mem_available_kb("MemTotal: 5 kB\n"), None);
    assert_eq!(mem_available_kb(""), None);
}

#[test]
fn oom_guard_quarter_of_available() {
    let four_gib = 4u64 << 30;
    assert_eq!(oom_guard(1 << 30, Some(four_gib)), Ok(()));
    assert_eq!(
        oom_guard((1 << 30) + 1, Some(four_gib)),
        Err(OomRefusal { planned_mib: 1024, cap_mib: 1024 })
    );
}

#[test]
fn oom_guard_default_cap() {
    assert_eq!(oom_guard(1 << 30, None), Ok(()));
    assert_eq!(oom_guard(3 << 30, None), Err(OomRefusal { planned_mib: 3072, cap_mib: 1024 }));
}

#[test]
fn buffer_sizes() {
    assert_eq!(server_buffer_bytes(1400), Some(64 * 2048));
    assert_eq!(server_buffer_bytes(9000), Some(64 * 9000));
    assert_eq!(client_buffer_bytes(true, 4, 1400), Some(4 * 64 * 1400));
    assert_eq!(client_buffer_bytes(false, 2, 1400), Some(2 * 256 * 1024));
    assert_eq!(client_buffer_bytes(true, usize::MAX, 2), None);
    assert_eq!(server_buffer_bytes(usize::MAX), None);
}

#[test]
fn client_thread_defaults() {
    assert_eq!(client_threads(None, false, 8), 1);
    assert_eq!(client_threads(None, true, 8), 8);
    assert_eq!(client_threads(Some(3), true, 8), 3);
    assert_eq!(client_threads(Some(3), false, 8), 3);
}

#[test]
fn server_cpus_default_to_online() {
    assert_eq!(server_cpus(&vec![2, 3], &vec![0, 1, 2, 3]), vec![2, 3]);
    assert_eq!(server_cpus(&vec![], &vec![0, 1, 2, 3]), vec![0, 1, 2, 3]);
}
