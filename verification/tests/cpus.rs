use runperf::affinity::{numa_cpus, online_cpu_count, online_cpus, parse_cpulist, resolve_cpus};
use runperf::text::{parse_u64, parse_usize};

#[test]
fn cpulist_ranges_and_singles() {
    assert_eq!(parse_cpulist("0-3,8,10-11"), vec![0, 1, 2, 3, 8, 10, 11]);
}

#[test]
fn cpulist_trims_parts_and_bounds() {
    assert_eq!(parse_cpulist(" 1 , 2 - 4 ,\t7\n"), vec![1, 2, 3, 4, 7]);
    assert_eq!(parse_cpulist("\u{3000}5\u{a0}"), vec![5]);
}

#[test]
fn cpulist_skips_empty_and_bad_parts() {
    assert_eq!(parse_cpulist(""), Vec::<usize>::new());
    assert_eq!(parse_cpulist(",,"), Vec::<usize>::new());
    assert_eq!(parse_cpulist("a,2,x-3,4-y"), vec![2]);
    assert_eq!(parse_cpulist("-1"), Vec::<usize>::new());
    assert_eq!(parse_cpulist("1-2-3"), Vec::<usize>::new());
}

#[test]
fn cpulist_reversed_range_is_empty() {
    assert_eq!(parse_cpulist("3-1,6"), vec![6]);
    assert_eq!(parse_cpulist("2-2"), vec![2]);
}

#[test]
fn cpulist_numbers_follow_std_parse() {
    assert_eq!(parse_cpulist("+5"), vec![5]);
    assert_eq!(parse_cpulist("18446744073709551616,1"), vec![1]);
    assert_eq!(parse_cpulist("0x1,007"), vec![7]);
}

#[test]
fn cpulist_concatenation_law_example() {
    let a = "0-1,4";
    let b = "6,9-10";
    let mut joined = parse_cpulist(a);
    joined.extend(parse_cpulist(b));
    assert_eq!(parse_cpulist(&format!("{a},{b}")), joined);
}

#[test]
fn numbers_parse_like_std() {
    for s in ["0", "42", "+7", "", "+", "-0", " 1", "1 ", "18446744073709551615", "18446744073709551616", "٣"] {
        assert_eq!(parse_u64(s), s.parse::<u64>().ok(), "input {s:?}");
        assert_eq!(parse_usize(s), s.parse::<usize>().ok(), "input {s:?}");
    }
}

#[test]
fn online_cpus_from_mask() {
    assert_eq!(online_cpus(&Some(vec![false, true, true, false, true])), vec![1, 2, 4]);
    assert_eq!(online_cpu_count(&Some(vec![false, true, true, false, true])), 3);
}

#[test]
fn online_cpus_fall_back_to_cpu0() {
    assert_eq!(online_cpus(&Some(vec![false; 8])), vec![0]);
    assert_eq!(online_cpus(&None), vec![0]);
    assert_eq!(online_cpu_count(&None), 1);
    assert_eq!(online_cpu_count(&Some(vec![])), 1);
}

#[test]
fn numa_cpus_from_file_contents() {
    assert_eq!(numa_cpus(&Some("0-3,16-19\n".to_string())), vec![0, 1, 2, 3, 16, 17, 18, 19]);
    assert_eq!(numa_cpus(&None), Vec::<usize>::new());
}

#[test]
fn resolve_cpus_prefers_the_cpu_list() {
    let list = Some("2,3".to_string());
    let node = Some("0-1".to_string());
    assert_eq!(resolve_cpus(&list, &Some(0), &node), vec![2, 3]);
    assert_eq!(resolve_cpus(&None, &Some(0), &node), vec![0, 1]);
    assert_eq!(resolve_cpus(&None, &Some(0), &None), Vec::<usize>::new());
    assert_eq!(resolve_cpus(&None, &None, &node), Vec::<usize>::new());
}

#[test]
fn cpulist_round_trip_keeps_order_and_repeats() {
    assert_eq!(parse_cpulist("3,1-2,2"), vec![3, 1, 2, 2]);
    let v: Vec<usize> = vec![7, 0, 7, 12, 3];
    let text = v.iter().map(|c| c.to_string()).collect::<Vec<_>>().join(",");
    assert_eq!(parse_cpulist(&text), v);
    assert_eq!(parse_cpulist(&usize::MAX.to_string()), vec![usize::MAX]);
}
