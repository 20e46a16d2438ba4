use ark::profiler::{count_runs, exceeds_profile_limit, Profiler};

fn method_of(data: Vec<u8>) -> u8 {
    Profiler::new(data).profile()
}

#[test]
fn uniform_file_selects_rle1() {
    assert_eq!(method_of(vec![b'x'; 10]), 0x80);
}

#[test]
fn distinct_bytes_stay_stored() {
    assert_eq!(method_of((0u8..10).collect()), 0);
}

#[test]
fn average_of_exactly_two_stays_stored() {
    // 4 bytes, 2 runs
    assert_eq!(method_of(vec![1, 1, 2, 2]), 0);
    // 5 bytes, 2 runs: 2.5
    assert_eq!(method_of(vec![1, 1, 1, 2, 2]), 0x80);
}

#[test]
fn average_above_255_selects_rle2() {
    assert_eq!(method_of(vec![3u8; 255]), 0x80);
    assert_eq!(method_of(vec![3u8; 256]), 0x40);
    // 510 bytes in 2 runs is exactly 255
    assert_eq!(method_of([vec![1u8; 255], vec![2u8; 255]].concat()), 0x80);
    assert_eq!(method_of([vec![1u8; 256], vec![2u8; 255]].concat()), 0x40);
}

#[test]
fn methods_grow_with_run_length() {
    let mut last = 0;
    for run in 1..400usize {
        let data: Vec<u8> = (0..4).flat_map(|i| vec![i as u8; run]).collect();
        let m = method_of(data);
        let rank = match m {
            0 => 0,
            0x80 => 1,
            0x40 => 2,
            _ => panic!("unexpected method {}", m),
        };
        assert!(rank >= last);
        last = rank;
        let expected = if run <= 2 { 0 } else if run <= 255 { 0x80 } else { 0x40 };
        assert_eq!(m, expected);
    }
}

#[test]
fn empty_file_is_stored() {
    assert_eq!(method_of(vec![]), 0);
}

#[test]
fn runs_are_counted() {
    assert_eq!(count_runs(&vec![]), 0);
    assert_eq!(count_runs(&vec![5]), 1);
    assert_eq!(count_runs(&vec![5, 5, 6, 5, 5, 5]), 3);
}

#[test]
fn profiler_records_its_statistic() {
    let mut p = Profiler::new(vec![1, 1, 1, 2]);
    assert_eq!(p.profile(), 0);
    assert_eq!(p.runs, 2);
    assert_eq!(p.avg_run_len(), (4, 2));
    assert!(!p.rle && !p.two_byte_rle);
    assert_eq!(p.to_method(), 0);
    p.rle = true;
    assert_eq!(p.to_method(), 0x80);
    p.two_byte_rle = true;
    assert_eq!(p.to_method(), 0x40);
}

#[test]
fn gibibyte_files_are_not_profiled() {
    assert!(!exceeds_profile_limit(1073741823));
    assert!(exceeds_profile_limit(1073741824));
}

#[test]
fn profile_records_runs_and_flags() {
    let mut p = Profiler::new(vec![9u8; 300]);
    assert_eq!(p.profile(), 0x40);
    assert_eq!(p.runs, 1);
    assert!(p.two_byte_rle && !p.rle);
    let mut p = Profiler::new(vec![9u8; 30]);
    assert_eq!(p.profile(), 0x80);
    assert!(p.rle && !p.two_byte_rle);
}
