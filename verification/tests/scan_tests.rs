use port_sniffer::aggregate::aggregate;
use port_sniffer::scan::plan_workers;
use port_sniffer::scan::scan_static;
use port_sniffer::scan::validate_worker_count;
use port_sniffer::scan::ScanError;
use port_sniffer::scan::Target;

#[test]
fn listeners_on_two_ports_with_four_workers() {
    let result = scan_static(4, &vec![22, 8080]).unwrap();
    assert_eq!(result, vec![22, 8080]);
}

#[test]
fn no_listeners_gives_empty_result_not_an_error() {
    let result = scan_static(4, &vec![]).unwrap();
    assert_eq!(result, Vec::<u16>::new());
}

#[test]
fn zero_workers_is_a_configuration_error() {
    assert_eq!(scan_static(0, &vec![22]), Err(ScanError::ConfigurationError));
    assert_eq!(validate_worker_count(0), Err(ScanError::ConfigurationError));
    assert!(plan_workers(Target::V4(127, 0, 0, 1), 0).is_err());
}

#[test]
fn repeated_scans_yield_identical_results() {
    let listeners = vec![443, 22, 8080, 65535];
    let a = scan_static(4, &listeners).unwrap();
    let b = scan_static(4, &listeners).unwrap();
    assert_eq!(a, b);
    let c = scan_static(9, &listeners).unwrap();
    assert_eq!(a, c);
}

#[test]
fn result_set_is_strictly_ascending_without_duplicates() {
    let result = scan_static(3, &vec![8080, 22, 22, 80, 1, 65535]).unwrap();
    assert_eq!(result, vec![1, 22, 80, 8080, 65535]);
    for w in result.windows(2) {
        assert!(w[0] < w[1]);
    }
}

#[test]
fn listener_outside_the_port_space_is_not_reported() {
    let result = scan_static(4, &vec![0, 65535]).unwrap();
    assert_eq!(result, vec![65535]);
}

#[test]
fn positive_worker_counts_are_accepted() {
    assert_eq!(validate_worker_count(1), Ok(1));
    assert_eq!(validate_worker_count(4), Ok(4));
    assert_eq!(validate_worker_count(65535), Ok(65535));
}

#[test]
fn plan_has_one_config_per_worker_sharing_the_target() {
    let target = Target::V6(0, 0, 0, 0, 0, 0, 0, 1);
    let plan = plan_workers(target, 4).unwrap();
    assert_eq!(plan.len(), 4);
    for (i, cfg) in plan.iter().enumerate() {
        assert_eq!(cfg.id as usize, i);
        assert_eq!(cfg.worker_count, 4);
        assert!(cfg.target == target);
    }
}

#[test]
fn aggregate_sorts_ascending_and_keeps_every_report() {
    let sorted = aggregate(&vec![8080, 22, 22, 5]);
    assert_eq!(sorted, vec![5, 22, 22, 8080]);
    assert_eq!(aggregate(&vec![]), Vec::<u16>::new());
}

#[test]
fn boundary_worker_counts_scan_correctly() {
    let result = scan_static(1, &vec![65535, 1]).unwrap();
    assert_eq!(result, vec![1, 65535]);
    let result = scan_static(65535, &vec![70, 7]).unwrap();
    assert_eq!(result, vec![7, 70]);
}
