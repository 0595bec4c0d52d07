use rustscan::input::{Config, Opts, PortRange, ScanOrder};
use rustscan::limits::{
    adjust_ulimit, adjust_ulimit_size, batch_advice, infer_batch_size, limit_report, limit_request,
    BatchAdvice,
    LimitReport, Raise, UNLIMITED,
};

#[test]
fn batch_size_lowered() {
    let mut opts = Opts::default();
    opts.batch_size = 50_000;
    let batch_size = infer_batch_size(&opts, 120);

    assert!(batch_size < opts.batch_size);
}

#[test]
fn batch_size_lowered_average_size() {
    let mut opts = Opts::default();
    opts.batch_size = 50_000;
    let batch_size = infer_batch_size(&opts, 9_000);

    assert!(batch_size == 3_000);
}

#[test]
fn batch_size_equals_ulimit_lowered() {
    let mut opts = Opts::default();
    opts.batch_size = 50_000;
    let batch_size = infer_batch_size(&opts, 5_000);

    assert!(batch_size == 4_900);
}

#[test]
fn batch_size_adjusted_2000() {
    let mut opts = Opts::default();
    opts.batch_size = 50_000;
    opts.ulimit = Some(2_000);
    let batch_size = adjust_ulimit_size(&opts);

    assert!(batch_size == 2_000);
}

#[test]
fn test_high_ulimit_no_greppable_mode() {
    let mut opts = Opts::default();
    opts.batch_size = 10;
    opts.greppable = false;

    let batch_size = infer_batch_size(&opts, 1_000_000);

    assert!(batch_size == opts.batch_size);
}

#[test]
fn batch_size_is_half_of_a_very_small_limit() {
    let mut opts = Opts::default();
    opts.batch_size = 50_000;
    assert_eq!(infer_batch_size(&opts, 120), 60);
    assert_eq!(infer_batch_size(&opts, 2_999), 1_499);
    assert_eq!(infer_batch_size(&opts, 1), 0);
}

#[test]
fn batch_size_at_the_edges_of_the_table() {
    let mut opts = Opts::default();
    opts.batch_size = 50_000;
    assert_eq!(infer_batch_size(&opts, 3_000), 2_900);
    assert_eq!(infer_batch_size(&opts, 8_000), 7_900);
    assert_eq!(infer_batch_size(&opts, 8_001), 3_000);
    assert_eq!(infer_batch_size(&opts, 49_999), 3_000);
    assert_eq!(infer_batch_size(&opts, 50_000), 50_000);
    assert_eq!(infer_batch_size(&opts, u64::MAX), 50_000);
}

#[test]
fn batch_size_stays_within_request_and_limit() {
    let limits: [u64; 9] = [2, 3, 100, 2_999, 3_000, 5_000, 8_000, 8_001, 70_000];
    let requests: [u16; 6] = [1, 2, 10, 4_500, 9_000, 65_535];
    for limit in limits {
        for requested in requests {
            let mut opts = Opts::default();
            opts.batch_size = requested;
            let batch_size = infer_batch_size(&opts, limit) as u64;
            assert!(batch_size >= 1);
            assert!(batch_size <= std::cmp::max(requested as u64, limit));
        }
    }
}

#[test]
fn advice_follows_the_limit() {
    let mut opts = Opts::default();
    opts.batch_size = 4_500;
    assert_eq!(batch_advice(&opts, 10_000), BatchAdvice::RaiseBatchSize { suggested: 9_900 });
    assert_eq!(batch_advice(&opts, 4_500), BatchAdvice::RaiseBatchSize { suggested: 4_400 });
    assert_eq!(batch_advice(&opts, 4_000), BatchAdvice::LimitBelowBatchSize);
    assert_eq!(batch_advice(&opts, 120), BatchAdvice::VerySmallLimit);
    opts.batch_size = 10;
    assert_eq!(batch_advice(&opts, 50), BatchAdvice::RaiseBatchSize { suggested: 0 });
    opts.ulimit = Some(10_000);
    assert_eq!(batch_advice(&opts, 10_000), BatchAdvice::Nothing);
    assert_eq!(batch_advice(&opts, 5), BatchAdvice::VerySmallLimit);
}

#[test]
fn limit_report_tells_what_the_system_answered() {
    assert_eq!(
        limit_report(None, false, Some(1024)),
        LimitReport { limit: 1024, raise: Raise::NotAsked }
    );
    assert_eq!(
        limit_report(Some(5000), true, Some(5000)),
        LimitReport { limit: 5000, raise: Raise::Done }
    );
    assert_eq!(
        limit_report(Some(5000), false, Some(1024)),
        LimitReport { limit: 1024, raise: Raise::Refused }
    );
    assert_eq!(
        limit_report(None, true, None),
        LimitReport { limit: UNLIMITED, raise: Raise::NotAsked }
    );
}

#[test]
fn limit_is_read_without_a_wish() {
    let opts = Opts::default();
    let report = adjust_ulimit(&opts);
    assert_eq!(report.raise, Raise::NotAsked);
    assert!(report.limit > 0);
    assert_eq!(adjust_ulimit_size(&opts), report.limit);
}

#[test]
fn limit_follows_a_wish_that_the_system_takes() {
    let mut opts = Opts::default();
    opts.ulimit = Some(1_000);
    let report = adjust_ulimit(&opts);
    assert_eq!(report, LimitReport { limit: 1_000, raise: Raise::Done });
}

#[test]
fn default_options() {
    let opts = Opts::default();
    assert!(opts.addresses.is_empty());
    assert_eq!(opts.ports, None);
    assert_eq!(opts.range, None);
    assert_eq!(opts.batch_size, 4_500);
    assert_eq!(opts.timeout, 1_500);
    assert_eq!(opts.tries, 1);
    assert_eq!(opts.ulimit, None);
    assert!(!opts.greppable && !opts.accessible && !opts.no_nmap);
    assert!(opts.command.is_empty());
}

#[test]
fn command_line_counts_before_the_configuration_file() {
    let mut given = Config::default();
    given.addresses = Some(vec!["10.0.0.1".to_string()]);
    given.batch_size = Some(10);
    given.greppable = Some(false);
    given.ports = Some(vec![80]);
    let mut config = Config::default();
    config.addresses = Some(vec!["192.168.0.1".to_string(), "fixtures/hosts.txt".to_string()]);
    config.batch_size = Some(2_000);
    config.greppable = Some(true);
    config.timeout = Some(250);
    config.tries = Some(3);
    config.ulimit = Some(5_000);
    config.range = Some(PortRange { start: 1, end: 100 });
    config.scan_order = Some(ScanOrder::Random);
    config.command = Some(vec!["-A".to_string()]);
    config.no_nmap = Some(true);
    let opts = Opts::merge(given, config);
    assert_eq!(opts.addresses, ["10.0.0.1"]);
    assert_eq!(opts.batch_size, 10);
    assert!(!opts.greppable);
    assert_eq!(opts.ports, Some(vec![80]));
    assert_eq!(opts.timeout, 250);
    assert_eq!(opts.tries, 3);
    assert_eq!(opts.ulimit, Some(5_000));
    assert_eq!(opts.range, Some(PortRange { start: 1, end: 100 }));
    assert_eq!(opts.scan_order, ScanOrder::Random);
    assert_eq!(opts.command, ["-A"]);
    assert!(opts.no_nmap);
    assert!(!opts.accessible);
}

#[test]
fn defaults_stand_where_nothing_is_given() {
    let opts = Opts::merge(Config::default(), Config::default());
    let default = Opts::default();
    assert_eq!(opts.addresses, default.addresses);
    assert_eq!(opts.ports, None);
    assert_eq!(opts.range, None);
    assert_eq!(opts.batch_size, 4_500);
    assert_eq!(opts.timeout, 1_500);
    assert_eq!(opts.tries, 1);
    assert_eq!(opts.ulimit, None);
    assert_eq!(opts.scan_order, default.scan_order);
    assert!(opts.command.is_empty());
    assert!(!opts.greppable && !opts.accessible && !opts.no_nmap);
}

#[test]
fn one_limit_is_asked_for_as_soft_and_as_hard_limit() {
    let mut opts = Opts::default();
    assert_eq!(limit_request(&opts), None);
    opts.ulimit = Some(5_000);
    assert_eq!(limit_request(&opts), Some((5_000, 5_000)));
    opts.ulimit = Some(0);
    assert_eq!(limit_request(&opts), Some((0, 0)));
}
