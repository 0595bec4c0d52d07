use rustscan::benchmark::{Benchmark, NamedTimer};

#[test]
fn summary_without_timers_is_the_heading() {
    assert_eq!(Benchmark::init().summary(), "\nRustScan Benchmark Summary");
}

#[test]
fn summary_lists_the_timers_that_ended() {
    let mut benchmark = Benchmark::init();
    benchmark.push(NamedTimer::finished("Portscan", 1_234_567));
    benchmark.push(NamedTimer::start("Never"));
    benchmark.push(NamedTimer::finished("Nmap", 42));
    benchmark.push(NamedTimer::finished("RustScan", 61_000_000));
    benchmark.push(NamedTimer::finished("A name of some length", 1_000_001));
    benchmark.push(NamedTimer::finished("", 0));
    assert_eq!(
        benchmark.summary(),
        "\nRustScan Benchmark Summary\
         \nPortscan   | 1.234567s\
         \nNmap       | 0.000042s\
         \nRustScan   | 61.000000s\
         \nA name of some length | 1.000001s\
         \n           | 0.000000s"
    );
}

#[test]
fn names_are_counted_in_characters() {
    let mut benchmark = Benchmark::init();
    benchmark.push(NamedTimer::finished("Überprüfen", 9_999_999));
    benchmark.push(NamedTimer::finished("Zählung", 10_000_000));
    assert_eq!(
        benchmark.summary(),
        "\nRustScan Benchmark Summary\nÜberprüfen | 9.999999s\nZählung    | 10.000000s"
    );
}

#[test]
fn timer_holds_its_time_once_it_has_ended() {
    let mut timer = NamedTimer::start("Portscan");
    assert_eq!(timer.micros(), None);
    timer.end();
    let micros = timer.micros().unwrap();
    assert!(micros < 60_000_000);
    assert_eq!(NamedTimer::finished("Nmap", 5).micros(), Some(5));
    let mut benchmark = Benchmark::init();
    benchmark.push(timer);
    let summary = benchmark.summary();
    assert!(summary.starts_with("\nRustScan Benchmark Summary\nPortscan   | "));
    assert!(summary.ends_with("s"));
}
