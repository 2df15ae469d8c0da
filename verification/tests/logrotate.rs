use raven_init::config::SystemConfig;
use raven_init::logrotate::{
    compressed, generation, human, is_rotated, Policy, Pruning, Report, Schedule, CHECK_INTERVAL_MS,
    DEFAULT_KEEP, DEFAULT_MAX_SIZE, DEFAULT_TOTAL_MAX, MAX_KEEP,
};

#[test]
fn a_rotated_generation_is_recognised_and_nothing_else_is() {
    assert!(is_rotated("dbus.log.1"));
    assert!(is_rotated("dbus.log.12"));
    assert!(is_rotated("dbus.log.1.gz"));
    assert!(is_rotated("init.log.5.gz"));

    assert!(!is_rotated("dbus.log"));
    assert!(!is_rotated("dbus.log.gz"));
    assert!(!is_rotated("dbus.log.keepme"));
    assert!(!is_rotated("dbus.log.1.keepme"));
    assert!(!is_rotated("notes.txt"));
    assert!(!is_rotated("1"));
}

#[test]
fn the_sweep_is_due_once_an_interval_however_often_it_is_asked() {
    let start: u64 = 5_000_000;
    let mut schedule = Schedule::due_now(start);

    assert!(schedule.due(start), "the first sweep is due immediately");
    for step in 1..30u64 {
        assert!(!schedule.due(start + step * 1000));
    }
    assert!(schedule.due(start + CHECK_INTERVAL_MS));

    let mut schedule = Schedule::due_now(start);
    assert!(schedule.due(start));
    assert!(schedule.due(start + 4 * 3600 * 1000));
    assert!(!schedule.due(start + (4 * 3600 + 1) * 1000));
}

#[test]
fn an_unreadable_size_falls_back_to_the_default_and_says_so() {
    let mut system = SystemConfig::default();
    let (policy, report) = Policy::from_system(&system);
    assert_eq!(policy.max_size, DEFAULT_MAX_SIZE);
    assert_eq!(policy.total_max, DEFAULT_TOTAL_MAX);
    assert_eq!(policy.keep, DEFAULT_KEEP);
    assert!(report.trouble.is_empty(), "{:?}", report.trouble);

    system.log_max_size = "ten megabytes".to_string();
    let (policy, report) = Policy::from_system(&system);
    assert_eq!(policy.max_size, DEFAULT_MAX_SIZE);
    assert_eq!(report.trouble.len(), 1, "{:?}", report.trouble);
    assert!(report.trouble[0].contains("log_max_size"));
    assert_eq!(
        report.trouble[0],
        "[system] log_max_size = \"ten megabytes\" is not a size; using 10.0M"
    );

    system.log_max_size = "10M".to_string();
    system.log_keep = 4_000_000_000;
    let (policy, report) = Policy::from_system(&system);
    assert_eq!(policy.keep, MAX_KEEP);
    assert_eq!(report.trouble.len(), 1, "{:?}", report.trouble);
    assert!(report.trouble[0].contains("log_keep"));
    system.log_keep = DEFAULT_KEEP;

    system.log_max_size = "64M".to_string();
    let (policy, _) = Policy::from_system(&system);
    assert_eq!(policy.max_size, 64 * 1024 * 1024);
    system.log_max_size = "max".to_string();
    let (policy, _) = Policy::from_system(&system);
    assert_eq!(policy.max_size, u64::MAX);
}

#[test]
fn a_per_file_limit_above_the_directory_cap_is_reported() {
    let mut system = SystemConfig::default();
    system.log_max_size = "500M".to_string();
    system.log_total_max = "200M".to_string();
    let (_, report) = Policy::from_system(&system);
    assert_eq!(report.trouble.len(), 1, "{:?}", report.trouble);
    assert!(report.trouble[0].contains("log_total_max"));
    assert_eq!(
        report.trouble[0],
        "[system] log_max_size (500.0M) is larger than log_total_max (200.0M); logs will be pruned before any of them is ever rotated"
    );
}

fn float_human(bytes: u64) -> String {
    const KIB: f64 = 1024.0;
    if bytes == u64::MAX {
        return "unlimited".to_string();
    }
    let value = bytes as f64;
    if bytes < 1024 {
        format!("{}B", bytes)
    } else if value < KIB * KIB {
        format!("{:.1}K", value / KIB)
    } else if value < KIB * KIB * KIB {
        format!("{:.1}M", value / (KIB * KIB))
    } else {
        format!("{:.2}G", value / (KIB * KIB * KIB))
    }
}

#[test]
fn byte_counts_read_as_the_float_formatting_prints_them() {
    assert_eq!(human(512), "512B");
    assert_eq!(human(1024), "1.0K");
    assert_eq!(human(10 * 1024 * 1024), "10.0M");
    assert_eq!(human(u64::MAX), "unlimited");
    assert_eq!(human(3 * 1024 * 1024 * 1024), "3.00G");
    let mut samples: Vec<u64> = vec![
        0, 1, 1023, 1024, 1075, 1076, 1126, 1127, 1536, 1048575, 1048576, 1101004, 1101005,
        1073741823, 1073741824, 1078110208, 1084479242, 1084479243, u64::MAX - 1, u64::MAX - 2048,
        (1u64 << 53) + 1, (1u64 << 53) + 3, (1u64 << 60) - 1, 9_999_999_999_999,
    ];
    let mut x: u64 = 0x9e3779b97f4a7c15;
    for _ in 0..20000 {
        x ^= x << 13;
        x ^= x >> 7;
        x ^= x << 17;
        samples.push(x >> (x % 64));
        samples.push(x % (1 << 31));
    }
    for b in samples {
        assert_eq!(human(b), float_human(b), "{b}");
    }
}

#[test]
fn generations_are_named_after_their_log() {
    assert_eq!(generation("/var/log/raven/dbus.log", 3), "/var/log/raven/dbus.log.3");
    assert_eq!(compressed("/var/log/raven/dbus.log.3"), "/var/log/raven/dbus.log.3.gz");
    let mut a = Report::new();
    let mut b = Report::new();
    b.done.push("Pruned x".to_string());
    a.absorb(b);
    assert_eq!(a.done, vec!["Pruned x".to_string()]);
}

#[test]
fn every_generation_a_rotation_writes_can_be_pruned_and_no_current_log_can() {
    for log in ["init.log", "cawd.log", ".log"] {
        assert!(!is_rotated(log));
        for n in [0u32, 1, 9, 10, 64] {
            assert!(is_rotated(&generation(log, n)));
            assert!(is_rotated(&compressed(&generation(log, n))));
        }
    }
}

#[test]
fn the_cap_frees_the_excess_and_says_what_is_left_when_it_cannot() {
    assert!(Pruning::start(100, u64::MAX).is_none());
    assert!(Pruning::start(100, 100).is_none());
    let mut p = Pruning::start(150, 100).expect("over the cap");
    assert!(p.wants_more());
    p.removed(30);
    assert!(p.wants_more());
    assert_eq!(p.still_holds(150), Some(120));
    p.removed(20);
    assert!(!p.wants_more());
    assert_eq!(p.still_holds(150), None);
}
