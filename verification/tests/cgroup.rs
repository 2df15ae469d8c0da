use raven_init::cgroup::{
    controllers_to_enable, parse_size, rlimits_for, Cgroup, ChildResources, CpuStat, Rlimit,
};
use raven_init::config::{ResourceLimits, ServiceConfig};

#[test]
fn sizes_are_binary_multiples_and_suffixes_are_optional() {
    assert_eq!(parse_size("0"), Some(0));
    assert_eq!(parse_size("512"), Some(512));
    assert_eq!(parse_size("512B"), Some(512));
    assert_eq!(parse_size("64K"), Some(64 * 1024));
    assert_eq!(parse_size("2M"), Some(2 * 1024 * 1024));
    assert_eq!(parse_size("2G"), Some(2 * 1024 * 1024 * 1024));
    assert_eq!(parse_size(" 1 g "), Some(1024 * 1024 * 1024));
    assert_eq!(parse_size("1MiB"), Some(1024 * 1024));
    assert_eq!(parse_size("1mb"), Some(1024 * 1024));
}

#[test]
fn the_words_for_no_limit_all_mean_rlim_infinity() {
    assert_eq!(parse_size("max"), Some(u64::MAX));
    assert_eq!(parse_size("unlimited"), Some(u64::MAX));
    assert_eq!(parse_size("Infinity"), Some(u64::MAX));
}

#[test]
fn a_size_that_is_not_a_size_is_refused_rather_than_guessed_at() {
    assert_eq!(parse_size(""), None);
    assert_eq!(parse_size("   "), None);
    assert_eq!(parse_size("G"), None);
    assert_eq!(parse_size("2 gigabytes"), None);
    assert_eq!(parse_size("-1"), None);
    assert_eq!(parse_size("1.5G"), None);
    assert_eq!(parse_size("16P"), None);
    assert_eq!(parse_size("16777216T"), None);
    assert_eq!(parse_size("99999999999999999999"), None);
}

#[test]
fn a_name_that_is_not_a_directory_name_gets_no_cgroup() {
    assert!(Cgroup::for_service_in("/nonexistent-cgroup-root", "../elsewhere", true).is_none());
    assert!(Cgroup::for_service_in("/nonexistent-cgroup-root", "a/b", true).is_none());
    assert!(Cgroup::for_service_in("/nonexistent-cgroup-root", ".hidden", true).is_none());
    assert!(Cgroup::for_service_in("/nonexistent-cgroup-root", "", true).is_none());
}

#[test]
fn a_root_that_is_not_cgroup2_gives_no_cgroup() {
    assert!(Cgroup::for_service_in("/tmp/not-a-cgroup2-tree", "anything", false).is_none());
    assert!(Cgroup::for_service("dbus", false).is_none());
    assert!(Cgroup::for_service("dbus", true).is_some());
}

#[test]
fn a_service_cgroup_lives_in_the_slice() {
    let cg = Cgroup::for_service_in("/sys/fs/cgroup", "dbus", true).unwrap();
    assert_eq!(cg.path(), "/sys/fs/cgroup/raven.slice/dbus");
    assert_eq!(cg.name(), "dbus");
    assert_eq!(cg.procs(), "/sys/fs/cgroup/raven.slice/dbus/cgroup.procs");
    let cg = Cgroup::for_service_in("/tmp/root/", "x", true).unwrap();
    assert_eq!(cg.path(), "/tmp/root/raven.slice/x");
    assert!(Cgroup::existing_in("/sys/fs/cgroup", "never-ran", false).is_none());
    assert!(Cgroup::existing_in("/sys/fs/cgroup", "../elsewhere", true).is_none());
    assert!(Cgroup::existing("dbus", true).is_some());
}

#[test]
fn a_service_cgroup_carries_the_limits_from_its_definition() {
    let cg = Cgroup::for_service_in("/sys/fs/cgroup", "limited", true).expect("a cgroup");
    let mut config = ServiceConfig::default();
    config.name = "limited".to_string();
    config.memory_max = Some("256M".to_string());
    config.cpu_weight = Some(200);
    config.io_weight = Some(99999);
    let limits = cg.apply(&config);
    let writes: Vec<(String, String)> =
        limits.writes.iter().map(|w| (w.file.clone(), w.value.clone())).collect();
    assert_eq!(
        writes,
        vec![
            ("memory.max".to_string(), (256u64 * 1024 * 1024).to_string()),
            ("cpu.weight".to_string(), "200".to_string()),
            ("io.weight".to_string(), "10000".to_string()),
        ]
    );
    assert_eq!(
        limits.warnings,
        vec!["limited: io_weight = 99999 is outside 1..10000; using 10000".to_string()]
    );

    config.memory_max = Some("max".to_string());
    config.cpu_weight = Some(0);
    config.io_weight = None;
    let limits = cg.apply(&config);
    assert_eq!(limits.writes[0].value, "max");
    assert_eq!(limits.writes[1].value, "1");
    assert_eq!(limits.writes.len(), 2);

    config.memory_max = Some("lots".to_string());
    config.cpu_weight = None;
    let limits = cg.apply(&config);
    assert!(limits.writes.is_empty());
    assert_eq!(
        limits.warnings,
        vec!["limited: memory_max = \"lots\" is not a size; expected 512M, 2G or max".to_string()]
    );
}

#[test]
fn the_counters_are_read_out_of_the_files_the_kernel_writes() {
    let cg = Cgroup::existing_in("/sys/fs/cgroup", "measured", true).expect("the directory is there");
    assert_eq!(cg.memory_current(Some("149118976\n")), Some(149_118_976));
    assert_eq!(cg.pids_current(Some("4\n")), Some(4));
    assert_eq!(
        cg.cpu_stat(Some(
            "usage_usec 3104711\nuser_usec 2900000\nsystem_usec 204711\nnr_periods 0\n             nr_throttled 0\nthrottled_usec 0\n"
        )),
        Some(CpuStat { usage_usec: 3_104_711, user_usec: 2_900_000, system_usec: 204_711 })
    );
    assert_eq!(cg.memory_current(None), None);
    assert_eq!(cg.memory_current(Some("")), None);
    assert_eq!(cg.cpu_stat(None), None);
}

#[test]
fn only_missing_controllers_are_delegated() {
    assert_eq!(
        controllers_to_enable("cpuset cpu io memory hugetlb pids rdma misc\n", "cpu\n"),
        vec!["memory".to_string(), "io".to_string(), "pids".to_string()]
    );
    assert_eq!(controllers_to_enable("cpu memory pids\n", ""), vec!["memory", "cpu", "pids"]);
    assert!(controllers_to_enable("", "").is_empty());
}

#[test]
fn limits_become_setrlimit_arguments() {
    let limits = ResourceLimits {
        nofile: Some(8192),
        nproc: None,
        memlock: Some("64M".to_string()),
        core: Some("huge".to_string()),
    };
    let (settings, warnings) = rlimits_for("cawd", &limits);
    assert_eq!(settings, vec![(Rlimit::Nofile, 8192), (Rlimit::Memlock, 64 * 1024 * 1024)]);
    assert_eq!(
        warnings,
        vec!["cawd: limits.core = \"huge\" is not a size; expected 64M, 0 or unlimited".to_string()]
    );
}

#[test]
fn the_child_gets_exactly_what_was_asked_for() {
    let mut config = ServiceConfig::default();
    config.name = "x".to_string();
    let (plan, _) = ChildResources::prepare(&config, None);
    assert!(plan.is_empty());

    config.oom_score_adj = -500;
    config.nice = 5;
    let cg = Cgroup::for_service_in("/sys/fs/cgroup", "x", true).unwrap();
    let (plan, _) = ChildResources::prepare(&config, Some(&cg));
    assert_eq!(plan.oom_score_adj.as_deref(), Some("-500\n"));
    assert_eq!(plan.nice, Some(5));
    assert_eq!(plan.procs.as_deref(), Some("/sys/fs/cgroup/raven.slice/x/cgroup.procs"));
    assert!(!plan.is_empty());
}

#[test]
fn a_size_is_its_digits_times_its_suffix_whatever_the_spacing_and_case() {
    assert_eq!(parse_size(" \t64 KiB \n"), Some(64 * 1024));
    assert_eq!(parse_size("3Tb"), Some(3 * 1024 * 1024 * 1024 * 1024));
    assert_eq!(parse_size("7 B"), Some(7));
    assert_eq!(parse_size(" Unlimited "), Some(u64::MAX));
    assert_eq!(parse_size("INFINITY"), Some(u64::MAX));
    // 2^54 tebibytes does not fit.
    assert_eq!(parse_size("18014398509481984 t"), None);
}
