use raven_init::config::{InitConfig, ServiceConfig};
use raven_init::control::{
    describe_state, dispatch, enabled_written, format_ago, format_bytes, format_row, list_services,
    reconcile, reload_config, set_enabled, status_one, stop_service, unknown_service,
    wants_quick_tick, Action, EnableStep, Publication, Routed, StatusPublisher, Verb, STATUS_DIR,
};
use raven_init::service::{Service, ServiceSnapshot};

fn def(name: &str) -> ServiceConfig {
    let mut c = ServiceConfig::default();
    c.name = name.to_string();
    c.description = format!("The {name} daemon");
    c.exec_path = format!("/sbin/{name}");
    c
}

fn running(cfg: &ServiceConfig, pid: u32) -> Service {
    let mut s = ServiceSnapshot::default();
    s.pid = Some(pid);
    s.started_mono = Some(1_500);
    Service::adopt(s, cfg.clone())
}

fn stopped(cfg: &ServiceConfig) -> Service {
    Service::adopt(ServiceSnapshot::default(), cfg.clone())
}

fn config_of(services: Vec<ServiceConfig>) -> InitConfig {
    let mut c = InitConfig::default_empty();
    c.services = services;
    c
}

fn reply(r: Routed) -> (String, Action) {
    match r {
        Routed::Reply(t, a) => (t, a),
        Routed::Run(..) => panic!("expected a reply"),
    }
}

fn run(r: Routed) -> (Verb, Option<String>) {
    match r {
        Routed::Run(v, t) => (v, t),
        Routed::Reply(t, _) => panic!("expected work, got {t}"),
    }
}

#[test]
fn verbs_route_to_their_work() {
    assert_eq!(run(dispatch("list", false)), (Verb::List, None));
    assert_eq!(run(dispatch("status", false)), (Verb::List, None));
    assert_eq!(run(dispatch("  status   sshd  ", false)), (Verb::Status, Some("sshd".to_string())));
    assert_eq!(run(dispatch("restart dbus", false)), (Verb::Restart, Some("dbus".to_string())));
    assert_eq!(run(dispatch("reload", false)), (Verb::Reload, None));
    assert_eq!(run(dispatch("reexec", false)), (Verb::Reexec, None));
    assert_eq!(run(dispatch("blame", false)), (Verb::Blame, None));
}

#[test]
fn machine_verbs_answer_at_once() {
    assert_eq!(reply(dispatch("poweroff", false)), ("Powering off\n".to_string(), Action::Poweroff));
    assert_eq!(reply(dispatch("halt", false)), ("Powering off\n".to_string(), Action::Poweroff));
    assert_eq!(reply(dispatch("reboot", false)), ("Rebooting\n".to_string(), Action::Reboot));
    assert_eq!(reply(dispatch("sleep", false)), ("Suspending\n".to_string(), Action::Suspend));
}

#[test]
fn a_session_supervisor_refuses_the_machine() {
    let (text, action) = reply(dispatch("reboot", true));
    assert_eq!(action, Action::Nothing);
    assert_eq!(
        text,
        "error: 'reboot' acts on the machine, and this raven-init supervises a session; use raven-rc without --user\n"
    );
    assert_eq!(run(dispatch("list", true)), (Verb::List, None));
}

#[test]
fn a_verb_without_its_name_says_so_and_nonsense_is_listed() {
    assert_eq!(reply(dispatch("start", false)), ("error: start needs a service name\n".to_string(), Action::Nothing));
    assert_eq!(reply(dispatch("", false)), ("error: empty request\n".to_string(), Action::Nothing));
    let (text, _) = reply(dispatch("frobnicate x", false));
    assert!(text.starts_with("error: unknown command 'frobnicate'\ncommands: list, status [NAME]"));
}

#[test]
fn a_row_is_padded_into_columns() {
    assert_eq!(
        format_row("sshd", "running", Some(412), "enabled", "OpenSSH"),
        "sshd                 running               412      enabled   OpenSSH\n"
    );
    assert_eq!(
        format_row("a-very-long-service-name-indeed", "stopped", None, "-", ""),
        "a-very-long-service-name-indeed stopped               -        -         \n"
    );
}

#[test]
fn the_listing_keeps_configuration_order_and_sorts_the_rest() {
    let a = def("zeta");
    let b = def("alpha");
    let config = config_of(vec![a.clone(), b.clone()]);
    let mut extra_b = def("getty-b");
    extra_b.description = "Fallback".to_string();
    let extra_a = def("getty-a");
    let services = vec![running(&extra_b, 7), running(&a, 9), running(&extra_a, 8)];
    let text = list_services(&services, &config);
    let lines: Vec<&str> = text.lines().collect();
    assert_eq!(lines.len(), 5);
    assert!(lines[0].starts_with("SERVICE"));
    assert!(lines[1].starts_with("zeta                 running               9 "));
    assert!(lines[2].starts_with("alpha                stopped               -        enabled"));
    assert!(lines[3].starts_with("getty-a"));
    assert!(lines[4].starts_with("getty-b"));
    assert!(lines[4].ends_with("-         Fallback"));
}

#[test]
fn a_stopped_by_request_service_says_so() {
    let cfg = def("cups");
    let mut svc = stopped(&cfg);
    assert_eq!(describe_state(&svc), "stopped");
    svc.manually_stopped = true;
    assert_eq!(describe_state(&svc), "stopped (by request)");
}

#[test]
fn status_reads_like_the_socket_answers_it() {
    let cfg = def("sshd");
    let config = config_of(vec![cfg.clone()]);
    let mut svc = running(&cfg, 412);
    svc.restart_count = 2;
    let services = vec![svc];
    let published = status_one("sshd", &services, &config, 61_500, None);
    assert_eq!(
        published,
        "sshd\n  state        running\n  boot         enabled\n  description  The sshd daemon\n  pid          412\n  started      1.500s into this boot\n  restarts     2 (restart disabled in config)\n  exec         /sbin/sshd\n"
    );
    let live = status_one("sshd", &services, &config, 61_500, Some("  memory       1.0M\n"));
    assert!(live.contains("  started      1.500s into this boot (1m00s ago)\n  memory       1.0M\n"));
    assert_eq!(status_one("nope", &services, &config, 0, None), "error: no such service 'nope'\n");
    let idle = config_of(vec![def("cups")]);
    assert_eq!(
        status_one("cups", &Vec::new(), &idle, 0, None),
        "cups\n  state        stopped\n  boot         enabled\n  description  The cups daemon\n  exec         /sbin/cups\n"
    );
}

#[test]
fn durations_and_sizes_read_the_way_a_person_says_them() {
    assert_eq!(format_ago(59), "59s");
    assert_eq!(format_ago(61), "1m01s");
    assert_eq!(format_ago(3_720), "1h02m");
    assert_eq!(format_ago(90_000), "1d01h");
    for b in [0u64, 1023, 1024, 1536, 268_435_456, 1_073_741_824, 5_000_000_000, u64::MAX] {
        let value = b as f64;
        let expected = if b < 1024 {
            format!("{}B", b)
        } else if value < 1024.0 * 1024.0 {
            format!("{:.1}K", value / 1024.0)
        } else if value < 1024.0 * 1024.0 * 1024.0 {
            format!("{:.1}M", value / (1024.0 * 1024.0))
        } else {
            format!("{:.2}G", value / (1024.0 * 1024.0 * 1024.0))
        };
        assert_eq!(format_bytes(b), expected, "{b}");
    }
    assert_eq!(format_bytes(268_435_456), "256.0M");
}

#[test]
fn quick_ticks_only_for_time_driven_work() {
    let mut cfg = def("dbus");
    cfg.ready_path = Some("/run/dbus.sock".to_string());
    let svc = running(&cfg, 3);
    assert!(wants_quick_tick(&vec![svc], false));
    let svc = running(&cfg, 3);
    assert!(!wants_quick_tick(&vec![svc], true), "a watched ready path is not time-driven");
    let mut dead = stopped(&def("x"));
    dead.retry_mono = Some(10_000);
    assert!(wants_quick_tick(&vec![dead], true));
    assert!(!wants_quick_tick(&vec![stopped(&def("y"))], false));
}

#[test]
fn a_reload_reports_what_it_took_and_keeps_what_runs() {
    let mut config = config_of(vec![def("a"), def("b"), def("c"), def("d")]);
    let services = vec![running(&def("b"), 2), running(&def("d"), 4)];
    let mut b2 = def("b");
    b2.args = vec!["--verbose".to_string()];
    let mut c2 = def("c");
    c2.args = vec!["-x".to_string()];
    let mut fresh = config_of(vec![def("a"), b2, c2, def("e")]);
    fresh.source_path = Some("/etc/raven/init.toml".to_string());
    let text = reload_config(&mut config, Ok(fresh), &services);
    assert_eq!(
        text,
        "Configuration reloaded\n  added: e (not started; `raven-rc start NAME`)\n  updated: c\n  changed while running: b (`raven-rc restart NAME` to apply)\n  removed but still running: d (`raven-rc stop NAME` to retire)\n"
    );
    let names: Vec<&str> = config.services.iter().map(|s| s.name.as_str()).collect();
    assert_eq!(names, vec!["a", "b", "c", "d", "e"]);
    assert_eq!(config.services[1].args, vec!["--verbose".to_string()]);
    assert_eq!(config.source_path.as_deref(), Some("/etc/raven/init.toml"));
}

#[test]
fn reloading_the_same_definitions_changes_nothing() {
    let mut config = config_of(vec![def("a"), def("b")]);
    let report = reconcile(&mut config, config_of(vec![def("a"), def("b")]), &Vec::new());
    assert!(report.added.is_empty() && report.updated.is_empty() && report.pending.is_empty());
    assert!(report.dropped.is_empty() && report.orphaned.is_empty());
    let text = reload_config(&mut config, Ok(config_of(vec![def("a")])), &Vec::new());
    assert_eq!(text, "Configuration reloaded\n  removed: b\n");
    let text = reload_config(&mut config, Ok(config_of(vec![def("a")])), &Vec::new());
    assert_eq!(text, "Configuration reloaded; nothing changed\n");
}

#[test]
fn an_unreadable_configuration_changes_nothing() {
    let mut config = config_of(vec![def("a")]);
    let text = reload_config(&mut config, Err("bad toml".to_string()), &Vec::new());
    assert_eq!(text, "error: could not reload configuration: bad toml\nthe running configuration is unchanged\n");
    assert_eq!(config.services.len(), 1);
}

#[test]
fn enabling_needs_a_file_and_says_when_it_takes_effect() {
    let mut config = config_of(vec![def("sshd")]);
    match set_enabled("sshd", false, &config) {
        EnableStep::Refused(t) => assert_eq!(
            t,
            "error: cannot disable sshd: running on built-in defaults, there is no config file to write\n"
        ),
        EnableStep::Persist(_) => panic!("no file to write"),
    }
    match set_enabled("nope", true, &config) {
        EnableStep::Refused(t) => assert_eq!(t, "error: no such service 'nope'\n"),
        EnableStep::Persist(_) => panic!("unknown service"),
    }
    config.source_path = Some("/etc/raven/init.toml".to_string());
    match set_enabled("sshd", false, &config) {
        EnableStep::Persist(p) => assert_eq!(p, "/etc/raven/init.toml"),
        EnableStep::Refused(t) => panic!("{t}"),
    }
    let text = enabled_written("sshd", false, &mut config, Ok(()));
    assert_eq!(text, "Disabled sshd\nTakes effect at boot; use `start`/`stop` to change it now.\n");
    assert!(!config.services[0].enabled);
    let text = enabled_written("sshd", false, &mut config, Ok(()));
    assert!(text.starts_with("Disabled sshd (was already disabled)\n"));
    let text = enabled_written("sshd", true, &mut config, Err("read-only file system".to_string()));
    assert_eq!(text, "error: cannot enable sshd: read-only file system\n");
    assert!(!config.services[0].enabled, "a failed write leaves the flag as it was");
}

#[test]
fn stopping_answers_without_waiting() {
    let services = vec![running(&def("a"), 5), stopped(&def("b"))];
    assert_eq!(stop_service("a", &services), ("Stopping a\n".to_string(), true));
    assert_eq!(stop_service("b", &services), ("b is not running\n".to_string(), false));
    assert_eq!(stop_service("c", &services), ("error: no such service 'c'\n".to_string(), false));
}

#[test]
fn an_unknown_service_points_at_the_fix() {
    assert!(unknown_service("sshd", true, true).contains("/etc/raven/init.d/sshd.toml but has not been loaded"));
    assert!(unknown_service("sshd", false, true).contains("cp /usr/share/raven/services/sshd.toml /etc/raven/init.d/"));
    assert_eq!(unknown_service("sshd", false, false), "error: no such service 'sshd'\n");
}

#[test]
fn a_quiet_system_publishes_nothing_twice() {
    let config = config_of(vec![def("a"), def("../b")]);
    let services = vec![running(&def("a"), 5)];
    let mut publisher = StatusPublisher::at("/tmp/status");
    assert_eq!(publisher.directory(), "/tmp/status");
    assert_eq!(StatusPublisher::new().directory(), STATUS_DIR);
    let list = list_services(&services, &config);
    let plan = publisher.plan(&list, "timeline", &services, &config, 0);
    assert_eq!(plan.len(), 3, "the listing, the timeline and a; ../b is not a file name");
    for p in plan {
        publisher.record(p);
    }
    assert!(publisher.plan(&list, "timeline", &services, &config, 0).is_empty());
    let fewer = config_of(vec![def("../b")]);
    let plan = publisher.plan(&list, "timeline", &Vec::new(), &fewer, 0);
    assert_eq!(plan.len(), 1);
    assert!(matches!(&plan[0], Publication::Gone(n) if n == "a"));
    assert!(publisher.first_failure());
    assert!(!publisher.first_failure());
}

#[test]
fn the_soonest_pending_restart_sets_the_wait() {
    let a = def("a");
    let b = def("b");
    let c = def("c");
    let mut dead_a = stopped(&a);
    dead_a.retry_mono = Some(9_000);
    let mut dead_b = stopped(&b);
    dead_b.retry_mono = Some(6_500);
    let mut live_c = running(&c, 42);
    live_c.retry_mono = Some(5_100);
    let services = vec![dead_a, dead_b, live_c];
    assert_eq!(raven_init::service::next_retry_in(&services, 5_000), Some(1_500));
    assert_eq!(raven_init::service::next_retry_in(&services, 7_000), Some(0));
    assert_eq!(raven_init::service::next_retry_in(&Vec::new(), 7_000), None);
}
