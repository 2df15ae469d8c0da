use raven_init::config::{DemandStart, InitConfig, ServiceConfig, ServiceType};
use raven_init::startup::{Launch, StartStep, Startup, Wait};

fn def(name: &str, after: &[&str]) -> ServiceConfig {
    let mut c = ServiceConfig::default();
    c.name = name.to_string();
    c.exec_path = "/bin/sleep".to_string();
    c.after = after.iter().map(|a| a.to_string()).collect();
    c
}

fn config_of(services: Vec<ServiceConfig>) -> InitConfig {
    let mut c = InitConfig::default_empty();
    c.services = services;
    c
}

fn timeouts(waits: &[Wait]) -> Vec<u32> {
    waits
        .iter()
        .map(|w| match w {
            Wait::Oneshot(_, t) => *t,
            Wait::ReadyPath(_, _, t) => *t,
        })
        .collect()
}

#[test]
fn a_hung_one_shot_is_waited_for_once_not_once_per_dependant() {
    let mut coldplug = def("coldplug", &[]);
    coldplug.service_type = ServiceType::Oneshot;
    coldplug.ready_timeout = 1;
    let config = config_of(vec![
        coldplug,
        def("dbus", &["coldplug"]),
        def("powerd", &["coldplug"]),
        def("network", &["coldplug"]),
    ]);
    let mut boot = Startup::new(&config);
    let mut seen = Vec::new();
    loop {
        match boot.next(&config) {
            StartStep::Prepare(i, waits) => {
                seen.push((config.services[i].name.clone(), timeouts(&waits)));
                assert!(boot.prepared(&config, &waits, waits.len(), true));
                boot.launched(&config, Launch::Started);
            }
            StartStep::Done => break,
            _ => panic!("everything here starts"),
        }
    }
    assert_eq!(
        seen,
        vec![
            ("coldplug".to_string(), vec![]),
            ("dbus".to_string(), vec![1]),
            ("powerd".to_string(), vec![0]),
            ("network".to_string(), vec![0]),
        ]
    );
}

#[test]
fn after_is_authoritative_and_order_breaks_ties() {
    let mut db = def("db", &[]);
    db.ready_path = Some("/run/db.sock".to_string());
    let config = config_of(vec![def("web", &["db"]), db, def("cron", &[])]);
    let mut boot = Startup::new(&config);
    let mut order = Vec::new();
    loop {
        match boot.next(&config) {
            StartStep::Prepare(i, waits) => {
                if config.services[i].name == "web" {
                    assert!(matches!(&waits[0], Wait::ReadyPath(n, p, 5) if n == "db" && p == "/run/db.sock"));
                }
                boot.prepared(&config, &waits, waits.len(), true);
                boot.launched(&config, Launch::Started);
                order.push(config.services[i].name.clone());
            }
            StartStep::Done => break,
            _ => panic!("everything here starts"),
        }
    }
    assert_eq!(order, vec!["db", "cron", "web"]);
}

#[test]
fn demand_started_services_and_their_dependants_wait() {
    let mut printer = def("cupsd", &[]);
    printer.demand = Some(DemandStart { device: Vec::new(), daemon: None });
    let mut off = def("off", &[]);
    off.enabled = false;
    let config = config_of(vec![printer, def("spooler", &["cupsd"]), def("after-spooler", &["spooler"]), off]);
    let mut boot = Startup::new(&config);
    assert!(matches!(boot.next(&config), StartStep::Deferred(0)));
    assert!(matches!(boot.next(&config), StartStep::AfterDemand(1)));
    assert!(matches!(boot.next(&config), StartStep::DependencyUnavailable(2)));
    assert!(matches!(boot.next(&config), StartStep::Done));
}

#[test]
fn a_dependency_that_never_becomes_ready_skips_its_dependant() {
    let mut db = def("db", &[]);
    db.ready_path = Some("/run/db.sock".to_string());
    let config = config_of(vec![db, def("web", &["db"]), def("cache", &["web"])]);
    let mut boot = Startup::new(&config);
    match boot.next(&config) {
        StartStep::Prepare(0, w) => {
            boot.prepared(&config, &w, 0, true);
            boot.launched(&config, Launch::Started);
        }
        _ => panic!("db first"),
    }
    match boot.next(&config) {
        StartStep::Prepare(1, w) => assert!(!boot.prepared(&config, &w, 1, false)),
        _ => panic!("web next"),
    }
    assert!(matches!(boot.next(&config), StartStep::DependencyUnavailable(2)));
    assert!(matches!(boot.next(&config), StartStep::Done));
}

#[test]
fn unresolvable_services_are_named_together() {
    let config = config_of(vec![def("a", &["b"]), def("b", &["a"]), def("c", &["nowhere"])]);
    let mut boot = Startup::new(&config);
    match boot.next(&config) {
        StartStep::Unresolved(v) => assert_eq!(v, vec![0, 1, 2]),
        _ => panic!("nothing here can start"),
    }
    assert!(matches!(boot.next(&config), StartStep::Done));
}

#[test]
fn a_failed_start_counts_as_unavailable() {
    let config = config_of(vec![def("a", &[]), def("b", &["a"])]);
    let mut boot = Startup::new(&config);
    match boot.next(&config) {
        StartStep::Prepare(0, w) => {
            boot.prepared(&config, &w, 0, true);
            boot.launched(&config, Launch::NotInstalled);
        }
        _ => panic!("a first"),
    }
    assert!(matches!(boot.next(&config), StartStep::DependencyUnavailable(1)));
}
