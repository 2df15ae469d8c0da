use raven_init::blame::blame;
use raven_init::config::{InitConfig, ServiceConfig};
use raven_init::service::{Service, ServiceSnapshot};

fn def(name: &str, ready_path: bool) -> ServiceConfig {
    let mut c = ServiceConfig::default();
    c.name = name.to_string();
    c.exec_path = format!("/sbin/{name}");
    if ready_path {
        c.ready_path = Some(format!("/run/{name}.ready"));
    }
    c
}

fn timed(cfg: &ServiceConfig, started: u64, ready: Option<u64>, running: bool) -> Service {
    let mut s = Service::adopt(ServiceSnapshot::default(), cfg.clone());
    s.first_started_mono = Some(started);
    s.first_ready_mono = ready;
    s.pid = if running { Some(100) } else { None };
    s
}

fn config_of(services: Vec<ServiceConfig>) -> InitConfig {
    let mut c = InitConfig::default_empty();
    c.services = services;
    c
}

const HEAD: &str = "Seconds since the kernel started. Each service is timed from its first\n\
start in this boot; restarts since are in `raven-rc status NAME`.\n\
Milestones cross a re-exec: a name that appears twice marks one, and\n\
the rows above the second `init started` are the original boot's.\n\n\
\nSERVICE              STARTED    READY      TOOK       NOTE\n";

#[test]
fn the_slowest_service_tops_the_timeline_and_late_starts_stay_out_of_the_summary() {
    let a = def("a", true);
    let b = def("b", false);
    let c = def("c", true);
    let d = def("d", true);
    let e = def("e", true);
    let getty = def("getty-tty1", false);
    let services = vec![
        timed(&a, 1000, Some(3500), true),
        timed(&b, 1200, None, true),
        timed(&c, 1100, Some(1300), true),
        timed(&d, 2000, None, true),
        timed(&e, 9000, None, false),
        timed(&getty, 800, None, true),
    ];
    let config = config_of(vec![a, b, c, d, e]);
    let expected = format!(
        "{HEAD}\
a                        1.000      3.500      2.500  \n\
c                        1.100      1.300      0.200  \n\
getty-tty1               0.800          -          -  no ready path\n\
b                        1.200          -          -  no ready path\n\
d                        2.000    waiting          -  not ready yet\n\
e                        9.000      never          -  started after boot, exited before ready\n\
\nservices: first start 0.800, last ready 3.500, span 2.700s\n"
    );
    assert_eq!(blame(&services, &config, &Vec::new(), Some(5000)), expected);
}

#[test]
fn without_a_boot_boundary_every_row_counts() {
    let e = def("e", true);
    let services = vec![timed(&e, 9000, Some(9250), false)];
    let config = config_of(vec![e]);
    assert_eq!(
        blame(&services, &config, &Vec::new(), None),
        format!("{HEAD}e                        9.000      9.250      0.250  \n\nservices: first start 9.000, last ready 9.250, span 0.250s\n")
    );
    // Past the boundary, the same row is marked and the summary has nothing.
    assert_eq!(
        blame(&services, &config, &Vec::new(), Some(5000)),
        format!("{HEAD}e                        9.000      9.250      0.250  started after boot\n")
    );
}

#[test]
fn nothing_ready_yet_is_said_rather_than_a_span_of_start_times() {
    let b = def("b", false);
    let services = vec![timed(&b, 42, None, true)];
    let config = config_of(vec![b]);
    assert_eq!(
        blame(&services, &config, &Vec::new(), None),
        format!("{HEAD}b                        0.042          -          -  no ready path\n\nservices: first start 0.042, nothing ready yet\n")
    );
}

#[test]
fn a_configured_service_that_never_ran_has_no_row() {
    let config = config_of(vec![def("idle", false)]);
    assert_eq!(blame(&Vec::new(), &config, &Vec::new(), None), HEAD.to_string());
}

#[test]
fn the_milestones_come_first_each_with_its_time() {
    let config = config_of(vec![]);
    let milestones = vec![("init started".to_string(), 812), ("main loop".to_string(), 4_051)];
    assert_eq!(
        blame(&Vec::new(), &config, &milestones, Some(4_051)),
        "Seconds since the kernel started. Each service is timed from its first\n\
start in this boot; restarts since are in `raven-rc status NAME`.\n\
Milestones cross a re-exec: a name that appears twice marks one, and\n\
the rows above the second `init started` are the original boot's.\n\n\
\x20 init started               0.812\n\
\x20 main loop                  4.051\n\
\nSERVICE              STARTED    READY      TOOK       NOTE\n"
    );
}
