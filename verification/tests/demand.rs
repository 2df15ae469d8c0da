use raven_init::config::{DemandStart, DeviceTrigger, InitConfig, ServiceConfig};
use raven_init::demand::{
    already_present_in, describe_device, device_rules, filter_startable, matches_device,
    matches_pattern, parse_uevent, property, report_configuration, services_for_event,
    sysfs_properties, Device, Watching,
};
use raven_init::service::{Service, ServiceSnapshot};

fn props(pairs: &[(&str, &str)]) -> Vec<(String, String)> {
    pairs.iter().map(|(k, v)| (k.to_string(), v.to_string())).collect()
}

fn printer_rule() -> DeviceTrigger {
    DeviceTrigger {
        subsystem: "usb".to_string(),
        devtype: Some("usb_interface".to_string()),
        properties: vec![("INTERFACE".to_string(), "7/*".to_string())],
    }
}

fn empty_rule() -> DeviceTrigger {
    DeviceTrigger { subsystem: String::new(), devtype: None, properties: Vec::new() }
}

fn demand_service(name: &str, demand: DemandStart) -> ServiceConfig {
    let mut cfg = ServiceConfig::default();
    cfg.name = name.to_string();
    cfg.exec_path = "/bin/true".to_string();
    cfg.demand = Some(demand);
    cfg
}

fn config_of(services: Vec<ServiceConfig>) -> InitConfig {
    let mut config = InitConfig::default_empty();
    config.services = services;
    config
}

#[test]
fn a_kernel_uevent_is_parsed_into_an_action_and_its_properties() {
    let msg = b"add@/devices/pci0000:00/usb1/1-2/1-2:1.0\0\
                ACTION=add\0SUBSYSTEM=usb\0DEVTYPE=usb_interface\0INTERFACE=7/1/4\0";
    let event = parse_uevent(msg).expect("a kernel uevent parses");
    assert_eq!(event.action, "add");
    assert_eq!(property(&event.properties, "SUBSYSTEM"), Some("usb"));
    assert_eq!(property(&event.properties, "INTERFACE"), Some("7/1/4"));
}

#[test]
fn a_message_that_is_not_a_kernel_uevent_is_ignored() {
    assert!(parse_uevent(b"libudev\0ACTION=add\0SUBSYSTEM=usb\0").is_none());
    assert!(parse_uevent(b"").is_none());
}

#[test]
fn fields_that_are_not_text_are_skipped() {
    let msg = b"\0\xff\xfe\0bind@/devices/x\0KEY=\xff\0A=b=c\0NOEQUALS\0";
    let event = parse_uevent(msg).expect("the first text field is the header");
    assert_eq!(event.action, "bind");
    assert_eq!(event.properties, props(&[("A", "b=c")]));
}

#[test]
fn a_printer_rule_matches_a_printer_interface_and_not_a_hub() {
    let rule = printer_rule();
    assert!(matches_device(&rule, "usb", &props(&[("DEVTYPE", "usb_interface"), ("INTERFACE", "7/1/4")])));
    assert!(!matches_device(&rule, "usb", &props(&[("DEVTYPE", "usb_interface"), ("INTERFACE", "9/0/0")])));
    assert!(!matches_device(&rule, "usb", &props(&[("DEVTYPE", "usb_device"), ("INTERFACE", "7/1/4")])));
    assert!(!matches_device(&rule, "bluetooth", &props(&[("DEVTYPE", "usb_interface"), ("INTERFACE", "7/1/4")])));
}

#[test]
fn a_rule_naming_a_property_the_device_lacks_does_not_match() {
    let rule = printer_rule();
    assert!(!matches_device(&rule, "usb", &props(&[("DEVTYPE", "usb_interface")])));
}

#[test]
fn a_trailing_star_matches_by_prefix_and_nothing_else_is_a_pattern() {
    assert!(matches_pattern("7/*", "7/1/4"));
    assert!(matches_pattern("7/*", "7/"));
    assert!(!matches_pattern("7/*", "9/0/0"));
    assert!(matches_pattern("7/1/4", "7/1/4"));
    assert!(!matches_pattern("7/*/4", "7/1/4"));
}

#[test]
fn a_rule_with_no_subsystem_matches_nothing() {
    let rule = empty_rule();
    assert!(!matches_device(&rule, "usb", &props(&[])));
    assert!(!matches_device(&rule, "", &props(&[])));
}

#[test]
fn a_sysfs_uevent_file_matches_the_same_rule_as_a_broadcast() {
    let properties = sysfs_properties(
        "DEVTYPE=usb_interface\nDRIVER=usblp\nINTERFACE=7/1/2\nMODALIAS=usb:v03F0p0117\n",
    );
    assert!(matches_device(&printer_rule(), "usb", &properties));
}

#[test]
fn a_service_with_no_demand_block_has_no_device_rules() {
    let mut plain = ServiceConfig::default();
    plain.name = "dbus".to_string();
    assert!(device_rules(&plain).is_empty());
    assert!(!plain.is_demand_started());

    let triggered =
        demand_service("ipp-usb", DemandStart { device: vec![printer_rule()], daemon: None });
    assert_eq!(device_rules(&triggered).len(), 1);
    assert!(triggered.is_demand_started());
}

#[test]
fn an_empty_demand_block_still_keeps_a_service_out_of_the_boot() {
    let cfg = demand_service("cupsd", DemandStart { device: Vec::new(), daemon: None });
    assert!(cfg.is_demand_started());
    assert!(device_rules(&cfg).is_empty());
}

#[test]
fn a_service_stopped_by_request_is_not_restarted_by_its_trigger() {
    let cfg = demand_service(
        "obexd",
        DemandStart { device: vec![], daemon: Some("raven-ports".to_string()) },
    );
    let config = config_of(vec![cfg.clone()]);
    let mut services: Vec<Service> = Vec::new();
    let wanted = vec!["obexd".to_string()];
    assert_eq!(
        filter_startable(&wanted, &services, &config),
        vec!["obexd".to_string()],
        "a service that has never run is startable"
    );

    let mut snapshot = ServiceSnapshot::default();
    snapshot.config = cfg.clone();
    snapshot.pid = None;
    snapshot.manually_stopped = true;
    services.push(Service::adopt(snapshot, cfg));

    assert!(
        filter_startable(&wanted, &services, &config).is_empty(),
        "a service stopped by request stays stopped"
    );
}

#[test]
fn a_name_wanted_twice_is_started_once() {
    let cfg = demand_service("ipp-usb", DemandStart { device: vec![printer_rule()], daemon: None });
    let config = config_of(vec![cfg]);
    let services: Vec<Service> = Vec::new();
    let wanted = vec!["ipp-usb".to_string(), "ipp-usb".to_string()];
    assert_eq!(filter_startable(&wanted, &services, &config), vec!["ipp-usb".to_string()]);
}

#[test]
fn a_name_that_is_no_longer_demand_started_is_dropped() {
    let mut cfg = ServiceConfig::default();
    cfg.name = "cupsd".to_string();
    cfg.exec_path = "/usr/bin/cupsd".to_string();
    let config = config_of(vec![cfg]);
    let services: Vec<Service> = Vec::new();
    assert!(filter_startable(&vec!["cupsd".to_string()], &services, &config).is_empty());
    assert!(filter_startable(&vec!["nothing".to_string()], &services, &config).is_empty());
}

#[test]
fn a_device_already_plugged_in_is_found_by_the_startup_walk() {
    let printer = demand_service("ipp-usb", DemandStart { device: vec![printer_rule()], daemon: None });
    let bluetooth = demand_service(
        "bluetoothd",
        DemandStart {
            device: vec![DeviceTrigger {
                subsystem: "bluetooth".to_string(),
                devtype: Some("host".to_string()),
                properties: Vec::new(),
            }],
            daemon: None,
        },
    );
    let sound = demand_service(
        "obexd",
        DemandStart {
            device: vec![DeviceTrigger {
                subsystem: "sound".to_string(),
                devtype: None,
                properties: Vec::new(),
            }],
            daemon: None,
        },
    );
    let config = config_of(vec![printer, bluetooth, sound]);
    let devices = vec![
        Device {
            subsystem: "usb".to_string(),
            properties: sysfs_properties("DEVTYPE=usb_interface\nDRIVER=usblp\nINTERFACE=7/1/2\n"),
        },
        Device {
            subsystem: "usb".to_string(),
            properties: sysfs_properties("DEVTYPE=usb_interface\nINTERFACE=9/0/0\n"),
        },
        Device { subsystem: "bluetooth".to_string(), properties: sysfs_properties("DEVTYPE=host\n") },
    ];
    assert_eq!(
        already_present_in(&config, &devices),
        vec!["ipp-usb".to_string(), "bluetoothd".to_string()],
        "the printer and the adapter are there; nothing is a sound card"
    );
    assert!(already_present_in(&config, &Vec::new()).is_empty());
}

#[test]
fn a_broadcast_wants_each_matching_service_once() {
    let printer = demand_service("ipp-usb", DemandStart { device: vec![printer_rule()], daemon: None });
    let config = config_of(vec![printer]);
    let event = parse_uevent(b"add@/x\0SUBSYSTEM=usb\0DEVTYPE=usb_interface\0INTERFACE=7/1/4\0").unwrap();
    let mut wanted = Vec::new();
    services_for_event(&config, &event, &mut wanted);
    services_for_event(&config, &event, &mut wanted);
    assert_eq!(wanted, vec!["ipp-usb".to_string()]);

    let change = parse_uevent(b"change@/x\0SUBSYSTEM=usb\0DEVTYPE=usb_interface\0INTERFACE=7/1/4\0").unwrap();
    let mut wanted = Vec::new();
    services_for_event(&config, &change, &mut wanted);
    assert!(wanted.is_empty());
    assert_eq!(describe_device("usb", &event.properties), "usb 7/1/4");
    assert_eq!(describe_device("usb", &Vec::new()), "usb device");
}

#[test]
fn the_boot_report_names_what_cannot_start() {
    let lonely = demand_service("cupsd", DemandStart { device: Vec::new(), daemon: None });
    let asked = demand_service("obexd", DemandStart { device: Vec::new(), daemon: Some("raven-ports".to_string()) });
    let printer = demand_service("ipp-usb", DemandStart { device: vec![printer_rule(), printer_rule()], daemon: None });
    let config = config_of(vec![lonely, asked, printer]);
    let lines: Vec<(bool, String)> = report_configuration(&config, Watching::Devices)
        .into_iter()
        .map(|n| (n.warn, n.text))
        .collect();
    assert_eq!(
        lines,
        vec![
            (true, "Service cupsd is marked started-on-demand but names no trigger;".to_string()),
            (true, "  it will start only for an explicit `raven-rc start cupsd`".to_string()),
            (false, "Service obexd starts on demand, when raven-ports asks for it".to_string()),
            (false, "Service ipp-usb starts on demand, on 2 device rules".to_string()),
        ]
    );
    let unwatched = report_configuration(&config, Watching::Nothing);
    assert_eq!(unwatched[3].text, "Service ipp-usb starts on demand, but the uevent socket is not open;");
    assert!(unwatched[3].warn);
}

#[test]
fn a_subsystem_with_no_devices_starts_nothing() {
    let config = config_of(vec![demand_service(
        "ipp-usb",
        DemandStart { device: vec![printer_rule()], daemon: None },
    )]);
    assert!(already_present_in(&config, &Vec::new()).is_empty());
}

#[test]
fn startable_names_keep_the_order_they_were_first_wanted_in() {
    let a = demand_service("a", DemandStart { device: vec![printer_rule()], daemon: None });
    let b = demand_service("b", DemandStart { device: vec![printer_rule()], daemon: None });
    let config = config_of(vec![a, b]);
    let services: Vec<Service> = Vec::new();
    let wanted: Vec<String> = ["b", "x", "a", "b", "a"].iter().map(|s| s.to_string()).collect();
    assert_eq!(filter_startable(&wanted, &services, &config), vec!["b".to_string(), "a".to_string()]);
}
