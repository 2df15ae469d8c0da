use raven_init::ports::{bracketed, edid_size, is_typec_port, link_messages, read_or, typec_line, uevent_line, Partner};

#[test]
fn the_bracketed_role_is_the_current_one() {
    assert_eq!(bracketed("[host] device"), "host");
    assert_eq!(bracketed("host [device]"), "device");
    assert_eq!(bracketed("sink"), "sink");
}

#[test]
fn edid_size_comes_from_bytes_21_and_22() {
    let mut edid = vec![0u8; 128];
    edid[21] = 34;
    edid[22] = 19;
    assert_eq!(edid_size(&edid), Some((340, 190)));
    edid[21] = 0;
    assert_eq!(edid_size(&edid), None, "0 cm means the panel did not say");
    assert_eq!(edid_size(&edid[..22]), None);
}

fn newlink(index: i32, flags: u32, name: &[u8]) -> Vec<u8> {
    let rta_len = 4 + name.len();
    let total = 16 + 16 + ((rta_len + 3) & !3);
    let mut buf = vec![0u8; total];
    buf[0..4].copy_from_slice(&(total as u32).to_le_bytes());
    buf[4..6].copy_from_slice(&16u16.to_le_bytes());
    buf[20..24].copy_from_slice(&index.to_le_bytes());
    buf[24..28].copy_from_slice(&flags.to_le_bytes());
    buf[32..34].copy_from_slice(&(rta_len as u16).to_le_bytes());
    buf[34..36].copy_from_slice(&3u16.to_le_bytes());
    buf[36..36 + name.len()].copy_from_slice(name);
    buf
}

#[test]
fn a_newlink_message_yields_index_name_and_running() {
    let buf = newlink(4, 0x1 | 0x40, b"enp4s0\0");
    assert_eq!(link_messages(&buf), vec![(4, "enp4s0".to_owned(), true)]);
    let mut two = newlink(2, 0x1, b"wlan0\0");
    two.extend(newlink(3, 0x40, b"eth1\0"));
    assert_eq!(
        link_messages(&two),
        vec![(2, "wlan0".to_owned(), false), (3, "eth1".to_owned(), true)]
    );
    assert!(link_messages(&newlink(5, 0x40, b"noterminator")).is_empty());
    assert!(link_messages(&two[..20]).is_empty());
}

#[test]
fn a_uevent_for_an_interface_is_skipped_and_a_device_is_not() {
    assert_eq!(uevent_line(b"add@/devices/x\0"), None);
    assert_eq!(uevent_line(b"libudev\0"), None);
    assert_eq!(
        uevent_line(b"add@/devices/pci0000:00/usb1/1-2\0SUBSYSTEM=usb\0PRODUCT=46d/c52b/1211\0"),
        Some("add     usb          1-2 [46d/c52b/1211]".to_string())
    );
    assert_eq!(uevent_line(b"add@/devices/pci0000:00/usb1/1-2/1-2:1.0\0SUBSYSTEM=usb\0"), None);
    assert_eq!(
        uevent_line(b"remove@/devices/virtual/net/wg0\0SUBSYSTEM=net\0INTERFACE=wg0\0"),
        Some("remove  net          wg0".to_string())
    );
}

#[test]
fn an_attribute_that_says_nothing_reads_as_the_fallback() {
    assert_eq!(read_or(Some("  source\n"), "?"), "source");
    assert_eq!(read_or(Some("\n"), "?"), "?");
    assert_eq!(read_or(None, "unknown"), "unknown");
}

#[test]
fn a_usb_c_port_line_names_its_roles_and_partner() {
    assert!(is_typec_port("port0"));
    assert!(!is_typec_port("port0-partner"));
    assert!(!is_typec_port("port0-cable"));
    assert_eq!(
        typec_line("port0", "[host] device", "source [sink]", "0.0", None),
        "port0: data host, power sink, nothing attached"
    );
    let partner = Partner {
        accessory: "none".to_string(),
        modes: vec![("ff01".to_string(), "yes".to_string()), ("1234".to_string(), "no".to_string())],
    };
    assert_eq!(
        typec_line("port1", "host", "source", "3.0", Some(&partner)),
        "port1: data host, power source, PD 3.0, partner attached: DisplayPort ff01 (yes), alt mode 1234 (no)"
    );
}
