use raven_init::fprint::{
    advice, enrolled_count, found_at, hex_u16, ioc, record_for, scan_of_frame, scan_of_verify,
    store_command, timeout_poll, user_data, Retry, Scan, ENROL_FRAMES, IOC_NONE, IOC_READ,
    IOC_WRITE, MAX_NAME, MSG_AREA_NOT_ENOUGH, MSG_DIRTY, MSG_TOO_HIGH, MSG_TOO_LEFT, MSG_TOO_LOW,
    MSG_TOO_RIGHT, NAMED_CMD_LEN, NAME_AT, USBDEVFS_CLAIMINTERFACE, USBDEVFS_CLEAR_HALT,
    USBDEVFS_DISCARDURB, USBDEVFS_REAPURBNDELAY, USBDEVFS_RELEASEINTERFACE, USBDEVFS_SUBMITURB,
    USER_DATA_LEN,
};

#[test]
fn the_ioctl_numbers_are_the_kernels() {
    assert_eq!(USBDEVFS_CLAIMINTERFACE, 0x8004_550f);
    assert_eq!(USBDEVFS_RELEASEINTERFACE, 0x8004_5510);
    assert_eq!(USBDEVFS_DISCARDURB, 0x0000_550b);
    assert_eq!(USBDEVFS_CLEAR_HALT, 0x8004_5515);
    assert_eq!(USBDEVFS_SUBMITURB, 0x8038_550a);
    assert_eq!(USBDEVFS_REAPURBNDELAY, 0x4008_550d);
    assert_eq!(ioc(IOC_READ, b'U' as u32, 15, 4), USBDEVFS_CLAIMINTERFACE);
    assert_eq!(ioc(IOC_READ, b'U' as u32, 10, 56), USBDEVFS_SUBMITURB);
    assert_eq!(ioc(IOC_NONE, b'U' as u32, 11, 0), USBDEVFS_DISCARDURB);
    assert_eq!(ioc(IOC_WRITE, b'U' as u32, 13, 8), USBDEVFS_REAPURBNDELAY);
}

#[test]
fn a_name_is_stored_as_a_length_and_the_label() {
    let data = user_data(b"javanstorm:right-index");
    assert_eq!(data[0..2], [0, 0]);
    assert_eq!(data[2], 22);
    assert_eq!(&data[3..25], b"javanstorm:right-index");
    assert!(data[25..].iter().all(|b| *b == 0));
}

#[test]
fn an_over_long_name_is_truncated_rather_than_refused() {
    let data = user_data(&vec![b'a'; 200]);
    assert_eq!(data.len(), USER_DATA_LEN);
    assert_eq!(data[2], MAX_NAME as u8);
}

#[test]
fn the_store_command_puts_the_name_where_the_chip_reads_it() {
    let cmd = store_command(b"a:b");
    assert_eq!(cmd[..3], [0x40, 0xff, 0x11]);
    assert_eq!(cmd.len(), 128);
    assert_eq!(cmd.len(), NAMED_CMD_LEN);
    assert_eq!(cmd[3..5], [0, 0]);
    assert_eq!(cmd[NAME_AT + 2], 3);
    assert_eq!(&cmd[NAME_AT + 3..NAME_AT + 6], b"a:b");
}

#[test]
fn the_retry_codes_map_to_advice() {
    for code in [MSG_TOO_HIGH, MSG_TOO_LOW, MSG_TOO_LEFT, MSG_TOO_RIGHT] {
        assert_eq!(Retry::of(code), Retry::Centre);
    }
    assert_eq!(Retry::of(MSG_AREA_NOT_ENOUGH), Retry::Area);
    assert_eq!(Retry::of(MSG_DIRTY), Retry::Dirty);
    assert_eq!(Retry::of(0x77), Retry::Unknown(0x77));
}

#[test]
fn a_template_takes_the_frames_the_sensor_is_told_it_does() {
    assert_eq!(ENROL_FRAMES, 9);
}

#[test]
fn a_reading_is_a_match_a_miss_or_a_retry() {
    assert_eq!(scan_of_verify(0xfd), Scan::NoMatch);
    assert_eq!(scan_of_verify(3), Scan::Match(3));
    assert_eq!(scan_of_verify(0x41), Scan::Retry(Retry::Centre));
    assert_eq!(scan_of_verify(10), Scan::Retry(Retry::Unknown(10)));
    assert_eq!(scan_of_frame(0x40, 0), Some(Scan::Frame));
    assert_eq!(scan_of_frame(0x40, 0xfb), Some(Scan::Retry(Retry::Dirty)));
    assert_eq!(scan_of_frame(0x41, 0), None);
    assert_eq!(enrolled_count(200), 10);
    assert_eq!(enrolled_count(4), 4);
    assert_eq!(timeout_poll(5000), 5000);
    assert_eq!(timeout_poll(u32::MAX), i32::MAX);
}

#[test]
fn a_record_names_the_account_and_the_finger() {
    let record = record_for("javanstorm", "right-index");
    assert_eq!(record.label(), "javanstorm:right-index");
    assert_eq!(record.id, [0, 0]);
}

#[test]
fn records_are_compatible_with_libfprints() {
    assert_eq!(record_for("a", "b").id, [0, 0]);
}

#[test]
fn every_retry_has_advice() {
    for why in [Retry::Centre, Retry::Area, Retry::Dirty, Retry::Unknown(0x77)] {
        assert!(!advice(why).is_empty());
    }
    assert_eq!(advice(Retry::Area), "cover more of the sensor");
}

#[test]
fn a_sensor_is_recognised_by_its_ids() {
    let found = found_at(Some("04f3\n"), Some("0c00\n"), Some("3\n"), Some("12\n")).unwrap();
    assert_eq!(found.node, "/dev/bus/usb/003/012");
    assert_eq!(found.product, 0x0c00);
    assert!(found_at(Some("04f3"), Some("0bff"), Some("3"), Some("12")).is_none());
    assert!(found_at(Some("046d"), Some("0c00"), Some("3"), Some("12")).is_none());
    assert!(found_at(None, Some("0c00"), Some("3"), Some("12")).is_none());
    assert!(found_at(Some("04F3"), Some("0CB0"), Some("1000"), None).is_none());
    assert_eq!(
        found_at(Some("04F3"), Some("0CB0"), Some("1000"), Some("7")).unwrap().node,
        "/dev/bus/usb/1000/007"
    );
    assert_eq!(hex_u16(" +ff "), Some(255));
    assert_eq!(hex_u16("10000"), None);
    assert_eq!(hex_u16("+"), None);
    assert_eq!(hex_u16("g"), None);
}
