use raven_init::mount::{
    mountpoint_base, mountpoint_name, human, is_not_mountable, mount_attempts, options, parse_block_uevent, react, sanitize,
    unescape_mount, Reaction, Volume, MS_NODEV, MS_NOSUID, MS_RDONLY, NOT_MOUNTABLE,
};

#[test]
fn labels_become_safe_path_components() {
    assert_eq!(sanitize("TRAVEL").as_deref(), Some("TRAVEL"));
    assert_eq!(sanitize("My Backup").as_deref(), Some("My_Backup"));
    assert_eq!(sanitize("../../etc").as_deref(), Some("etc"));
    assert_eq!(sanitize(".hidden").as_deref(), Some("hidden"));
    assert_eq!(sanitize("/").as_deref(), None);
    assert_eq!(sanitize("   ").as_deref(), None);
    assert_eq!(sanitize("").as_deref(), None);
    assert_eq!(sanitize("a".repeat(200).as_str()).unwrap().len(), 64);
}

#[test]
fn mountinfo_escapes_are_decoded() {
    assert_eq!(unescape_mount("/media/My\\040Disk"), "/media/My Disk");
    assert_eq!(unescape_mount("/media/plain"), "/media/plain");
    assert_eq!(unescape_mount("/media/a\\b"), "/media/a\\b");
    assert_eq!(unescape_mount("a\\011b\\134c\\12"), "a\tb\\c\\12");
    assert_eq!(unescape_mount("\\777"), "\u{1ff}");
}

#[test]
fn removable_filesystems_get_an_owner_and_fixed_filesystems_do_not() {
    let (flags, data) = options("vfat", 1000, 1000);
    assert!(data.contains("uid=1000"));
    assert!(flags.contains(MS_NOSUID | MS_NODEV));
    assert!(!flags.contains(MS_RDONLY));
    assert_eq!(flags.bits, (nix::mount::MsFlags::MS_NOSUID | nix::mount::MsFlags::MS_NODEV | nix::mount::MsFlags::MS_NOATIME).bits() as u64);

    let (_, data) = options("ext4", 1000, 1000);
    assert!(data.is_empty(), "ext4 stores its own ownership");

    let (flags, _) = options("iso9660", 1000, 1000);
    assert!(flags.contains(MS_RDONLY));
}

#[test]
fn containers_are_not_mounted() {
    for fstype in ["swap", "crypto_LUKS", "LVM2_member"] {
        assert!(NOT_MOUNTABLE.contains(&fstype));
        assert!(is_not_mountable(fstype));
    }
    assert!(!is_not_mountable("ext4"));
}

#[test]
fn sizes_read_the_way_a_person_expects() {
    assert_eq!(human(512), "512B");
    assert_eq!(human(1024), "1.0K");
    assert_eq!(human(32 * 1024 * 1024 * 1024), "32.0G");
}

fn float_human(bytes: u64) -> String {
    const UNITS: [&str; 5] = ["B", "K", "M", "G", "T"];
    let mut value = bytes as f64;
    let mut unit = 0;
    while value >= 1024.0 && unit < UNITS.len() - 1 {
        value /= 1024.0;
        unit += 1;
    }
    if unit == 0 {
        format!("{bytes}{}", UNITS[0])
    } else {
        format!("{value:.1}{}", UNITS[unit])
    }
}

#[test]
fn sizes_agree_with_the_float_formatting() {
    let mut x: u64 = 0x2545f4914f6cdd1d;
    for _ in 0..20000 {
        x ^= x << 13;
        x ^= x >> 7;
        x ^= x << 17;
        let b = x >> (x % 64);
        assert_eq!(human(b), float_human(b), "{b}");
    }
    for b in [0, 1023, 1024, u64::MAX, u64::MAX - 1, 1 << 50, (1 << 60) - 1] {
        assert_eq!(human(b), float_human(b), "{b}");
    }
}

#[test]
fn a_mount_gives_ground_one_step_at_a_time() {
    let attempts = mount_attempts("vfat", 1000, 100);
    let shown: Vec<(bool, String)> =
        attempts.iter().map(|(f, d)| (f.contains(MS_RDONLY), d.clone())).collect();
    assert_eq!(
        shown,
        vec![
            (false, "uid=1000,gid=100,fmask=0133,dmask=0022,utf8=1,flush".to_string()),
            (false, "uid=1000,gid=100".to_string()),
            (false, String::new()),
            (true, "uid=1000,gid=100,fmask=0133,dmask=0022,utf8=1,flush".to_string()),
            (true, "uid=1000,gid=100".to_string()),
            (true, String::new()),
        ]
    );
    let plain = mount_attempts("ext4", 1000, 100);
    assert_eq!(plain.len(), 2);
    assert!(!plain[0].0.contains(MS_RDONLY));
    assert!(plain[1].0.contains(MS_RDONLY));
    let optical = mount_attempts("iso9660", 0, 0);
    assert_eq!(optical.len(), 6);
}

#[test]
fn a_block_event_names_its_device() {
    let e = parse_block_uevent(b"add@/devices/pci/usb1/1-2/host0/block/sdb/sdb1\0ACTION=add\0SUBSYSTEM=block\0DEVNAME=/dev/sdb1\0").unwrap();
    assert_eq!(e.action, "add");
    assert_eq!(e.subsystem, "block");
    assert_eq!(e.kname, "sdb1");
    assert_eq!(react(&e, true), Reaction::Arrival("sdb1".to_string()));
    assert_eq!(react(&e, false), Reaction::Report("sdb1".to_string()));
    let e = parse_block_uevent(b"remove@/devices/x/sr0\0SUBSYSTEM=block\0").unwrap();
    assert_eq!(e.kname, "sr0");
    assert_eq!(react(&e, true), Reaction::Departure("sr0".to_string()));
    let e = parse_block_uevent(b"add@/devices/x/card0\0SUBSYSTEM=drm\0").unwrap();
    assert_eq!(react(&e, true), Reaction::Ignore);
    assert!(parse_block_uevent(b"libudev\0SUBSYSTEM=block\0").is_none());
}

#[test]
fn only_a_removable_filesystem_nobody_uses_is_a_candidate() {
    let v = Volume {
        kname: "sdb1".to_string(),
        dev: "/dev/sdb1".to_string(),
        disk: "sdb".to_string(),
        fstype: Some("vfat".to_string()),
        label: Some("TRAVEL".to_string()),
        uuid: None,
        size: 1 << 30,
        removable: true,
        mounted_at: None,
    };
    assert!(v.is_candidate(&vec!["nvme0n1".to_string()]));
    assert!(!v.is_candidate(&vec!["sdb".to_string()]));
    assert_eq!(v.display(), "TRAVEL (sdb1)");
    let mut luks = v.clone();
    luks.fstype = Some("crypto_LUKS".to_string());
    assert!(!luks.is_candidate(&Vec::new()));
    let mut bare = v.clone();
    bare.fstype = Some(String::new());
    assert!(!bare.is_candidate(&Vec::new()));
}

#[test]
fn a_mountpoint_is_named_by_label_then_uuid_then_device() {
    let v = Volume {
        kname: "sdb1".to_string(),
        dev: "/dev/sdb1".to_string(),
        disk: "sdb".to_string(),
        fstype: Some("vfat".to_string()),
        label: Some("My Photos".to_string()),
        uuid: Some("1A2B-3C4D".to_string()),
        size: 1 << 30,
        removable: true,
        mounted_at: None,
    };
    assert_eq!(mountpoint_base(&v), "My_Photos");
    let mut unlabelled = v.clone();
    unlabelled.label = Some("///".to_string());
    assert_eq!(mountpoint_base(&unlabelled), "vfat-1A2B3C4D");
    unlabelled.uuid = Some("0123-4567-89ab-cdef".to_string());
    unlabelled.fstype = None;
    assert_eq!(mountpoint_base(&unlabelled), "disk-01234567");
    unlabelled.uuid = None;
    assert_eq!(mountpoint_base(&unlabelled), "sdb1");
    assert_eq!(mountpoint_name("TRAVEL", 0), "TRAVEL");
    assert_eq!(mountpoint_name("TRAVEL", 1), "TRAVEL-2");
    assert_eq!(mountpoint_name("TRAVEL", 63), "TRAVEL-64");
}

#[test]
fn a_sanitized_label_is_one_component_that_cannot_hide() {
    for label in ["../../etc/passwd", "._x", "  /tmp/ ", "a/b", "__init__", "x".repeat(100).as_str()] {
        if let Some(name) = sanitize(label) {
            assert!(!name.is_empty() && name.len() <= 64);
            assert!(!name.contains('/'));
            assert!(!name.starts_with('.') && !name.starts_with('_'));
        }
    }
    assert_eq!(sanitize("a/b").as_deref(), Some("a_b"));
}
