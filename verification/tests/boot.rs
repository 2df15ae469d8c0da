use raven_init::boot::{
    fstab_source, is_trouble, module_options, needs_seat, poll_timeout, read_command, FileCommand, FstabSource,
};
use raven_init::boot::{
    parse_mount_options, real_mounts_deepest_first, virtual_fstype, wants_start_after_reexec,
    ComplaintLatch, COMPLAINTS_REMEMBERED, INTROSPECTION_FILESYSTEMS, VIRTUAL_FSTYPES,
};
use raven_init::config::{ServiceConfig, ServiceType};
use raven_init::mount::{MS_NOATIME, MS_NODEV, MS_NOSUID, MS_RDONLY, MS_RELATIME};
use raven_init::service::{OneshotOutcome, Service, ServiceSnapshot, ServiceState};

#[test]
fn mount_options_split_into_flags_and_data() {
    let (flags, data) = parse_mount_options("rw,relatime");
    assert_eq!(flags.bits, MS_RELATIME);
    assert!(data.is_empty());
    assert_eq!(flags.bits, nix::mount::MsFlags::MS_RELATIME.bits() as u64);

    let (flags, data) = parse_mount_options("rw,noatime,fmask=0077,dmask=0077");
    assert!(flags.contains(MS_NOATIME));
    assert_eq!(data, "fmask=0077,dmask=0077");

    let (flags, data) = parse_mount_options("rw,nosuid,nodev,mode=1777");
    assert!(flags.contains(MS_NOSUID | MS_NODEV));
    assert_eq!(data, "mode=1777");

    let (flags, data) = parse_mount_options("defaults");
    assert_eq!(flags.bits, 0);
    assert!(data.is_empty());
    let (flags, _) = parse_mount_options("ro");
    assert!(flags.contains(MS_RDONLY));
    let (_, data) = parse_mount_options(" a , ,b ");
    assert_eq!(data, "a,b");
}

#[test]
fn kernel_filesystems_are_left_alone() {
    let mounts = vec![
        ("/proc".to_string(), "proc".to_string()),
        ("/sys".to_string(), "sysfs".to_string()),
        ("/dev".to_string(), "devtmpfs".to_string()),
        ("/dev/shm".to_string(), "tmpfs".to_string()),
        ("/run".to_string(), "tmpfs".to_string()),
        ("/sys/fs/cgroup".to_string(), "cgroup2".to_string()),
        ("/".to_string(), "ext4".to_string()),
    ];
    let real = real_mounts_deepest_first(mounts);
    assert_eq!(
        real,
        vec![("/".to_string(), "ext4".to_string())],
        "only the real filesystem should survive the filter"
    );
}

#[test]
fn the_introspection_filesystems_are_root_only_and_never_unmounted() {
    let types: Vec<&str> = INTROSPECTION_FILESYSTEMS.iter().map(|(fstype, _, _)| *fstype).collect();
    assert!(types.contains(&"securityfs"), "without securityfs there is no way to read which LSMs are active");
    assert!(types.contains(&"debugfs"), "without debugfs the scheduler's runtime switches are unreachable");
    for (fstype, target, data) in INTROSPECTION_FILESYSTEMS {
        assert!(
            VIRTUAL_FSTYPES.contains(&fstype),
            "{fstype} is not in VIRTUAL_FSTYPES, so shutdown would try to remount it"
        );
        assert!(virtual_fstype(fstype));
        assert!(target.starts_with("/sys/kernel/"), "{target} is not where the kernel's own trees live");
        if fstype == "debugfs" {
            assert_eq!(data, "mode=0700", "debugfs must not be reachable by anyone but root");
        }
    }
}

#[test]
fn the_root_is_remounted_last() {
    let mounts = vec![
        ("/".to_string(), "ext4".to_string()),
        ("/home".to_string(), "ext4".to_string()),
        ("/boot".to_string(), "vfat".to_string()),
        ("/home/javan/data".to_string(), "xfs".to_string()),
    ];
    let order: Vec<String> =
        real_mounts_deepest_first(mounts).into_iter().map(|(mount_point, _)| mount_point).collect();
    assert_eq!(order.last().map(String::as_str), Some("/"), "{order:?}");
    assert_eq!(order.first().map(String::as_str), Some("/home/javan/data"), "deepest should go first: {order:?}");
    let child = order.iter().position(|m| m == "/home/javan/data").unwrap();
    let parent = order.iter().position(|m| m == "/home").unwrap();
    assert!(child < parent, "nested mount must come first: {order:?}");
    // Equal depths keep the order they were listed in.
    assert_eq!(order, vec!["/home/javan/data", "/home", "/boot", "/"]);
}

#[test]
fn a_complaint_whose_numbers_move_is_still_the_same_complaint() {
    let mut latch = ComplaintLatch::new();
    assert!(latch.admits("/var/log/raven is 201.4M, over the 200M cap"));
    assert!(
        !latch.admits("/var/log/raven is 201.5M, over the 200M cap"),
        "a cap overshoot that grew by a hundred kilobytes is the same permanent condition, said once"
    );
    assert!(!latch.admits("/var/log/raven is 214.0M, over the 200M cap"));
    assert_eq!(ComplaintLatch::key("is 201.4M, 200M"), "is #.#M, #M");
}

#[test]
fn two_faults_in_one_sweep_are_each_said_once() {
    let mut latch = ComplaintLatch::new();
    let sweep = [
        "cannot rotate dbus.log: Read-only file system",
        "cannot rotate cawd.log: Read-only file system",
    ];
    for line in sweep {
        assert!(latch.admits(line), "the first sweep says both");
    }
    for line in sweep {
        assert!(!latch.admits(line), "and no later sweep says either of them again");
    }
    assert!(latch.admits("cannot prune dbus.log.3: Read-only file system"));
}

#[test]
fn the_latch_remembers_a_bounded_number_of_complaints() {
    let mut latch = ComplaintLatch::new();
    for n in 0..COMPLAINTS_REMEMBERED {
        assert!(latch.admits(&format!("cannot rotate {}.log", "x".repeat(n + 1))));
    }
    assert_eq!(latch.said.len(), COMPLAINTS_REMEMBERED);
    assert!(latch.admits("cannot rotate newcomer.log"));
    assert_eq!(latch.said.len(), COMPLAINTS_REMEMBERED, "the oldest is dropped rather than the set growing");
    assert!(!latch.admits("cannot rotate newcomer.log"), "and what is still remembered is what is still arriving");
    assert!(latch.admits("cannot rotate x.log"), "the oldest was forgotten");
}

fn snapshot_of(config: &ServiceConfig, ran: bool) -> ServiceSnapshot {
    let mono = 1234u64;
    let mut s = ServiceSnapshot::default();
    s.config = config.clone();
    s.pid = None;
    s.started_mono = ran.then_some(mono);
    s.ready_mono = ran.then_some(mono);
    s.first_started_mono = ran.then_some(mono);
    s.first_ready_mono = ran.then_some(mono);
    s
}

fn oneshot(name: &str) -> ServiceConfig {
    let mut c = ServiceConfig::default();
    c.name = name.to_string();
    c.exec_path = "/bin/true".to_string();
    c.service_type = ServiceType::Oneshot;
    c
}

#[test]
fn a_completed_one_shot_is_not_re_run_by_a_re_exec() {
    let cfg = oneshot("udev");
    let svc = Service::adopt(snapshot_of(&cfg, true), cfg.clone());
    assert_eq!(svc.state(), ServiceState::Stopped);
    assert_eq!(svc.oneshot_outcome(), Some(OneshotOutcome::Completed));
    assert!(!wants_start_after_reexec(&cfg, Some(&svc)), "a coldplug that already ran this boot must not run again");
}

#[test]
fn a_re_exec_still_starts_what_never_had_its_turn() {
    let added = oneshot("console-font");
    assert!(wants_start_after_reexec(&added, None));

    let never = Service::adopt(snapshot_of(&added, false), added.clone());
    assert!(wants_start_after_reexec(&added, Some(&never)), "a one-shot with no run behind it still has one coming");

    let mut daemon = ServiceConfig::default();
    daemon.name = "cawd".to_string();
    daemon.exec_path = "/bin/true".to_string();
    daemon.restart = true;
    let waiting = Service::adopt(snapshot_of(&daemon, true), daemon.clone());
    assert!(wants_start_after_reexec(&daemon, Some(&waiting)), "a restartable daemon that is down is still brought back");

    let mut once = daemon.clone();
    once.restart = false;
    let stopped = Service::adopt(snapshot_of(&once, true), once.clone());
    assert!(!wants_start_after_reexec(&once, Some(&stopped)));

    let mut running = snapshot_of(&daemon, true);
    running.pid = Some(42);
    let up = Service::adopt(running, daemon.clone());
    assert!(!wants_start_after_reexec(&daemon, Some(&up)));
}

#[test]
fn the_command_file_holds_one_word() {
    assert_eq!(read_command("halt\n"), FileCommand::Poweroff);
    assert_eq!(read_command(" reboot "), FileCommand::Reboot);
    assert_eq!(read_command("sleep"), FileCommand::Suspend);
    assert_eq!(read_command("hibernate"), FileCommand::Hibernate);
    assert_eq!(read_command("dance"), FileCommand::Unknown);
}

#[test]
fn the_loop_sleeps_long_only_when_nothing_is_due() {
    assert_eq!(poll_timeout(true, false, None), 2000);
    assert_eq!(poll_timeout(true, true, None), 100);
    assert_eq!(poll_timeout(false, false, None), 100);
    assert_eq!(poll_timeout(true, false, Some(700)), 700);
    assert_eq!(poll_timeout(true, false, Some(0)), 100, "a deadline already past still gets the short tick");
    assert_eq!(poll_timeout(true, false, Some(60_000)), 2000);
}

#[test]
fn a_seat_is_waited_for_only_when_something_needs_one() {
    let names = |v: &[&str]| v.iter().map(|s| s.to_string()).collect::<Vec<String>>();
    assert!(needs_seat(&names(&["seatd", "ravend"])));
    assert!(!needs_seat(&names(&["ravend"])));
    assert!(!needs_seat(&names(&["seatd", "dbus"])));
    assert!(is_trouble("error: cannot start cupsd"));
    assert!(!is_trouble("Started cupsd"));
}

#[test]
fn only_absolute_paths_name_a_device_without_a_link() {
    assert!(matches!(fstab_source("/dev/nvme0n1p3"), FstabSource::Path(p) if p == "/dev/nvme0n1p3"));
    assert!(matches!(fstab_source("UUID=1234-ABCD"), FstabSource::Link(l) if l == "/dev/disk/by-uuid/1234-ABCD"));
    assert!(matches!(fstab_source("LABEL=RAVEN_ROOT"), FstabSource::Link(l) if l == "/dev/disk/by-label/RAVEN_ROOT"));
    assert!(matches!(fstab_source("PARTUUID=00-01"), FstabSource::Link(l) if l == "/dev/disk/by-partuuid/00-01"));
    assert!(matches!(fstab_source("PARTLABEL=esp"), FstabSource::Link(l) if l == "/dev/disk/by-partlabel/esp"));
    assert!(matches!(fstab_source("tmpfs"), FstabSource::Unresolvable));
    assert!(matches!(fstab_source("proc"), FstabSource::Unresolvable));
}

#[test]
fn options_lines_name_the_module_the_kernel_way() {
    let text = "# RavenLinux: Realtek rtw88 defaults\noptions rtw88-pci disable_aspm=1 disable_msi=1\noptions\nblacklist pcspkr\noptions rtw89_pci flag\n";
    let opts = module_options(text);
    let seen: Vec<(String, String, String)> =
        opts.into_iter().map(|o| (o.module, o.key, o.value)).collect();
    assert_eq!(
        seen,
        vec![
            ("rtw88_pci".to_string(), "disable_aspm".to_string(), "1".to_string()),
            ("rtw88_pci".to_string(), "disable_msi".to_string(), "1".to_string()),
        ]
    );
}

#[test]
fn only_absolute_paths_resolve_without_a_scan() {
    // An absolute path is the device; every other form names, at best, a
    // link udev may not have made yet, and the program has to look for it.
    assert!(matches!(fstab_source("/dev/nvme0n1p3"), FstabSource::Path(p) if p == "/dev/nvme0n1p3"));
    assert!(!matches!(fstab_source("UUID=00000000-no-such-uuid"), FstabSource::Path(_)));
    assert!(!matches!(fstab_source("LABEL=RAVEN_NO_SUCH_LABEL_9f3a"), FstabSource::Path(_)));
    assert!(!matches!(fstab_source("PARTUUID=00000000-no-such-part"), FstabSource::Path(_)));
    assert!(matches!(fstab_source("tmpfs"), FstabSource::Unresolvable));
    assert!(matches!(fstab_source("proc"), FstabSource::Unresolvable));
}
