use raven_init::config::{InitConfig, ServiceConfig};
use raven_init::overrides::{
    apply_kernel_cmdline_overrides, cmdline_value, ensure_service, fixup_getty_login_programs,
    program_paths, session_runtime_dir, Account, Programs, SYSTEM_BIN_DIRS,
};

fn none_installed() -> Programs {
    Programs { seatd: None, raven_udev: None, ravend: None, wayland_session: None }
}

#[test]
fn the_real_search_path_covers_where_the_image_installs_things() {
    assert!(SYSTEM_BIN_DIRS.contains(&"/sbin"));
    assert!(SYSTEM_BIN_DIRS.contains(&"/usr/bin"));
    assert!(SYSTEM_BIN_DIRS.contains(&"/bin"));
}

#[test]
fn search_order_prefers_sbin_over_bin() {
    let paths = program_paths(&["/sbin", "/bin"], "dup");
    assert_eq!(paths, vec!["/sbin/dup".to_string(), "/bin/dup".to_string()]);
}

#[test]
fn the_login_program_falls_back_to_sh_without_raven_shell() {
    let mut config = InitConfig::default();
    fixup_getty_login_programs(&mut config, true);
    assert_eq!(config.services[0].args[3], "/bin/raven-shell");
    fixup_getty_login_programs(&mut config, false);
    assert_eq!(config.services[0].args[2], "--login-program");
    assert_eq!(config.services[0].args[3], "/bin/sh");
    assert_eq!(config.services[0].args.len(), 6);
}

#[test]
fn the_kernel_command_line_is_read_word_by_word() {
    let line = "quiet raven.graphics=wayland root=/dev/sda2 raven.graphics=tty";
    assert_eq!(cmdline_value(line, "raven.graphics"), Some("wayland".to_string()));
    assert_eq!(cmdline_value(line, "raven.user"), None);
    assert_eq!(cmdline_value("raven.user=", "raven.user"), Some(String::new()));
}

#[test]
fn without_wayland_nothing_changes() {
    let mut config = InitConfig::default();
    apply_kernel_cmdline_overrides(&mut config, "quiet", None, &none_installed());
    assert_eq!(config.services.len(), 1);
    assert!(config.services[0].enabled);
}

#[test]
fn a_wayland_boot_gets_a_seat_and_a_session_for_its_user() {
    let mut config = InitConfig::default();
    let user = Account {
        name: "ada".to_string(),
        uid: 1000,
        gid: 1000,
        home: "/home/ada".to_string(),
        shell: "/bin/sh".to_string(),
    };
    let programs = Programs {
        seatd: Some("/sbin/seatd".to_string()),
        raven_udev: Some("/sbin/raven-udev".to_string()),
        ravend: None,
        wayland_session: Some("/bin/raven-wayland-session".to_string()),
    };
    apply_kernel_cmdline_overrides(
        &mut config,
        "raven.graphics=wayland raven.wayland=sway",
        Some(&user),
        &programs,
    );
    let names: Vec<&str> = config.services.iter().map(|s| s.name.as_str()).collect();
    assert_eq!(names, vec!["getty-tty1", "seatd", "wayland-session"]);
    assert!(!config.services[0].enabled, "the tty1 getty stands aside");
    let seat = &config.services[1];
    assert_eq!(seat.args, vec!["-g".to_string(), "video".to_string()]);
    assert_eq!(seat.ready_path.as_deref(), Some("/run/seatd.sock"));
    let session = &config.services[2];
    assert_eq!(session.user.as_deref(), Some("ada"));
    assert_eq!(session.pre_exec, vec!["/sbin/raven-udev".to_string()]);
    assert!(session
        .environment
        .contains(&("XDG_RUNTIME_DIR".to_string(), "/run/user/1000".to_string())));
    assert!(session
        .environment
        .contains(&("RAVEN_WAYLAND_COMPOSITOR".to_string(), "sway".to_string())));
    assert_eq!(session_runtime_dir(1000), "/run/user/1000");
}

#[test]
fn a_login_screen_replaces_the_autologin_session() {
    let mut config = InitConfig::default();
    let programs = Programs {
        seatd: None,
        raven_udev: None,
        ravend: Some("/sbin/ravend".to_string()),
        wayland_session: Some("/bin/raven-wayland-session".to_string()),
    };
    apply_kernel_cmdline_overrides(&mut config, "raven.graphics=wayland", None, &programs);
    let names: Vec<&str> = config.services.iter().map(|s| s.name.as_str()).collect();
    assert_eq!(names, vec!["getty-tty1", "seatd", "ravend"]);
    assert_eq!(config.services[1].exec_path, "/sbin/seatd", "the path seatd is expected at when not found");
    assert_eq!(config.services[2].stop_timeout, 10);
    assert_eq!(config.services[2].user, None, "the login daemon runs as root");
}

#[test]
fn an_existing_definition_is_updated_in_place() {
    let mut services = vec![ServiceConfig::default()];
    services[0].name = "seatd".to_string();
    services[0].ready_timeout = 9;
    let mut desired = ServiceConfig::default();
    desired.name = "seatd".to_string();
    desired.exec_path = "/usr/sbin/seatd".to_string();
    desired.ready_timeout = 5;
    ensure_service(&mut services, desired);
    assert_eq!(services.len(), 1);
    assert_eq!(services[0].exec_path, "/usr/sbin/seatd");
    assert_eq!(services[0].ready_timeout, 9, "what ensure does not own is kept");
}
