//! The transforms applied to a loaded configuration before init uses it.
//!
//! The configuration says what is written down; this says what the machine
//! should therefore run. The kernel command line decides whether there is a
//! graphical session at all, and which services exist to support one is
//! decided by which programs are installed. Reading the command line, looking
//! accounts up and looking for programs on disk are the program's part; it
//! hands the answers here.
use vstd::prelude::*;
use vstd::pervasive::VecAdditionalExecFns;

use crate::config::{
    config_index, config_named, names_of, position_of, DemandStart, InitConfig, ResourceLimits, ServiceConfig, ServiceType,
    DEFAULT_READY_TIMEOUT, DEFAULT_STOP_TIMEOUT,
};
use crate::text::{chars_of, ends_with, push_decimal, push_str, split_ws, starts_with, tokens, views};

verus! {

/// Where system programs get installed, in search order. seatd, login and
/// unix_chkpwd all land in /sbin.
pub const SYSTEM_BIN_DIRS: [&'static str; 5] = ["/sbin", "/usr/sbin", "/bin", "/usr/bin", "/usr/local/bin"];

/// The paths a program called `name` is looked for at, in order.
pub fn program_paths(dirs: &[&str], name: &str) -> (r: Vec<String>)
    ensures
        r@.len() == dirs@.len(),
        forall|i: int| 0 <= i < dirs@.len() ==> (#[trigger] r@[i])@ == dirs@[i]@ + "/"@ + name@,
{
    let mut r: Vec<String> = Vec::new();
    let mut i: usize = 0;
    while i < dirs.len()
        invariant
            i <= dirs@.len(),
            r@.len() == i,
            forall|k: int| 0 <= k < i ==> (#[trigger] r@[k])@ == dirs@[k]@ + "/"@ + name@,
        decreases dirs@.len() - i,
    {
        let mut p = dirs[i].to_owned();
        push_str(&mut p, "/");
        push_str(&mut p, name);
        r.push(p);
        i += 1;
    }
    r
}

/// `args` with each `/bin/raven-shell` that follows `--login-program`
/// replaced by `/bin/sh`.
pub open spec fn login_program_fixed(args: Seq<String>) -> Seq<Seq<char>> {
    Seq::new(
        args.len(),
        |j: int|
            if j >= 1 && args[j - 1]@ == "--login-program"@ && args[j]@ == "/bin/raven-shell"@ {
                "/bin/sh"@
            } else {
                args[j]@
            },
    )
}

/// A getty definition after the fix: its login program falls back to
/// `/bin/sh`, and nothing else about it changes.
pub open spec fn getty_fixed(before: ServiceConfig, after: ServiceConfig) -> bool {
    &&& after == (ServiceConfig { args: after.args, ..before })
    &&& if ends_with(before.exec_path@, "agetty"@) {
        names_of(after.args@) == login_program_fixed(before.args@)
    } else {
        after.args == before.args
    }
}

fn fix_args(args: &mut Vec<String>)
    ensures
        names_of(final(args)@) == login_program_fixed(old(args)@),
{
    let ghost orig = args@;
    proof {
        reveal_strlit("/bin/sh");
        reveal_strlit("--login-program");
        reveal_strlit("/bin/raven-shell");
        assert("/bin/sh"@ != "--login-program"@) by {
            assert("/bin/sh"@[0] != "--login-program"@[0]);
        }
        assert("/bin/raven-shell"@ != "--login-program"@) by {
            assert("/bin/raven-shell"@[0] != "--login-program"@[0]);
        }
    }
    let mut idx: usize = 0;
    while idx < args.len() && idx + 1 < args.len()
        invariant
            args@.len() == orig.len(),
            idx < orig.len() || orig.len() == 0,
            idx <= orig.len(),
            "/bin/sh"@ != "--login-program"@,
            "/bin/raven-shell"@ != "--login-program"@,
            forall|j: int| 0 <= j <= idx && j < orig.len() ==> (#[trigger] args@[j])@ == login_program_fixed(orig)[j],
            forall|j: int| idx < j < orig.len() ==> #[trigger] args@[j] == orig[j],
        decreases orig.len() - idx,
    {
        let here = crate::text::is_word(&chars_of(args[idx].as_str()), "--login-program");
        let next = crate::text::is_word(&chars_of(args[idx + 1].as_str()), "/bin/raven-shell");
        assert(here == (orig[idx as int]@ == "--login-program"@));
        if here && next {
            args.set(idx + 1, "/bin/sh".to_owned());
        }
        idx += 1;
    }
    assert(names_of(args@) =~= login_program_fixed(orig));
}

/// Without `/bin/raven-shell` installed, point every agetty whose login
/// program is that shell at `/bin/sh` instead, so the console still gives a
/// way in.
pub fn fixup_getty_login_programs(config: &mut InitConfig, raven_shell_installed: bool)
    ensures
        final(config).system == old(config).system,
        final(config).mounts == old(config).mounts,
        final(config).source_path == old(config).source_path,
        final(config).services@.len() == old(config).services@.len(),
        forall|i: int|
            0 <= i < old(config).services@.len() ==> if raven_shell_installed {
                final(config).services@[i] == old(config).services@[i]
            } else {
                getty_fixed(old(config).services@[i], #[trigger] final(config).services@[i])
            },
{
    if raven_shell_installed {
        return;
    }
    let ghost orig = config.services@;
    let mut i: usize = 0;
    while i < config.services.len()
        invariant
            i <= config.services@.len() == orig.len(),
            config.system == old(config).system,
            config.mounts == old(config).mounts,
            config.source_path == old(config).source_path,
            orig == old(config).services@,
            forall|k: int| 0 <= k < i ==> getty_fixed(orig[k], #[trigger] config.services@[k]),
            forall|k: int| i <= k < orig.len() ==> #[trigger] config.services@[k] == orig[k],
        decreases orig.len() - i,
    {
        if crate::text::finishes_with(&chars_of(config.services[i].exec_path.as_str()), "agetty") {
            let mut svc = config.services.remove(i);
            let ghost before = svc;
            fix_args(&mut svc.args);
            assert(svc == (ServiceConfig { args: svc.args, ..before }));
            config.services.insert(i, svc);
        }
        i += 1;
    }
}

/// `before` with `desired` in it: the first definition of its name takes
/// the description, program, arguments, restart, enabled, critical and
/// environment of `desired` and keeps the rest; without one, `desired` is
/// appended.
pub open spec fn ensured(before: Seq<ServiceConfig>, desired: ServiceConfig, after: Seq<ServiceConfig>) -> bool {
    let k = config_index(before, desired.name@, 0);
    if 0 <= k < before.len() {
        &&& after.len() == before.len()
        &&& forall|i: int| 0 <= i < before.len() && i != k ==> after[i] == before[i]
        &&& after[k] == (ServiceConfig {
            description: desired.description,
            exec_path: desired.exec_path,
            args: desired.args,
            restart: desired.restart,
            enabled: desired.enabled,
            critical: desired.critical,
            environment: desired.environment,
            ..before[k]
        })
    } else {
        after == before.push(desired)
    }
}

/// Make `desired` part of `services`, as [`ensured`] says.
pub fn ensure_service(services: &mut Vec<ServiceConfig>, desired: ServiceConfig)
    ensures
        ensured(old(services)@, desired, final(services)@),
{
    let k = position_of(services, desired.name.as_str());
    if k == services.len() {
        services.push(desired);
        return;
    }
    let ghost before = services@;
    let mut existing = services.remove(k);
    existing.description = desired.description;
    existing.exec_path = desired.exec_path;
    existing.args = desired.args;
    existing.restart = desired.restart;
    existing.enabled = desired.enabled;
    existing.critical = desired.critical;
    existing.environment = desired.environment;
    services.insert(k, existing);
    assert(services@ =~= before.update(k as int, services@[k as int]));
}

/// The value of the first `key=value` word of the kernel command line.
pub open spec fn value_in(words: Seq<Seq<char>>, key: Seq<char>) -> Option<Seq<char>>
    decreases words.len(),
{
    if words.len() == 0 {
        None
    } else if starts_with(words[0], key + "="@) {
        Some(words[0].subrange(key.len() + 1 as int, words[0].len() as int))
    } else {
        value_in(words.drop_first(), key)
    }
}

/// What the kernel command line says `key` is: the first `key=value`.
pub fn cmdline_value(cmdline: &str, key: &str) -> (r: Option<String>)
    ensures
        match r {
            Some(v) => value_in(tokens(cmdline@), key@) == Some(v@),
            None => value_in(tokens(cmdline@), key@) is None,
        },
{
    let words = split_ws(&chars_of(cmdline));
    let mut prefix = key.to_owned();
    push_str(&mut prefix, "=");
    let n = chars_of(prefix.as_str()).len();
    proof {
        reveal_strlit("=");
    }
    assert(views(words@).subrange(0, words.len() as int) =~= views(words@));
    let mut i: usize = 0;
    while i < words.len()
        invariant
            i <= words.len(),
            prefix@ == key@ + "="@,
            n == prefix@.len(),
            n == key@.len() + 1,
            views(words@) == tokens(cmdline@),
            value_in(views(words@).subrange(i as int, words.len() as int), key@) == value_in(tokens(cmdline@), key@),
        decreases words.len() - i,
    {
        let ghost rest = views(words@).subrange(i as int, words.len() as int);
        assert(rest.drop_first() =~= views(words@).subrange(i + 1, words.len() as int));
        assert(rest[0] == words@[i as int]@);
        if crate::text::begins_with(&words[i], prefix.as_str()) {
            return Some(crate::text::string_of(&words[i], n, words[i].len()));
        }
        i += 1;
    }
    None
}

/// Whether the kernel command line asks for a Wayland session.
pub open spec fn wants_wayland(cmdline: Seq<char>) -> bool {
    value_in(tokens(cmdline), "raven.graphics"@) == Some("wayland"@)
}

/// Who a graphical session runs as.
pub struct Account {
    pub name: String,
    pub uid: u32,
    pub gid: u32,
    pub home: String,
    pub shell: String,
}

/// What was found installed: each program's path, if it is.
pub struct Programs {
    pub seatd: Option<String>,
    pub raven_udev: Option<String>,
    pub ravend: Option<String>,
    pub wayland_session: Option<String>,
}

/// The session's `XDG_RUNTIME_DIR`, where Wayland puts its socket.
pub open spec fn runtime_dir_text(uid: u32) -> Seq<char> {
    "/run/user/"@ + crate::text::decimal_text(uid as nat)
}

/// [`runtime_dir_text`].
pub fn session_runtime_dir(uid: u32) -> (r: String)
    ensures
        r@ == runtime_dir_text(uid),
{
    let mut r = "/run/user/".to_owned();
    push_decimal(&mut r, uid as u64);
    r
}

/// The fields every synthesised definition leaves at their defaults.
pub open spec fn plain_rest(c: ServiceConfig) -> bool {
    &&& c.tty is None
    &&& c.runtime_dirs@.len() == 0
    &&& c.stop_exec is None
    &&& c.stop_args@.len() == 0
    &&& c.nice == 0
    &&& c.oom_score_adj == 0
    &&& c.memory_max is None
    &&& c.cpu_weight is None
    &&& c.io_weight is None
    &&& c.limits.is_unset()
    &&& c.service_type == ServiceType::Simple
    &&& c.demand is None
    &&& c.restart
    &&& c.enabled
    &&& !c.critical
}

pub open spec fn pairs_view(v: Seq<(String, String)>) -> Seq<(Seq<char>, Seq<char>)> {
    v.map_values(|p: (String, String)| (p.0@, p.1@))
}

/// The seat daemon's definition.
pub open spec fn is_seatd(c: ServiceConfig, programs: Programs) -> bool {
    &&& plain_rest(c)
    &&& c.name@ == "seatd"@
    &&& c.description@ == "Seat management daemon"@
    &&& c.exec_path@ == match programs.seatd {
        Some(p) => p@,
        None => "/sbin/seatd"@,
    }
    &&& names_of(c.args@) == seq!["-g"@, "video"@]
    &&& c.environment@.len() == 0
    &&& c.pre_exec@.len() == 0
    &&& c.user is None
    &&& names_of(c.after@) == seq!["udev"@]
    &&& c.ready_path matches Some(p) && p@ == "/run/seatd.sock"@
    &&& c.ready_timeout == 5
    &&& c.stop_timeout == 5
}

/// The coldplug settle that runs, as root, before a session starts.
pub open spec fn settle_view(programs: Programs) -> Seq<Seq<char>> {
    match programs.raven_udev {
        Some(p) => seq![p@],
        None => Seq::empty(),
    }
}

/// The login daemon's definition.
pub open spec fn is_ravend(c: ServiceConfig, programs: Programs) -> bool {
    &&& plain_rest(c)
    &&& c.name@ == "ravend"@
    &&& c.description@ == "Raven login daemon"@
    &&& programs.ravend matches Some(p) && c.exec_path@ == p@
    &&& c.args@.len() == 0
    &&& pairs_view(c.environment@) == seq![("LIBSEAT_BACKEND"@, "seatd"@)]
    &&& names_of(c.pre_exec@) == settle_view(programs)
    &&& c.user is None
    &&& names_of(c.after@) == seq!["udev"@, "seatd"@]
    &&& c.ready_path is None
    &&& c.ready_timeout == 5
    &&& c.stop_timeout == 10
}

/// What a compositor needs in its environment: where its runtime directory
/// is, how to reach the seat, and what a login would have set.
pub open spec fn compositor_env(user: Option<Account>) -> Seq<(Seq<char>, Seq<char>)> {
    let uid = match user {
        Some(a) => a.uid,
        None => 0,
    };
    seq![("XDG_RUNTIME_DIR"@, runtime_dir_text(uid)), ("LIBSEAT_BACKEND"@, "seatd"@)] + match user {
        Some(a) => seq![("HOME"@, a.home@), ("USER"@, a.name@), ("LOGNAME"@, a.name@), ("SHELL"@, a.shell@)],
        None => Seq::empty(),
    }
}

pub open spec fn session_user_view(user: Option<Account>) -> Option<Seq<char>> {
    match user {
        Some(a) => Some(a.name@),
        None => None,
    }
}

/// The session wrapper's definition, which starts the compositor the
/// command line names.
pub open spec fn is_session(c: ServiceConfig, programs: Programs, user: Option<Account>, compositor: Seq<char>) -> bool {
    &&& plain_rest(c)
    &&& c.name@ == "wayland-session"@
    &&& c.description@ == "Raven Wayland session"@
    &&& programs.wayland_session matches Some(p) && c.exec_path@ == p@
    &&& c.args@.len() == 0
    &&& pairs_view(c.environment@) == compositor_env(user) + seq![("RAVEN_WAYLAND_COMPOSITOR"@, compositor)]
    &&& names_of(c.pre_exec@) == settle_view(programs)
    &&& crate::config::opt_view(c.user) == session_user_view(user)
    &&& names_of(c.after@) == seq!["udev"@, "seatd"@]
    &&& c.ready_path is None
    &&& c.ready_timeout == 5
    &&& c.stop_timeout == 5
}

/// The compositor's own definition, when there is no session wrapper.
pub open spec fn is_compositor(c: ServiceConfig, programs: Programs, user: Option<Account>) -> bool {
    &&& plain_rest(c)
    &&& c.name@ == "raven-compositor"@
    &&& c.description@ == "Raven Wayland compositor"@
    &&& c.exec_path@ == "/bin/raven-compositor"@
    &&& names_of(c.args@) == seq!["--backend"@, "udev"@]
    &&& pairs_view(c.environment@) == compositor_env(user)
    &&& names_of(c.pre_exec@) == settle_view(programs)
    &&& crate::config::opt_view(c.user) == session_user_view(user)
    &&& names_of(c.after@) == seq!["udev"@, "seatd"@]
    &&& c.ready_path is None
    &&& c.ready_timeout == 5
    &&& c.stop_timeout == 5
}

fn strings(items: &[&str]) -> (r: Vec<String>)
    ensures
        r@.len() == items@.len(),
        forall|i: int| 0 <= i < items@.len() ==> (#[trigger] r@[i])@ == items@[i]@,
{
    let mut r: Vec<String> = Vec::new();
    let mut i: usize = 0;
    while i < items.len()
        invariant
            i <= items@.len(),
            r@.len() == i,
            forall|k: int| 0 <= k < i ==> (#[trigger] r@[k])@ == items@[k]@,
        decreases items@.len() - i,
    {
        r.push(items[i].to_owned());
        i += 1;
    }
    r
}

fn synthesised(name: &str, description: &str, exec_path: String) -> (c: ServiceConfig)
    ensures
        c.name@ == name@,
        c.description@ == description@,
        c.exec_path@ == exec_path@,
        c.args@.len() == 0,
        c.environment@.len() == 0,
        c.pre_exec@.len() == 0,
        c.user is None,
        c.after@.len() == 0,
        c.ready_path is None,
        c.ready_timeout == DEFAULT_READY_TIMEOUT,
        c.stop_timeout == DEFAULT_STOP_TIMEOUT,
        plain_rest(c),
{
    let mut c = ServiceConfig::default();
    c.name = name.to_owned();
    c.description = description.to_owned();
    c.exec_path = exec_path;
    c.restart = true;
    c
}

fn settle(programs: &Programs) -> (r: Vec<String>)
    ensures
        names_of(r@) == settle_view(*programs),
{
    let mut r: Vec<String> = Vec::new();
    match &programs.raven_udev {
        Some(p) => {
            r.push(p.clone());
            assert(names_of(r@) =~= seq![p@]);
        },
        None => {
            assert(names_of(r@) =~= Seq::<Seq<char>>::empty());
        },
    }
    r
}

fn pair(k: &str, v: &str) -> (r: (String, String))
    ensures
        r.0@ == k@,
        r.1@ == v@,
{
    (k.to_owned(), v.to_owned())
}

fn seatd_service(programs: &Programs) -> (c: ServiceConfig)
    ensures
        is_seatd(c, *programs),
{
    let exec = match &programs.seatd {
        Some(p) => p.clone(),
        None => "/sbin/seatd".to_owned(),
    };
    let mut c = synthesised("seatd", "Seat management daemon", exec);
    c.args = strings(&["-g", "video"]);
    c.after = strings(&["udev"]);
    c.ready_path = Some("/run/seatd.sock".to_owned());
    assert(names_of(c.args@) =~= seq!["-g"@, "video"@]);
    assert(names_of(c.after@) =~= seq!["udev"@]);
    c
}

fn ravend_service(exec: &String, programs: &Programs) -> (c: ServiceConfig)
    requires
        programs.ravend matches Some(p) && p@ == exec@,
    ensures
        is_ravend(c, *programs),
{
    let mut c = synthesised("ravend", "Raven login daemon", exec.clone());
    c.environment.push(pair("LIBSEAT_BACKEND", "seatd"));
    c.pre_exec = settle(programs);
    c.after = strings(&["udev", "seatd"]);
    c.stop_timeout = 10;
    assert(pairs_view(c.environment@) =~= seq![("LIBSEAT_BACKEND"@, "seatd"@)]);
    assert(names_of(c.after@) =~= seq!["udev"@, "seatd"@]);
    c
}

fn compositor_environment(user: Option<&Account>) -> (r: Vec<(String, String)>)
    ensures
        pairs_view(r@) == compositor_env(
            match user {
                Some(a) => Some(*a),
                None => None,
            },
        ),
{
    let uid = match user {
        Some(a) => a.uid,
        None => 0,
    };
    let mut r: Vec<(String, String)> = Vec::new();
    r.push(("XDG_RUNTIME_DIR".to_owned(), session_runtime_dir(uid)));
    r.push(pair("LIBSEAT_BACKEND", "seatd"));
    match user {
        Some(a) => {
            r.push(("HOME".to_owned(), a.home.clone()));
            r.push(("USER".to_owned(), a.name.clone()));
            r.push(("LOGNAME".to_owned(), a.name.clone()));
            r.push(("SHELL".to_owned(), a.shell.clone()));
        },
        None => {},
    }
    assert(pairs_view(r@) =~= compositor_env(
        match user {
            Some(a) => Some(*a),
            None => None,
        },
    ));
    r
}

fn user_name(user: Option<&Account>) -> (r: Option<String>)
    ensures
        crate::config::opt_view(r) == session_user_view(
            match user {
                Some(a) => Some(*a),
                None => None,
            },
        ),
{
    match user {
        Some(a) => Some(a.name.clone()),
        None => None,
    }
}

fn session_service(exec: &String, programs: &Programs, user: Option<&Account>, compositor: &str) -> (c: ServiceConfig)
    requires
        programs.wayland_session matches Some(p) && p@ == exec@,
    ensures
        is_session(
            c,
            *programs,
            match user {
                Some(a) => Some(*a),
                None => None,
            },
            compositor@,
        ),
{
    let mut c = synthesised("wayland-session", "Raven Wayland session", exec.clone());
    let mut env = compositor_environment(user);
    let ghost base = pairs_view(env@);
    env.push(pair("RAVEN_WAYLAND_COMPOSITOR", compositor));
    assert(pairs_view(env@) =~= base + seq![("RAVEN_WAYLAND_COMPOSITOR"@, compositor@)]);
    c.environment = env;
    c.pre_exec = settle(programs);
    c.user = user_name(user);
    c.after = strings(&["udev", "seatd"]);
    assert(names_of(c.after@) =~= seq!["udev"@, "seatd"@]);
    c
}

fn compositor_service(programs: &Programs, user: Option<&Account>) -> (c: ServiceConfig)
    ensures
        is_compositor(
            c,
            *programs,
            match user {
                Some(a) => Some(*a),
                None => None,
            },
        ),
{
    let mut c = synthesised("raven-compositor", "Raven Wayland compositor", "/bin/raven-compositor".to_owned());
    c.args = strings(&["--backend", "udev"]);
    c.environment = compositor_environment(user);
    c.pre_exec = settle(programs);
    c.user = user_name(user);
    c.after = strings(&["udev", "seatd"]);
    assert(names_of(c.args@) =~= seq!["--backend"@, "udev"@]);
    assert(names_of(c.after@) =~= seq!["udev"@, "seatd"@]);
    c
}

/// The names a Wayland session turns off: the tty1 getty it would fight for
/// the terminal, and the compositor and session wrapper, so that the two are
/// never started at once.
pub open spec fn turned_off(name: Seq<char>) -> bool {
    name == "getty-tty1"@ || name == "raven-compositor"@ || name == "wayland-session"@
}

/// `before` with every definition of a [`turned_off`] name disabled.
pub open spec fn with_conflicts_off(before: Seq<ServiceConfig>, after: Seq<ServiceConfig>) -> bool {
    &&& after.len() == before.len()
    &&& forall|i: int|
        0 <= i < before.len() ==> #[trigger] after[i] == (if turned_off(before[i].name@) {
            ServiceConfig { enabled: false, ..before[i] }
        } else {
            before[i]
        })
}

fn turn_off_conflicts(services: &mut Vec<ServiceConfig>)
    ensures
        with_conflicts_off(old(services)@, final(services)@),
{
    let ghost orig = services@;
    let mut i: usize = 0;
    while i < services.len()
        invariant
            i <= services@.len() == orig.len(),
            forall|k: int|
                0 <= k < i ==> #[trigger] services@[k] == (if turned_off(orig[k].name@) {
                    ServiceConfig { enabled: false, ..orig[k] }
                } else {
                    orig[k]
                }),
            forall|k: int| i <= k < orig.len() ==> #[trigger] services@[k] == orig[k],
        decreases orig.len() - i,
    {
        let name = chars_of(services[i].name.as_str());
        if crate::text::is_word(&name, "getty-tty1") || crate::text::is_word(&name, "raven-compositor")
            || crate::text::is_word(&name, "wayland-session") {
            let mut svc = services.remove(i);
            svc.enabled = false;
            services.insert(i, svc);
        }
        i += 1;
    }
}

/// What a Wayland session asks of the configuration: the conflicting
/// services off, the seat daemon ensured, and then the login daemon when it
/// is installed, else the session wrapper when it is, else the compositor
/// itself, running as `user` (root when `None`) with the compositor the
/// command line names.
pub open spec fn wayland_configured(
    before: Seq<ServiceConfig>,
    programs: Programs,
    user: Option<Account>,
    compositor: Seq<char>,
    after: Seq<ServiceConfig>,
) -> bool {
    exists|off: Seq<ServiceConfig>, seated: Seq<ServiceConfig>, seat: ServiceConfig, last: ServiceConfig|
        {
            &&& with_conflicts_off(before, off)
            &&& is_seatd(seat, programs)
            &&& ensured(off, seat, seated)
            &&& if programs.ravend is Some {
                is_ravend(last, programs)
            } else if programs.wayland_session is Some {
                is_session(last, programs, user, compositor)
            } else {
                is_compositor(last, programs, user)
            }
            &&& ensured(seated, last, after)
        }
}

/// The compositor a session starts: `raven.wayland=` on the command line,
/// or `raven-compositor`.
pub open spec fn compositor_choice(cmdline: Seq<char>) -> Seq<char> {
    match value_in(tokens(cmdline), "raven.wayland"@) {
        Some(v) => v,
        None => "raven-compositor"@,
    }
}

/// Apply what the kernel command line asks for: with
/// `raven.graphics=wayland`, a Wayland session for `user` built from the
/// `programs` installed; without it, nothing changes.
pub fn apply_kernel_cmdline_overrides(config: &mut InitConfig, cmdline: &str, user: Option<&Account>, programs: &Programs)
    ensures
        final(config).system == old(config).system,
        final(config).mounts == old(config).mounts,
        final(config).source_path == old(config).source_path,
        if wants_wayland(cmdline@) {
            wayland_configured(
                old(config).services@,
                *programs,
                match user {
                    Some(a) => Some(*a),
                    None => None,
                },
                compositor_choice(cmdline@),
                final(config).services@,
            )
        } else {
            final(config).services@ == old(config).services@
        },
{
    let graphics = cmdline_value(cmdline, "raven.graphics");
    let wayland = match &graphics {
        Some(g) => crate::text::is_word(&chars_of(g.as_str()), "wayland"),
        None => false,
    };
    if !wayland {
        return;
    }
    let ghost before = config.services@;
    turn_off_conflicts(&mut config.services);
    let ghost off = config.services@;
    let seat = seatd_service(programs);
    let ghost seat_def = seat;
    ensure_service(&mut config.services, seat);
    let ghost seated = config.services@;
    let last = match &programs.ravend {
        Some(exec) => ravend_service(exec, programs),
        None => match &programs.wayland_session {
            Some(exec) => {
                let choice = match cmdline_value(cmdline, "raven.wayland") {
                    Some(c) => c,
                    None => "raven-compositor".to_owned(),
                };
                session_service(exec, programs, user, choice.as_str())
            },
            None => compositor_service(programs, user),
        },
    };
    let ghost last_def = last;
    ensure_service(&mut config.services, last);
    assert(wayland_configured(
        before,
        *programs,
        match user {
            Some(a) => Some(*a),
            None => None,
        },
        compositor_choice(cmdline@),
        config.services@,
    )) by {
        assert(with_conflicts_off(before, off));
        assert(ensured(off, seat_def, seated));
        assert(ensured(seated, last_def, config.services@));
    }
}


/// What `ensured` leaves alone: every definition whose name is not the
/// desired one's is as it was, and the desired name's first definition, or
/// the appended one, carries its enabled flag.
proof fn lemma_ensured_keeps_others(before: Seq<ServiceConfig>, desired: ServiceConfig, after: Seq<ServiceConfig>)
    requires
        ensured(before, desired, after),
    ensures
        after.len() >= before.len(),
        forall|i: int| 0 <= i < before.len() && before[i].name@ != desired.name@ ==> #[trigger] after[i] == before[i],
        forall|i: int| 0 <= i < after.len() && before.len() <= i ==> (#[trigger] after[i]).name@ == desired.name@
            && after[i].enabled == desired.enabled,
        forall|i: int| 0 <= i < before.len() && before[i].name@ == desired.name@ ==> (#[trigger] after[i]).name@ == desired.name@
            && (after[i].enabled == before[i].enabled || after[i].enabled == desired.enabled),
{
    crate::control::lemma_config_index(before, desired.name@, 0);
}

/// A Wayland session never leaves the tty1 getty enabled, nor the session
/// wrapper and the compositor both enabled: only one of the two can hold
/// the GPU and the seat.
pub proof fn lemma_one_graphical_session(
    before: Seq<ServiceConfig>,
    programs: Programs,
    user: Option<Account>,
    compositor: Seq<char>,
    after: Seq<ServiceConfig>,
)
    requires
        wayland_configured(before, programs, user, compositor, after),
    ensures
        forall|i: int| 0 <= i < after.len() && (#[trigger] after[i]).name@ == "getty-tty1"@ ==> !after[i].enabled,
        !exists|i: int, j: int|
            0 <= i < after.len() && 0 <= j < after.len() && (#[trigger] after[i]).name@ == "wayland-session"@
                && after[i].enabled && (#[trigger] after[j]).name@ == "raven-compositor"@ && after[j].enabled,
{
    let (off, seated, seat, last) = choose|
        off: Seq<ServiceConfig>,
        seated: Seq<ServiceConfig>,
        seat: ServiceConfig,
        last: ServiceConfig,
    |
        {
            &&& with_conflicts_off(before, off)
            &&& is_seatd(seat, programs)
            &&& ensured(off, seat, seated)
            &&& if programs.ravend is Some {
                is_ravend(last, programs)
            } else if programs.wayland_session is Some {
                is_session(last, programs, user, compositor)
            } else {
                is_compositor(last, programs, user)
            }
            &&& ensured(seated, last, after)
        };
    reveal_strlit("getty-tty1");
    reveal_strlit("wayland-session");
    reveal_strlit("raven-compositor");
    reveal_strlit("seatd");
    reveal_strlit("ravend");
    lemma_ensured_keeps_others(off, seat, seated);
    lemma_ensured_keeps_others(seated, last, after);
    // Every definition of a turned-off name in `seated` is disabled.
    assert forall|i: int| 0 <= i < seated.len() && turned_off((#[trigger] seated[i]).name@) implies !seated[i].enabled by {
        if i < off.len() {
            assert(off[i] == (if turned_off(before[i].name@) {
                ServiceConfig { enabled: false, ..before[i] }
            } else {
                before[i]
            }));
            assert(seated[i].name@ != "seatd"@) by {
                assert(seated[i].name@[0] != "seatd"@[0] || seated[i].name@.len() != 5);
            }
        }
    }
    assert forall|i: int| 0 <= i < after.len() && (#[trigger] after[i]).name@ != last.name@ && turned_off(after[i].name@) implies !after[i].enabled by {
        if i < seated.len() {
            assert(after[i] == seated[i]);
        }
    }
    assert(last.name@ != "getty-tty1"@) by {
        assert(last.name@[0] != "getty-tty1"@[0]);
    }
    assert("wayland-session"@ != "raven-compositor"@) by {
        assert("wayland-session"@[0] != "raven-compositor"@[0]);
    }
}


proof fn lemma_config_index_at(defs: Seq<ServiceConfig>, name: Seq<char>, i: int, j: int)
    requires
        0 <= i <= j < defs.len(),
        defs[j].name@ == name,
        forall|m: int| i <= m < j ==> (#[trigger] defs[m]).name@ != name,
    ensures
        config_index(defs, name, i) == j,
    decreases j - i,
{
    if i < j {
        lemma_config_index_at(defs, name, i + 1, j);
    }
}

/// A Wayland session takes no service away: every definition stays where it
/// was, under its name, and only the ones it needs are added after them;
/// and the first definition named `seatd` is enabled.
pub proof fn lemma_wayland_keeps_every_service(
    before: Seq<ServiceConfig>,
    programs: Programs,
    user: Option<Account>,
    compositor: Seq<char>,
    after: Seq<ServiceConfig>,
)
    requires
        wayland_configured(before, programs, user, compositor, after),
    ensures
        after.len() >= before.len(),
        forall|i: int| 0 <= i < before.len() ==> (#[trigger] after[i]).name@ == before[i].name@,
        config_named(after, "seatd"@) matches Some(c) && c.enabled,
{
    let (off, seated, seat, last) = choose|
        off: Seq<ServiceConfig>,
        seated: Seq<ServiceConfig>,
        seat: ServiceConfig,
        last: ServiceConfig,
    |
        {
            &&& with_conflicts_off(before, off)
            &&& is_seatd(seat, programs)
            &&& ensured(off, seat, seated)
            &&& if programs.ravend is Some {
                is_ravend(last, programs)
            } else if programs.wayland_session is Some {
                is_session(last, programs, user, compositor)
            } else {
                is_compositor(last, programs, user)
            }
            &&& ensured(seated, last, after)
        };
    reveal_strlit("seatd");
    reveal_strlit("ravend");
    reveal_strlit("wayland-session");
    reveal_strlit("raven-compositor");
    lemma_ensured_keeps_others(off, seat, seated);
    lemma_ensured_keeps_others(seated, last, after);
    assert forall|i: int| 0 <= i < before.len() implies (#[trigger] after[i]).name@ == before[i].name@ by {
        assert(off[i].name@ == before[i].name@);
        assert(seated[i].name@ == off[i].name@);
    }
    let sd: Seq<char> = "seatd"@;
    assert(last.name@ != sd) by {
        assert(last.name@[0] != sd[0] || last.name@.len() != sd.len());
    }
    crate::control::lemma_config_index(off, sd, 0);
    let k1 = config_index(off, sd, 0);
    let j = if k1 < off.len() { k1 } else { off.len() as int };
    assert(j < seated.len() && seated[j].name@ == sd && seated[j].enabled);
    assert forall|m: int| 0 <= m < j implies (#[trigger] seated[m]).name@ != sd by {
        assert(seated[m].name@ == off[m].name@);
    }
    assert(after[j] == seated[j]);
    assert forall|m: int| 0 <= m < j implies (#[trigger] after[m]).name@ != sd by {
        assert(after[m].name@ == seated[m].name@);
    }
    lemma_config_index_at(after, sd, 0, j);
}
} // verus!
