//! Configuration structures for RavenInit.
//!
//! These are the values the rest of the library reasons about. Reading them
//! out of `/etc/raven/init.toml` is the program's job; the library only says
//! what a configuration holds and what each field defaults to.
use vstd::prelude::*;

use crate::text::{chars_of, same};

verus! {

/// Main init configuration.
#[derive(Clone)]
pub struct InitConfig {
    pub system: SystemConfig,
    pub services: Vec<ServiceConfig>,
    pub mounts: Vec<MountConfig>,
    /// The file this configuration was read from; `None` for the built-in
    /// defaults, which have no file to edit.
    pub source_path: Option<String>,
}

/// System-wide configuration.
#[derive(Clone)]
pub struct SystemConfig {
    pub hostname: String,
    pub default_runlevel: String,
    pub shutdown_timeout: u32,
    pub load_modules: bool,
    pub enable_udev: bool,
    pub enable_network: bool,
    pub log_level: String,
    /// Rotate a service log once it reaches this size.
    pub log_max_size: String,
    /// Prune rotated generations once the log directory exceeds this.
    pub log_total_max: String,
    /// Rotated generations to keep.
    pub log_keep: u32,
    /// Whether rotated generations are gzipped.
    pub log_compress: bool,
}

/// How a service's main process relates to its readiness.
#[derive(Clone, Copy, PartialEq, Eq, Structural)]
pub enum ServiceType {
    /// A daemon: running means up.
    Simple,
    /// A task that runs to completion; exiting 0 is success.
    Oneshot,
}

/// One device rule of a demand-started service.
#[derive(Clone)]
pub struct DeviceTrigger {
    pub subsystem: String,
    pub devtype: Option<String>,
    /// Property names and the values (or trailing-`*` prefixes) they must have.
    pub properties: Vec<(String, String)>,
}

/// The `[services.demand]` block: what starts a service other than the boot.
#[derive(Clone)]
pub struct DemandStart {
    pub device: Vec<DeviceTrigger>,
    pub daemon: Option<String>,
}

#[derive(Clone)]
pub struct ServiceConfig {
    pub name: String,
    pub description: String,
    pub exec_path: String,
    pub args: Vec<String>,
    pub restart: bool,
    pub enabled: bool,
    pub critical: bool,
    pub environment: Vec<(String, String)>,
    pub pre_exec: Vec<String>,
    pub tty: Option<String>,
    pub user: Option<String>,
    pub runtime_dirs: Vec<String>,
    pub after: Vec<String>,
    pub ready_path: Option<String>,
    pub ready_timeout: u32,
    pub stop_exec: Option<String>,
    pub stop_args: Vec<String>,
    pub stop_timeout: u32,
    pub nice: i8,
    pub oom_score_adj: i32,
    pub memory_max: Option<String>,
    pub cpu_weight: Option<u32>,
    pub io_weight: Option<u32>,
    pub limits: ResourceLimits,
    pub service_type: ServiceType,
    pub demand: Option<DemandStart>,
}

#[derive(Clone)]
pub struct ResourceLimits {
    pub nofile: Option<u64>,
    pub nproc: Option<u64>,
    pub memlock: Option<String>,
    pub core: Option<String>,
}

#[derive(Clone)]
pub struct MountConfig {
    pub source: String,
    pub target: String,
    pub fstype: String,
    pub options: String,
    pub mount_at_boot: bool,
}

pub const DEFAULT_HOSTNAME: &'static str = "raven-linux";
pub const DEFAULT_RUNLEVEL: &'static str = "default";
pub const DEFAULT_SHUTDOWN_TIMEOUT: u32 = 10;
pub const DEFAULT_LOG_LEVEL: &'static str = "info";
pub const DEFAULT_LOG_MAX_SIZE: &'static str = "10M";
pub const DEFAULT_LOG_TOTAL_MAX: &'static str = "200M";
pub const DEFAULT_LOG_KEEP: u32 = 5;
pub const DEFAULT_STOP_TIMEOUT: u32 = 5;
pub const DEFAULT_READY_TIMEOUT: u32 = 5;

impl ResourceLimits {
    pub open spec fn is_unset(&self) -> bool {
        &&& self.nofile is None
        &&& self.nproc is None
        &&& self.memlock is None
        &&& self.core is None
    }
}

impl Default for ResourceLimits {
    fn default() -> (r: Self)
        ensures
            r.is_unset(),
    {
        ResourceLimits { nofile: None, nproc: None, memlock: None, core: None }
    }
}

impl SystemConfig {
    /// What every field is when `[system]` does not mention it.
    pub open spec fn is_default(&self) -> bool {
        &&& self.hostname@ == DEFAULT_HOSTNAME@
        &&& self.default_runlevel@ == DEFAULT_RUNLEVEL@
        &&& self.shutdown_timeout == DEFAULT_SHUTDOWN_TIMEOUT
        &&& self.load_modules
        &&& self.enable_udev
        &&& self.enable_network
        &&& self.log_level@ == DEFAULT_LOG_LEVEL@
        &&& self.log_max_size@ == DEFAULT_LOG_MAX_SIZE@
        &&& self.log_total_max@ == DEFAULT_LOG_TOTAL_MAX@
        &&& self.log_keep == DEFAULT_LOG_KEEP
        &&& self.log_compress
    }
}

impl Default for SystemConfig {
    fn default() -> (r: Self)
        ensures
            r.is_default(),
    {
        SystemConfig {
            hostname: DEFAULT_HOSTNAME.to_owned(),
            default_runlevel: DEFAULT_RUNLEVEL.to_owned(),
            shutdown_timeout: DEFAULT_SHUTDOWN_TIMEOUT,
            load_modules: true,
            enable_udev: true,
            enable_network: true,
            log_level: DEFAULT_LOG_LEVEL.to_owned(),
            log_max_size: DEFAULT_LOG_MAX_SIZE.to_owned(),
            log_total_max: DEFAULT_LOG_TOTAL_MAX.to_owned(),
            log_keep: DEFAULT_LOG_KEEP,
            log_compress: true,
        }
    }
}

impl ServiceConfig {
    /// Every field at the value an empty `[[services]]` entry gives it.
    pub open spec fn is_default(&self) -> bool {
        &&& self.name@ == Seq::<char>::empty()
        &&& self.description@ == Seq::<char>::empty()
        &&& self.exec_path@ == Seq::<char>::empty()
        &&& self.args@.len() == 0
        &&& !self.restart
        &&& self.enabled
        &&& !self.critical
        &&& self.environment@.len() == 0
        &&& self.pre_exec@.len() == 0
        &&& self.tty is None
        &&& self.user is None
        &&& self.runtime_dirs@.len() == 0
        &&& self.after@.len() == 0
        &&& self.ready_path is None
        &&& self.ready_timeout == DEFAULT_READY_TIMEOUT
        &&& self.stop_exec is None
        &&& self.stop_args@.len() == 0
        &&& self.stop_timeout == DEFAULT_STOP_TIMEOUT
        &&& self.nice == 0
        &&& self.oom_score_adj == 0
        &&& self.memory_max is None
        &&& self.cpu_weight is None
        &&& self.io_weight is None
        &&& self.limits.is_unset()
        &&& self.service_type == ServiceType::Simple
        &&& self.demand is None
    }

    /// Whether a device or another daemon, rather than the boot, starts this
    /// service.
    pub fn is_demand_started(&self) -> (r: bool)
        ensures
            r == (self.demand is Some),
    {
        self.demand.is_some()
    }
}

impl Default for ServiceConfig {
    fn default() -> (r: Self)
        ensures
            r.is_default(),
    {
        ServiceConfig {
            name: String::new(),
            description: String::new(),
            exec_path: String::new(),
            args: Vec::new(),
            restart: false,
            enabled: true,
            critical: false,
            environment: Vec::new(),
            pre_exec: Vec::new(),
            tty: None,
            user: None,
            runtime_dirs: Vec::new(),
            after: Vec::new(),
            ready_path: None,
            ready_timeout: DEFAULT_READY_TIMEOUT,
            stop_exec: None,
            stop_args: Vec::new(),
            stop_timeout: DEFAULT_STOP_TIMEOUT,
            nice: 0,
            oom_score_adj: 0,
            memory_max: None,
            cpu_weight: None,
            io_weight: None,
            limits: ResourceLimits::default(),
            service_type: ServiceType::Simple,
            demand: None,
        }
    }
}

pub const GETTY_NAME: &'static str = "getty-tty1";
pub const GETTY_EXEC: &'static str = "/bin/agetty";
pub const GETTY_TTY: &'static str = "/dev/tty1";

impl InitConfig {
    /// No services and no system settings: the starting point for a session
    /// supervisor, which must not inherit the getty the system default has.
    pub fn default_empty() -> (r: Self)
        ensures
            r.system.hostname@ == Seq::<char>::empty(),
            r.system.default_runlevel@ == DEFAULT_RUNLEVEL@,
            r.system.shutdown_timeout == DEFAULT_SHUTDOWN_TIMEOUT,
            r.system.load_modules && r.system.enable_udev && r.system.enable_network,
            r.system.log_level@ == DEFAULT_LOG_LEVEL@,
            r.system.log_max_size@ == DEFAULT_LOG_MAX_SIZE@,
            r.system.log_total_max@ == DEFAULT_LOG_TOTAL_MAX@,
            r.system.log_keep == DEFAULT_LOG_KEEP,
            r.system.log_compress,
            r.services@.len() == 0,
            r.mounts@.len() == 0,
            r.source_path is None,
    {
        let mut system = SystemConfig::default();
        system.hostname = String::new();
        InitConfig { system, services: Vec::new(), mounts: Vec::new(), source_path: None }
    }
}

impl Default for InitConfig {
    /// The built-in configuration: system defaults and one getty on tty1.
    fn default() -> (r: Self)
        ensures
            r.system.is_default(),
            r.services@.len() == 1,
            r.services@[0].name@ == GETTY_NAME@,
            r.services@[0].exec_path@ == GETTY_EXEC@,
            r.services@[0].args@.len() == 6,
            r.services@[0].restart,
            r.services@[0].enabled,
            r.services@[0].tty matches Some(t) && t@ == GETTY_TTY@,
            r.services@[0].demand is None,
            r.mounts@.len() == 0,
            r.source_path is None,
    {
        let mut getty = ServiceConfig::default();
        getty.name = GETTY_NAME.to_owned();
        getty.description = "Getty on tty1".to_owned();
        getty.exec_path = GETTY_EXEC.to_owned();
        getty.args = vec![
            "--noclear".to_owned(),
            "--skip-login".to_owned(),
            "--login-program".to_owned(),
            "/bin/raven-shell".to_owned(),
            "tty1".to_owned(),
            "linux".to_owned(),
        ];
        getty.restart = true;
        getty.tty = Some(GETTY_TTY.to_owned());
        InitConfig {
            system: SystemConfig::default(),
            services: vec![getty],
            mounts: Vec::new(),
            source_path: None,
        }
    }
}

/// Where the first definition named `name` is, at or after `i`.
pub open spec fn config_index(services: Seq<ServiceConfig>, name: Seq<char>, i: int) -> int
    decreases services.len() - i,
{
    if 0 <= i < services.len() && services[i].name@ != name {
        config_index(services, name, i + 1)
    } else {
        i
    }
}

/// The first definition named `name`.
pub open spec fn config_named(services: Seq<ServiceConfig>, name: Seq<char>) -> Option<ServiceConfig> {
    let k = config_index(services, name, 0);
    if 0 <= k < services.len() {
        Some(services[k])
    } else {
        None
    }
}

/// The first definition named `name`, as [`config_named`] says.
pub fn find_config<'a>(config: &'a InitConfig, name: &str) -> (r: Option<&'a ServiceConfig>)
    ensures
        match r {
            None => config_named(config.services@, name@) is None,
            Some(c) => config_named(config.services@, name@) == Some(*c),
        },
{
    let want = chars_of(name);
    let mut i: usize = 0;
    while i < config.services.len()
        invariant
            i <= config.services.len(),
            want@ == name@,
            config_index(config.services@, name@, i as int) == config_index(config.services@, name@, 0),
        decreases config.services.len() - i,
    {
        if same(&chars_of(config.services[i].name.as_str()), &want) {
            return Some(&config.services[i]);
        }
        i += 1;
    }
    None
}


/// An optional string by its characters.
pub open spec fn opt_view(o: Option<String>) -> Option<Seq<char>> {
    match o {
        Some(s) => Some(s@),
        None => None,
    }
}

/// The characters of each string.
pub open spec fn names_of(v: Seq<String>) -> Seq<Seq<char>> {
    v.map_values(|s: String| s@)
}

/// Whether `b` holds the pair `(k, v)`.
pub open spec fn holds(b: Seq<(String, String)>, k: Seq<char>, v: Seq<char>) -> bool {
    exists|j: int| #![trigger b[j]] 0 <= j < b.len() && b[j].0@ == k && b[j].1@ == v
}

/// Every pair of `a` is in `b`.
pub open spec fn pairs_within(a: Seq<(String, String)>, b: Seq<(String, String)>) -> bool {
    forall|i: int| #![trigger a[i]] 0 <= i < a.len() ==> holds(b, a[i].0@, a[i].1@)
}

/// Two lists of key and value holding the same pairs. Each list is a map
/// with distinct keys, so this is equality of the maps.
pub open spec fn same_pairs(a: Seq<(String, String)>, b: Seq<(String, String)>) -> bool {
    &&& a.len() == b.len()
    &&& pairs_within(a, b)
    &&& pairs_within(b, a)
}

pub open spec fn same_trigger(a: DeviceTrigger, b: DeviceTrigger) -> bool {
    &&& a.subsystem@ == b.subsystem@
    &&& opt_view(a.devtype) == opt_view(b.devtype)
    &&& same_pairs(a.properties@, b.properties@)
}

pub open spec fn same_demand(a: Option<DemandStart>, b: Option<DemandStart>) -> bool {
    match (a, b) {
        (None, None) => true,
        (Some(x), Some(y)) => {
            &&& x.device@.len() == y.device@.len()
            &&& forall|i: int| 0 <= i < x.device@.len() ==> same_trigger(#[trigger] x.device@[i], y.device@[i])
            &&& opt_view(x.daemon) == opt_view(y.daemon)
        },
        _ => false,
    }
}

pub open spec fn same_limits(a: ResourceLimits, b: ResourceLimits) -> bool {
    &&& a.nofile == b.nofile
    &&& a.nproc == b.nproc
    &&& opt_view(a.memlock) == opt_view(b.memlock)
    &&& opt_view(a.core) == opt_view(b.core)
}

/// Two definitions that say the same thing, field by field.
pub open spec fn same_definition(a: ServiceConfig, b: ServiceConfig) -> bool {
    &&& a.name@ == b.name@
    &&& a.description@ == b.description@
    &&& a.exec_path@ == b.exec_path@
    &&& names_of(a.args@) == names_of(b.args@)
    &&& a.restart == b.restart
    &&& a.enabled == b.enabled
    &&& a.critical == b.critical
    &&& same_pairs(a.environment@, b.environment@)
    &&& names_of(a.pre_exec@) == names_of(b.pre_exec@)
    &&& opt_view(a.tty) == opt_view(b.tty)
    &&& opt_view(a.user) == opt_view(b.user)
    &&& names_of(a.runtime_dirs@) == names_of(b.runtime_dirs@)
    &&& names_of(a.after@) == names_of(b.after@)
    &&& opt_view(a.ready_path) == opt_view(b.ready_path)
    &&& a.ready_timeout == b.ready_timeout
    &&& opt_view(a.stop_exec) == opt_view(b.stop_exec)
    &&& names_of(a.stop_args@) == names_of(b.stop_args@)
    &&& a.stop_timeout == b.stop_timeout
    &&& a.nice == b.nice
    &&& a.oom_score_adj == b.oom_score_adj
    &&& opt_view(a.memory_max) == opt_view(b.memory_max)
    &&& a.cpu_weight == b.cpu_weight
    &&& a.io_weight == b.io_weight
    &&& same_limits(a.limits, b.limits)
    &&& a.service_type == b.service_type
    &&& same_demand(a.demand, b.demand)
}

fn same_opt(a: &Option<String>, b: &Option<String>) -> (r: bool)
    ensures
        r == (opt_view(*a) == opt_view(*b)),
{
    match (a, b) {
        (None, None) => true,
        (Some(x), Some(y)) => *x == *y,
        _ => false,
    }
}

fn same_strings(a: &Vec<String>, b: &Vec<String>) -> (r: bool)
    ensures
        r == (names_of(a@) == names_of(b@)),
{
    if a.len() != b.len() {
        assert(names_of(a@).len() != names_of(b@).len());
        return false;
    }
    let mut i: usize = 0;
    while i < a.len()
        invariant
            i <= a.len() == b.len(),
            forall|k: int| 0 <= k < i ==> (#[trigger] a@[k])@ == b@[k]@,
        decreases a.len() - i,
    {
        if a[i] != b[i] {
            assert(names_of(a@)[i as int] != names_of(b@)[i as int]);
            return false;
        }
        i += 1;
    }
    assert(names_of(a@) =~= names_of(b@));
    true
}

/// Whether `b` holds the pair `(k, v)`.
fn holds_pair(b: &Vec<(String, String)>, k: &String, v: &String) -> (r: bool)
    ensures
        r == holds(b@, k@, v@),
{
    let mut j: usize = 0;
    while j < b.len()
        invariant
            j <= b.len(),
            forall|m: int| 0 <= m < j ==> !((#[trigger] b@[m]).0@ == k@ && b@[m].1@ == v@),
        decreases b.len() - j,
    {
        if b[j].0 == *k && b[j].1 == *v {
            return true;
        }
        j += 1;
    }
    false
}

fn covers(a: &Vec<(String, String)>, b: &Vec<(String, String)>) -> (r: bool)
    ensures
        r == pairs_within(a@, b@),
{
    let mut i: usize = 0;
    while i < a.len()
        invariant
            i <= a.len(),
            forall|m: int| #![trigger a@[m]] 0 <= m < i ==> holds(b@, a@[m].0@, a@[m].1@),
        decreases a.len() - i,
    {
        if !holds_pair(b, &a[i].0, &a[i].1) {
            assert(!holds(b@, a@[i as int].0@, a@[i as int].1@));
            return false;
        }
        i += 1;
    }
    true
}

fn same_pair_lists(a: &Vec<(String, String)>, b: &Vec<(String, String)>) -> (r: bool)
    ensures
        r == same_pairs(a@, b@),
{
    if a.len() != b.len() {
        return false;
    }
    let ab = covers(a, b);
    let ba = covers(b, a);
    ab && ba
}

fn same_demand_blocks(a: &Option<DemandStart>, b: &Option<DemandStart>) -> (r: bool)
    ensures
        r == same_demand(*a, *b),
{
    if a.is_none() || b.is_none() {
        return a.is_none() && b.is_none();
    }
    let x = a.as_ref().unwrap();
    let y = b.as_ref().unwrap();
    if x.device.len() != y.device.len() || !same_opt(&x.daemon, &y.daemon) {
        return false;
    }
    let mut i: usize = 0;
    while i < x.device.len()
        invariant
            i <= x.device.len() == y.device.len(),
            *a == Some(*x),
            *b == Some(*y),
            opt_view(x.daemon) == opt_view(y.daemon),
            forall|k: int| 0 <= k < i ==> same_trigger(#[trigger] x.device@[k], y.device@[k]),
        decreases x.device.len() - i,
    {
        let p = &x.device[i];
        let q = &y.device[i];
        if p.subsystem != q.subsystem || !same_opt(&p.devtype, &q.devtype) || !same_pair_lists(
            &p.properties,
            &q.properties,
        ) {
            assert(!same_trigger(x.device@[i as int], y.device@[i as int]));
            return false;
        }
        i += 1;
    }
    true
}

impl ServiceConfig {
    /// Whether `other` says exactly what this definition says.
    pub fn same_as(&self, other: &ServiceConfig) -> (r: bool)
        ensures
            r == same_definition(*self, *other),
    {
        self.name == other.name && self.description == other.description && self.exec_path == other.exec_path
            && same_strings(&self.args, &other.args) && self.restart == other.restart && self.enabled
            == other.enabled && self.critical == other.critical && same_pair_lists(
            &self.environment,
            &other.environment,
        ) && same_strings(&self.pre_exec, &other.pre_exec) && same_opt(&self.tty, &other.tty) && same_opt(
            &self.user,
            &other.user,
        ) && same_strings(&self.runtime_dirs, &other.runtime_dirs) && same_strings(&self.after, &other.after)
            && same_opt(&self.ready_path, &other.ready_path) && self.ready_timeout == other.ready_timeout
            && same_opt(&self.stop_exec, &other.stop_exec) && same_strings(&self.stop_args, &other.stop_args)
            && self.stop_timeout == other.stop_timeout && self.nice == other.nice && self.oom_score_adj
            == other.oom_score_adj && same_opt(&self.memory_max, &other.memory_max) && self.cpu_weight
            == other.cpu_weight && self.io_weight == other.io_weight && self.limits.nofile == other.limits.nofile
            && self.limits.nproc == other.limits.nproc && same_opt(&self.limits.memlock, &other.limits.memlock)
            && same_opt(&self.limits.core, &other.limits.core) && self.service_type == other.service_type
            && same_demand_blocks(&self.demand, &other.demand)
    }
}

/// Where the first definition named `name` is: [`config_index`], which is
/// the length when there is none.
pub fn position_of(defs: &Vec<ServiceConfig>, name: &str) -> (k: usize)
    ensures
        k as int == config_index(defs@, name@, 0),
        k <= defs.len(),
{
    let want = chars_of(name);
    let mut i: usize = 0;
    while i < defs.len()
        invariant
            i <= defs.len(),
            want@ == name@,
            config_index(defs@, name@, i as int) == config_index(defs@, name@, 0),
        decreases defs.len() - i,
    {
        if same(&chars_of(defs[i].name.as_str()), &want) {
            return i;
        }
        i += 1;
    }
    i
}


/// The hostname a `[system]` block without one gives.
pub fn default_hostname() -> (r: String)
    ensures
        r@ == DEFAULT_HOSTNAME@,
{
    DEFAULT_HOSTNAME.to_owned()
}

pub fn default_runlevel() -> (r: String)
    ensures
        r@ == DEFAULT_RUNLEVEL@,
{
    DEFAULT_RUNLEVEL.to_owned()
}

pub fn default_shutdown_timeout() -> (r: u32)
    ensures
        r == DEFAULT_SHUTDOWN_TIMEOUT,
{
    DEFAULT_SHUTDOWN_TIMEOUT
}

/// What a flag that defaults to on is when a file does not mention it.
pub fn default_true() -> (r: bool)
    ensures
        r,
{
    true
}

pub fn default_log_level() -> (r: String)
    ensures
        r@ == DEFAULT_LOG_LEVEL@,
{
    DEFAULT_LOG_LEVEL.to_owned()
}

/// Long enough for a deauthentication to reach the access point, short
/// enough that a wedged stop command does not hold up a reboot.
pub fn default_stop_timeout() -> (r: u32)
    ensures
        r == DEFAULT_STOP_TIMEOUT,
{
    DEFAULT_STOP_TIMEOUT
}

pub fn default_ready_timeout() -> (r: u32)
    ensures
        r == DEFAULT_READY_TIMEOUT,
{
    DEFAULT_READY_TIMEOUT
}

/// Whether `name` is among the names of `defs`.
pub open spec fn defines(defs: Seq<ServiceConfig>, name: Seq<char>) -> bool {
    exists|i: int| 0 <= i < defs.len() && #[trigger] defs[i].name@ == name
}

/// The services after a drop-in's are folded in, in order: each whose name
/// is not yet defined is appended, and the main configuration wins a
/// collision.
pub open spec fn folded(defs: Seq<ServiceConfig>, dropin: Seq<ServiceConfig>) -> Seq<ServiceConfig>
    decreases dropin.len(),
{
    if dropin.len() == 0 {
        defs
    } else {
        let before = folded(defs, dropin.drop_last());
        if defines(before, dropin.last().name@) {
            before
        } else {
            before.push(dropin.last())
        }
    }
}

/// The names a drop-in tried to redefine and was refused.
pub open spec fn refused(defs: Seq<ServiceConfig>, dropin: Seq<ServiceConfig>) -> Seq<Seq<char>>
    decreases dropin.len(),
{
    if dropin.len() == 0 {
        Seq::empty()
    } else {
        let before = refused(defs, dropin.drop_last());
        if defines(folded(defs, dropin.drop_last()), dropin.last().name@) {
            before.push(dropin.last().name@)
        } else {
            before
        }
    }
}

/// Fold a drop-in's services into `services`, as [`folded`] says, and give
/// back the names it was refused.
pub fn fold_dropin(services: &mut Vec<ServiceConfig>, dropin: Vec<ServiceConfig>) -> (r: Vec<String>)
    ensures
        final(services)@ == folded(old(services)@, dropin@),
        names_of(r@) == refused(old(services)@, dropin@),
{
    let ghost start = services@;
    let ghost all = dropin@;
    let mut rest = dropin;
    let mut out: Vec<String> = Vec::new();
    let ghost mut done: int = 0;
    while rest.len() > 0
        invariant
            0 <= done <= all.len(),
            rest@ == all.subrange(done, all.len() as int),
            services@ == folded(start, all.subrange(0, done)),
            names_of(out@) == refused(start, all.subrange(0, done)),
        decreases rest.len(),
    {
        let d = rest.remove(0);
        proof {
            assert(all.subrange(0, done + 1).drop_last() =~= all.subrange(0, done));
            assert(all.subrange(0, done + 1).last() == d);
        }
        let k = position_of(services, d.name.as_str());
        proof {
            crate::control::lemma_config_index(services@, d.name@, 0);
            if k < services.len() {
                assert(services@[k as int].name@ == d.name@);
            } else {
                assert forall|i: int| 0 <= i < services@.len() implies #[trigger] services@[i].name@ != d.name@ by {
                    crate::control::lemma_config_index(services@, d.name@, 0);
                }
            }
        }
        let ghost before = names_of(out@);
        if k < services.len() {
            out.push(d.name.clone());
            assert(names_of(out@) =~= before.push(d.name@));
        } else {
            services.push(d);
        }
        proof {
            done = done + 1;
        }
        assert(rest@ =~= all.subrange(done, all.len() as int));
    }
    assert(all.subrange(0, done) =~= all);
    out
}


/// Each definition in `defs` under a name of its own.
pub open spec fn distinct_definitions(defs: Seq<ServiceConfig>) -> bool {
    forall|i: int, j: int| 0 <= i < j < defs.len() ==> (#[trigger] defs[i]).name@ != (#[trigger] defs[j]).name@
}

/// Folding a drop-in in keeps every definition there was, where it was, and
/// appends only drop-in services under names not yet defined, in the order
/// the drop-in gives them; a drop-in service whose name the main
/// configuration already defines is refused, by name, and the main
/// configuration's definition stays. Every drop-in service is either added
/// or refused, and names that were distinct stay distinct.
pub proof fn lemma_dropin_never_redefines(defs: Seq<ServiceConfig>, dropin: Seq<ServiceConfig>)
    ensures
        folded(defs, dropin).len() >= defs.len(),
        folded(defs, dropin).subrange(0, defs.len() as int) == defs,
        forall|k: int|
            defs.len() <= k < folded(defs, dropin).len() ==> dropin.contains(#[trigger] folded(defs, dropin)[k])
                && !defines(defs, folded(defs, dropin)[k].name@),
        forall|j: int| 0 <= j < dropin.len() ==> defines(folded(defs, dropin), (#[trigger] dropin[j]).name@),
        forall|j: int|
            0 <= j < dropin.len() && defines(defs, (#[trigger] dropin[j]).name@) ==> refused(defs, dropin).contains(
                dropin[j].name@,
            ),
        folded(defs, dropin).len() + refused(defs, dropin).len() == defs.len() + dropin.len(),
        distinct_definitions(defs) ==> distinct_definitions(folded(defs, dropin)),
    decreases dropin.len(),
{
    if dropin.len() > 0 {
        let pre = dropin.drop_last();
        let x = dropin.last();
        lemma_dropin_never_redefines(defs, pre);
        let before = folded(defs, pre);
        let now = folded(defs, dropin);
        let rb = refused(defs, pre);
        let rn = refused(defs, dropin);
        assert forall|k: int| 0 <= k < before.len() implies #[trigger] now[k] == before[k] by {}
        assert(now.subrange(0, defs.len() as int) =~= before.subrange(0, defs.len() as int));
        assert forall|k: int| defs.len() <= k < now.len() implies dropin.contains(#[trigger] now[k]) && !defines(
            defs,
            now[k].name@,
        ) by {
            if k < before.len() {
                assert(pre.contains(before[k]));
                let j = choose|j: int| 0 <= j < pre.len() && pre[j] == before[k];
                assert(dropin[j] == pre[j]);
            } else {
                assert(now[k] == x);
                assert(dropin[dropin.len() - 1] == x);
                assert(!defines(before, x.name@));
                if defines(defs, x.name@) {
                    let i = choose|i: int| 0 <= i < defs.len() && #[trigger] defs[i].name@ == x.name@;
                    assert(before.subrange(0, defs.len() as int)[i] == before[i]);
                    assert(before[i].name@ == x.name@);
                }
            }
        }
        assert forall|j: int| 0 <= j < dropin.len() implies defines(now, (#[trigger] dropin[j]).name@) by {
            if j < pre.len() {
                assert(pre[j] == dropin[j]);
                assert(defines(before, pre[j].name@));
                let i = choose|i: int| 0 <= i < before.len() && #[trigger] before[i].name@ == pre[j].name@;
                assert(now[i] == before[i]);
            } else if !defines(before, x.name@) {
                assert(now[before.len() as int] == x);
            } else {
                let i = choose|i: int| 0 <= i < before.len() && #[trigger] before[i].name@ == x.name@;
                assert(now[i] == before[i]);
            }
        }
        assert forall|j: int|
            0 <= j < dropin.len() && defines(defs, (#[trigger] dropin[j]).name@) implies rn.contains(dropin[j].name@) by {
            if j < pre.len() {
                assert(pre[j] == dropin[j]);
                let m = choose|m: int| 0 <= m < rb.len() && rb[m] == pre[j].name@;
                assert(rn[m] == rb[m]);
            } else {
                let i = choose|i: int| 0 <= i < defs.len() && #[trigger] defs[i].name@ == x.name@;
                assert(before.subrange(0, defs.len() as int)[i] == before[i]);
                assert(before[i].name@ == x.name@);
                assert(defines(before, x.name@));
                assert(rn[rb.len() as int] == x.name@);
            }
        }
        if distinct_definitions(defs) {
            assert forall|i: int, j: int| 0 <= i < j < now.len() implies (#[trigger] now[i]).name@ != (
            #[trigger] now[j]).name@ by {
                if j < before.len() {
                    assert(now[i] == before[i] && now[j] == before[j]);
                } else {
                    assert(now[j] == x && now[i] == before[i]);
                    assert(!defines(before, x.name@));
                }
            }
        }
    }
}
} // verus!
