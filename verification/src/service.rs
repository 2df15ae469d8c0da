//! What the supervisor knows about one service: its definition, whether a
//! process is running for it, and what became of its runs.
use vstd::prelude::*;

use crate::config::{ServiceConfig, ServiceType};
use crate::text::{chars_of, same};

verus! {

/// Where a service is in its life.
#[derive(Clone, Copy, PartialEq, Eq, Structural, Debug)]
pub enum ServiceState {
    /// Never started, or stopped on request.
    Stopped,
    /// A process is running for it.
    Running,
    /// Its process exited on its own.
    Exited,
    /// Its process was killed by a signal.
    Signaled,
    /// It could not be started.
    Failed,
}

/// What a one-shot's run came to.
#[derive(Clone, Copy, PartialEq, Eq, Structural, Debug)]
pub enum OneshotOutcome {
    /// It ran and exited successfully.
    Completed,
    /// It ran and exited with this status.
    Failed(i32),
    /// It is running now.
    Running,
    /// It has not run.
    Unfinished,
}

/// What a supervisor hands to the one that replaces it: enough to pick a
/// service up where it was.
pub struct ServiceSnapshot {
    pub config: ServiceConfig,
    pub pid: Option<u32>,
    pub manually_stopped: bool,
    /// Milliseconds since the kernel started, of the current or last run's
    /// start and readiness.
    pub started_mono: Option<u64>,
    pub ready_mono: Option<u64>,
    /// Milliseconds since the kernel started, of the first run this boot.
    pub first_started_mono: Option<u64>,
    pub first_ready_mono: Option<u64>,
    /// How the last run exited, if it has.
    pub exit_code: Option<i32>,
}

impl Default for ServiceSnapshot {
    fn default() -> (r: Self)
        ensures
            r.config.is_default(),
            r.pid is None,
            !r.manually_stopped,
            r.started_mono is None,
            r.ready_mono is None,
            r.first_started_mono is None,
            r.first_ready_mono is None,
            r.exit_code is None,
    {
        ServiceSnapshot {
            config: ServiceConfig::default(),
            pid: None,
            manually_stopped: false,
            started_mono: None,
            ready_mono: None,
            first_started_mono: None,
            first_ready_mono: None,
            exit_code: None,
        }
    }
}

/// One supervised service. Times are milliseconds since the kernel started.
pub struct Service {
    pub config: ServiceConfig,
    pub pid: Option<u32>,
    pub state: ServiceState,
    pub manually_stopped: bool,
    pub started_mono: Option<u64>,
    pub ready_mono: Option<u64>,
    pub first_started_mono: Option<u64>,
    pub first_ready_mono: Option<u64>,
    pub exit_code: Option<i32>,
    /// How many times the supervisor has brought it back.
    pub restart_count: u32,
    pub last_restart_mono: Option<u64>,
    /// When a dead service is due to be restarted.
    pub retry_mono: Option<u64>,
}

/// What a one-shot's record says about its run.
pub open spec fn outcome_of(s: Service) -> Option<OneshotOutcome> {
    if s.config.service_type != ServiceType::Oneshot {
        None
    } else if s.pid is Some {
        Some(OneshotOutcome::Running)
    } else if s.first_started_mono is Some {
        match s.exit_code {
            Some(c) => if c != 0 {
                Some(OneshotOutcome::Failed(c))
            } else {
                Some(OneshotOutcome::Completed)
            },
            None => Some(OneshotOutcome::Completed),
        }
    } else {
        Some(OneshotOutcome::Unfinished)
    }
}

impl Service {
    /// Pick up a service a previous supervisor was running, under `config`:
    /// running if the snapshot names a process, stopped otherwise.
    pub fn adopt(snapshot: ServiceSnapshot, config: ServiceConfig) -> (r: Service)
        ensures
            r.config == config,
            r.pid == snapshot.pid,
            r.state == (if snapshot.pid is Some {
                ServiceState::Running
            } else {
                ServiceState::Stopped
            }),
            r.manually_stopped == snapshot.manually_stopped,
            r.started_mono == snapshot.started_mono,
            r.ready_mono == snapshot.ready_mono,
            r.first_started_mono == snapshot.first_started_mono,
            r.first_ready_mono == snapshot.first_ready_mono,
            r.exit_code == snapshot.exit_code,
            r.restart_count == 0,
            r.last_restart_mono is None,
            r.retry_mono is None,
    {
        let state = if snapshot.pid.is_some() {
            ServiceState::Running
        } else {
            ServiceState::Stopped
        };
        Service {
            config,
            pid: snapshot.pid,
            state,
            manually_stopped: snapshot.manually_stopped,
            started_mono: snapshot.started_mono,
            ready_mono: snapshot.ready_mono,
            first_started_mono: snapshot.first_started_mono,
            first_ready_mono: snapshot.first_ready_mono,
            exit_code: snapshot.exit_code,
            restart_count: 0,
            last_restart_mono: None,
            retry_mono: None,
        }
    }

    pub fn state(&self) -> (r: ServiceState)
        ensures
            r == self.state,
    {
        self.state
    }

    pub fn is_running(&self) -> (r: bool)
        ensures
            r == (self.pid is Some),
    {
        self.pid.is_some()
    }

    pub fn is_manually_stopped(&self) -> (r: bool)
        ensures
            r == self.manually_stopped,
    {
        self.manually_stopped
    }

    pub fn is_oneshot(&self) -> (r: bool)
        ensures
            r == (self.config.service_type == ServiceType::Oneshot),
    {
        self.config.service_type == ServiceType::Oneshot
    }

    pub fn first_started_at(&self) -> (r: Option<u64>)
        ensures
            r == self.first_started_mono,
    {
        self.first_started_mono
    }

    pub fn oneshot_outcome(&self) -> (r: Option<OneshotOutcome>)
        ensures
            r == outcome_of(*self),
    {
        if self.config.service_type != ServiceType::Oneshot {
            None
        } else if self.pid.is_some() {
            Some(OneshotOutcome::Running)
        } else if self.first_started_mono.is_some() {
            match self.exit_code {
                Some(c) => if c != 0 {
                    Some(OneshotOutcome::Failed(c))
                } else {
                    Some(OneshotOutcome::Completed)
                },
                None => Some(OneshotOutcome::Completed),
            }
        } else {
            Some(OneshotOutcome::Unfinished)
        }
    }

    pub fn name(&self) -> (r: &str)
        ensures
            r@ == self.config.name@,
    {
        self.config.name.as_str()
    }
}

/// Where the first supervised service named `name` is, at or after `i`.
pub open spec fn service_index(services: Seq<Service>, name: Seq<char>, i: int) -> int
    decreases services.len() - i,
{
    if 0 <= i < services.len() && services[i].config.name@ != name {
        service_index(services, name, i + 1)
    } else {
        i
    }
}

/// The first supervised service named `name`.
pub open spec fn service_named(services: Seq<Service>, name: Seq<char>) -> Option<Service> {
    let k = service_index(services, name, 0);
    if 0 <= k < services.len() {
        Some(services[k])
    } else {
        None
    }
}

/// The first supervised service named `name`, as [`service_named`] says.
pub fn find_service<'a>(services: &'a Vec<Service>, name: &str) -> (r: Option<&'a Service>)
    ensures
        match r {
            None => service_named(services@, name@) is None,
            Some(s) => service_named(services@, name@) == Some(*s),
        },
{
    let want = chars_of(name);
    let mut i: usize = 0;
    while i < services.len()
        invariant
            i <= services.len(),
            want@ == name@,
            service_index(services@, name@, i as int) == service_index(services@, name@, 0),
        decreases services.len() - i,
    {
        if same(&chars_of(services[i].config.name.as_str()), &want) {
            return Some(&services[i]);
        }
        i += 1;
    }
    None
}


impl Service {
    /// Whether the supervisor should bring the service back at `now`: it
    /// died, exiting or killed, its definition asks for restarts, nobody
    /// stopped it on purpose, and any wait set before retrying is over.
    pub fn restart_due(&self, now: u64) -> (r: bool)
        ensures
            r == ((self.state == ServiceState::Exited || self.state == ServiceState::Signaled) && self.pid is None
                && self.config.restart && !self.manually_stopped && match self.retry_mono {
                Some(t) => now >= t,
                None => true,
            }),
    {
        let died = match self.state {
            ServiceState::Exited => true,
            ServiceState::Signaled => true,
            _ => false,
        };
        died && self.pid.is_none() && self.config.restart && !self.manually_stopped && match self.retry_mono {
            Some(t) => now >= t,
            None => true,
        }
    }
}


/// How long until a dead service's restart falls due, if one is pending.
pub open spec fn retry_wait(s: Service, now: u64) -> Option<u64> {
    match (s.pid, s.retry_mono) {
        (None, Some(at)) => Some(if at >= now { (at - now) as u64 } else { 0u64 }),
        _ => None,
    }
}

/// The soonest of the pending restarts.
pub open spec fn earliest_retry(services: Seq<Service>, now: u64) -> Option<u64>
    decreases services.len(),
{
    if services.len() == 0 {
        None
    } else {
        let before = earliest_retry(services.drop_last(), now);
        match (before, retry_wait(services.last(), now)) {
            (Some(a), Some(b)) => Some(if b < a { b } else { a }),
            (None, w) => w,
            (a, None) => a,
        }
    }
}

/// How long until the earliest pending restart falls due, at `now`.
pub fn next_retry_in(services: &Vec<Service>, now: u64) -> (r: Option<u64>)
    ensures
        r == earliest_retry(services@, now),
{
    let mut best: Option<u64> = None;
    let mut i: usize = 0;
    while i < services.len()
        invariant
            i <= services.len(),
            best == earliest_retry(services@.subrange(0, i as int), now),
        decreases services.len() - i,
    {
        assert(services@.subrange(0, i + 1).drop_last() =~= services@.subrange(0, i as int));
        let s = &services[i];
        let wait = match (s.pid, s.retry_mono) {
            (None, Some(at)) => Some(if at >= now { at - now } else { 0 }),
            _ => None,
        };
        best = match (best, wait) {
            (Some(a), Some(b)) => Some(if b < a { b } else { a }),
            (None, w) => w,
            (a, None) => a,
        };
        i += 1;
    }
    assert(services@.subrange(0, i as int) =~= services@);
    best
}
} // verus!
