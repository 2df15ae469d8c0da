//! The order services start in at boot.
//!
//! Enabled services are taken in configuration order, and `after` is
//! authoritative: a service starts only once everything it is ordered after
//! has started, and is skipped, with the reason, when that can no longer
//! happen. The waiting and the starting are the program's part. It asks
//! [`Startup::next`] what to do, does it, and reports back through
//! [`Startup::prepared`] and [`Startup::launched`].
use vstd::prelude::*;

use crate::config::{config_named, find_config, InitConfig, ServiceConfig, ServiceType};
use crate::text::string_views;

verus! {

/// A wait before a service starts, for something it is ordered after.
pub enum Wait {
    /// Give the one-shot named here this many seconds to finish. Its outcome
    /// is reported and does not stop the service starting; zero when its
    /// time has already been spent once this boot.
    Oneshot(String, u32),
    /// Wait this many seconds for the ready path of the daemon named here.
    ReadyPath(String, String, u32),
}

/// A wait by its parts: whether it is for a one-shot, the name, the path,
/// and the seconds.
pub open spec fn wait_view(w: Wait) -> (bool, Seq<char>, Seq<char>, u32) {
    match w {
        Wait::Oneshot(n, t) => (true, n@, Seq::empty(), t),
        Wait::ReadyPath(n, p, t) => (false, n@, p@, t),
    }
}

pub open spec fn wait_views(v: Seq<Wait>) -> Seq<(bool, Seq<char>, Seq<char>, u32)> {
    v.map_values(|w: Wait| wait_view(w))
}

/// What to do next, for the enabled service at this index of the
/// configuration.
pub enum StartStep {
    /// Not started at boot: a device or a daemon starts it on demand.
    Deferred(usize),
    /// Not started: it is ordered after a service that starts on demand.
    AfterDemand(usize),
    /// Skipped: something it is ordered after did not start.
    DependencyUnavailable(usize),
    /// Perform these waits in order, stopping at the first ready path that
    /// does not appear, and report to [`Startup::prepared`].
    Prepare(usize, Vec<Wait>),
    /// Never started: what these are ordered after can never start.
    Unresolved(Vec<usize>),
    /// Every enabled service has been dealt with.
    Done,
}

/// How starting a prepared service went.
#[derive(Clone, Copy, PartialEq, Eq, Structural, Debug)]
pub enum Launch {
    /// Its process is running.
    Started,
    /// Its program is not installed; that is not a failure.
    NotInstalled,
    /// It could not be started.
    Failed,
}

/// The state of the boot's start-up.
pub struct Startup {
    /// Indices of the enabled services still to deal with, in order.
    pending: Vec<usize>,
    /// Where the current pass over `pending` is.
    index: usize,
    /// Whether the current pass has dealt with anything.
    progressed: bool,
    started: Vec<String>,
    unavailable: Vec<String>,
    deferred: Vec<String>,
    /// One-shots whose time has been spent waiting.
    waited: Vec<String>,
    /// Where in `pending` the service prepared and not yet reported on is.
    awaiting: Option<usize>,
    /// The configuration index of each service started, in order.
    started_from: Ghost<Seq<usize>>,
    /// The configuration index of each service dealt with, in order.
    decided: Ghost<Seq<usize>>,
}

/// Whether any name `c` is ordered after is in `set`.
pub open spec fn after_any(c: ServiceConfig, set: Seq<Seq<char>>) -> bool {
    exists|k: int| 0 <= k < c.after@.len() && set.contains(#[trigger] c.after@[k]@)
}

/// Whether every name `c` is ordered after is in `set`.
pub open spec fn after_all(c: ServiceConfig, set: Seq<Seq<char>>) -> bool {
    forall|k: int| 0 <= k < c.after@.len() ==> set.contains(#[trigger] c.after@[k]@)
}

/// Whether something can be decided about `c` now, rather than waiting for
/// what it is ordered after.
pub open spec fn decidable(c: ServiceConfig, started: Seq<Seq<char>>, unavailable: Seq<Seq<char>>, deferred: Seq<Seq<char>>) -> bool {
    c.demand is Some || after_any(c, deferred) || after_any(c, unavailable) || after_all(c, started)
}

/// The first position at or after `i` of `pending` whose service can be
/// decided; the length when none can.
pub open spec fn first_decidable(
    defs: Seq<ServiceConfig>,
    pending: Seq<usize>,
    i: int,
    started: Seq<Seq<char>>,
    unavailable: Seq<Seq<char>>,
    deferred: Seq<Seq<char>>,
) -> int
    decreases pending.len() - i,
{
    if 0 <= i < pending.len() && !decidable(defs[pending[i] as int], started, unavailable, deferred) {
        first_decidable(defs, pending, i + 1, started, unavailable, deferred)
    } else {
        i
    }
}

/// The one-shots named among `after`, in order, that have a definition.
pub open spec fn oneshots_in(defs: Seq<ServiceConfig>, after: Seq<Seq<char>>) -> Seq<Seq<char>>
    decreases after.len(),
{
    if after.len() == 0 {
        Seq::empty()
    } else {
        let rest = oneshots_in(defs, after.drop_last());
        match config_named(defs, after.last()) {
            Some(d) => if d.service_type == ServiceType::Oneshot {
                rest.push(after.last())
            } else {
                rest
            },
            None => rest,
        }
    }
}

/// The waits for a service ordered after `after`, when the one-shots in
/// `waited` have had their time: for each name with a definition, in order,
/// a one-shot's finish (with no time if it has had its time, here or
/// earlier in the list) or a daemon's ready path.
pub open spec fn waits_for(defs: Seq<ServiceConfig>, after: Seq<Seq<char>>, waited: Seq<Seq<char>>) -> Seq<
    (bool, Seq<char>, Seq<char>, u32),
>
    decreases after.len(),
{
    if after.len() == 0 {
        Seq::empty()
    } else {
        let prev = after.drop_last();
        let rest = waits_for(defs, prev, waited);
        let name = after.last();
        match config_named(defs, name) {
            Some(d) => if d.service_type == ServiceType::Oneshot {
                let spent = waited.contains(name) || oneshots_in(defs, prev).contains(name);
                rest.push((true, name, Seq::empty(), if spent { 0 } else { d.ready_timeout }))
            } else {
                match d.ready_path {
                    Some(p) => rest.push((false, name, p@, d.ready_timeout)),
                    None => rest,
                }
            },
            None => rest,
        }
    }
}

pub open spec fn after_names(c: ServiceConfig) -> Seq<Seq<char>> {
    string_views(c.after@)
}

/// Indices of the enabled services of `defs`, below `n`, in order.
pub open spec fn enabled_below(defs: Seq<ServiceConfig>, n: int) -> Seq<usize>
    decreases n,
{
    if n <= 0 {
        Seq::empty()
    } else if defs[n - 1].enabled {
        enabled_below(defs, n - 1).push((n - 1) as usize)
    } else {
        enabled_below(defs, n - 1)
    }
}

fn any_listed(set: &Vec<String>, after: &Vec<String>) -> (r: bool)
    ensures
        r == exists|k: int| 0 <= k < after@.len() && string_views(set@).contains(#[trigger] after@[k]@),
{
    let mut k: usize = 0;
    while k < after.len()
        invariant
            k <= after.len(),
            forall|m: int| 0 <= m < k ==> !string_views(set@).contains(#[trigger] after@[m]@),
        decreases after.len() - k,
    {
        if crate::control::listed(set, after[k].as_str()) {
            return true;
        }
        k += 1;
    }
    false
}

fn all_listed(set: &Vec<String>, after: &Vec<String>) -> (r: bool)
    ensures
        r == forall|k: int| 0 <= k < after@.len() ==> string_views(set@).contains(#[trigger] after@[k]@),
{
    let mut k: usize = 0;
    while k < after.len()
        invariant
            k <= after.len(),
            forall|m: int| 0 <= m < k ==> string_views(set@).contains(#[trigger] after@[m]@),
        decreases after.len() - k,
    {
        if !crate::control::listed(set, after[k].as_str()) {
            return false;
        }
        k += 1;
    }
    true
}

impl Startup {
    /// Everything the boot has decided so far, by name.
    pub closed spec fn started_names(&self) -> Seq<Seq<char>> {
        string_views(self.started@)
    }

    pub closed spec fn unavailable_names(&self) -> Seq<Seq<char>> {
        string_views(self.unavailable@)
    }

    pub closed spec fn deferred_names(&self) -> Seq<Seq<char>> {
        string_views(self.deferred@)
    }

    pub closed spec fn waited_names(&self) -> Seq<Seq<char>> {
        string_views(self.waited@)
    }

    pub closed spec fn pending(&self) -> Seq<usize> {
        self.pending@
    }

    pub closed spec fn position(&self) -> int {
        self.index as int
    }

    pub closed spec fn progressed(&self) -> bool {
        self.progressed
    }

    /// The service prepared and waiting to be reported on.
    pub closed spec fn awaiting(&self) -> Option<usize> {
        match self.awaiting {
            Some(p) => Some(self.pending@[p as int]),
            None => None,
        }
    }

    /// The configuration index of each service dealt with (started,
    /// skipped, deferred or never startable), in order.
    pub closed spec fn decided(&self) -> Seq<usize> {
        self.decided@
    }

    /// The configuration index of each service started, in the order they
    /// started.
    pub closed spec fn started_from(&self) -> Seq<usize> {
        self.started_from@
    }

    /// The state hangs together for `config`: each pending index names an
    /// enabled service, once, and the pass is within the pending list.
    pub closed spec fn valid(&self, config: InitConfig) -> bool {
        &&& forall|k: int|
            0 <= k < self.pending@.len() ==> (#[trigger] self.pending@[k]) < config.services@.len()
                && config.services@[self.pending@[k] as int].enabled
        &&& self.index <= self.pending@.len()
        &&& match self.awaiting {
            Some(p) => {
                &&& p == self.index
                &&& p < self.pending@.len()
                &&& config.services@[self.pending@[p as int] as int].demand is None
                &&& after_all(config.services@[self.pending@[p as int] as int], string_views(self.started@))
            },
            None => true,
        }
        &&& config.services@.len() <= usize::MAX
        &&& (self.pending@ + self.decided@).to_multiset() == enabled_below(
            config.services@,
            config.services@.len() as int,
        ).to_multiset()
        &&& self.started_from@.len() == self.started@.len()
        &&& forall|k: int|
            0 <= k < self.started_from@.len() ==> {
                let i = #[trigger] self.started_from@[k];
                &&& i < config.services@.len()
                &&& config.services@[i as int].enabled
                &&& config.services@[i as int].name@ == self.started@[k]@
                &&& config.services@[i as int].demand is None
                &&& after_all(config.services@[i as int], string_views(self.started@).subrange(0, k))
            }
    }

    /// The start of a boot: every enabled service pending, in order, and
    /// nothing decided.
    pub fn new(config: &InitConfig) -> (r: Startup)
        ensures
            r.valid(*config),
            r.pending() == enabled_below(config.services@, config.services@.len() as int),
            r.position() == 0,
            !r.progressed(),
            r.started_names().len() == 0,
            r.unavailable_names().len() == 0,
            r.deferred_names().len() == 0,
            r.waited_names().len() == 0,
            r.awaiting() is None,
    {
        let mut pending: Vec<usize> = Vec::new();
        let mut i: usize = 0;
        while i < config.services.len()
            invariant
                i <= config.services.len(),
                pending@ == enabled_below(config.services@, i as int),
                forall|k: int| 0 <= k < pending@.len() ==> (#[trigger] pending@[k]) < i && config.services@[pending@[k] as int].enabled,
            decreases config.services.len() - i,
        {
            if config.services[i].enabled {
                pending.push(i);
            }
            i += 1;
        }
        let r = Startup {
            pending,
            index: 0,
            progressed: false,
            started: Vec::new(),
            unavailable: Vec::new(),
            deferred: Vec::new(),
            waited: Vec::new(),
            awaiting: None,
            started_from: Ghost(Seq::empty()),
            decided: Ghost(Seq::empty()),
        };
        assert(pending@ + Seq::<usize>::empty() =~= pending@);
        assert(r.started_names() =~= Seq::<Seq<char>>::empty());
        assert(r.unavailable_names() =~= Seq::<Seq<char>>::empty());
        assert(r.deferred_names() =~= Seq::<Seq<char>>::empty());
        assert(r.waited_names() =~= Seq::<Seq<char>>::empty());
        r
    }

    fn waits(&self, config: &InitConfig, c: &ServiceConfig) -> (r: Vec<Wait>)
        ensures
            wait_views(r@) == waits_for(config.services@, after_names(*c), self.waited_names()),
    {
        let mut out: Vec<Wait> = Vec::new();
        let mut names: Vec<String> = Vec::new();
        let mut k: usize = 0;
        while k < c.after.len()
            invariant
                k <= c.after.len(),
                wait_views(out@) == waits_for(config.services@, after_names(*c).subrange(0, k as int), self.waited_names()),
                string_views(names@) == oneshots_in(config.services@, after_names(*c).subrange(0, k as int)),
            decreases c.after.len() - k,
        {
            let name = &c.after[k];
            let ghost prev = after_names(*c).subrange(0, k as int);
            assert(after_names(*c).subrange(0, k + 1).drop_last() =~= prev);
            assert(after_names(*c).subrange(0, k + 1).last() == name@);
            let ghost wv = wait_views(out@);
            let ghost nv = string_views(names@);
            match find_config(config, name.as_str()) {
                Some(d) => {
                    if d.service_type == ServiceType::Oneshot {
                        let spent = crate::control::listed(&self.waited, name.as_str()) || crate::control::listed(
                            &names,
                            name.as_str(),
                        );
                        let t = if spent {
                            0
                        } else {
                            d.ready_timeout
                        };
                        out.push(Wait::Oneshot(name.clone(), t));
                        names.push(name.clone());
                        assert(wait_views(out@) =~= wv.push(wait_view(out@.last())));
                        assert(string_views(names@) =~= nv.push(name@));
                    } else {
                        match &d.ready_path {
                            Some(p) => {
                                out.push(Wait::ReadyPath(name.clone(), p.clone(), d.ready_timeout));
                                assert(wait_views(out@) =~= wv.push(wait_view(out@.last())));
                            },
                            None => {},
                        }
                    }
                },
                None => {},
            }
            k += 1;
        }
        assert(after_names(*c).subrange(0, k as int) =~= after_names(*c));
        out
    }

    /// What to do next: the first service of the current pass that can be
    /// decided, or, once a pass has dealt with something, of a new pass;
    /// and when a whole pass can decide nothing, the services left, which
    /// never will be.
    pub fn next(&mut self, config: &InitConfig) -> (r: StartStep)
        requires
            old(self).valid(*config),
            old(self).awaiting() is None,
        ensures
            final(self).valid(*config),
            final(self).started_names() == old(self).started_names(),
            final(self).waited_names() == old(self).waited_names(),
            ({
                let defs = config.services@;
                let st = old(self).started_names();
                let un = old(self).unavailable_names();
                let de = old(self).deferred_names();
                let pend = old(self).pending();
                let here = first_decidable(defs, pend, old(self).position(), st, un, de);
                let pos = if here < pend.len() || !old(self).progressed() {
                    here
                } else {
                    first_decidable(defs, pend, 0, st, un, de)
                };
                if pend.len() == 0 {
                    &&& r is Done
                    &&& final(self).pending() == pend
                    &&& final(self).position() == old(self).position()
                    &&& final(self).progressed() == old(self).progressed()
                } else if pos >= pend.len() {
                    &&& r matches StartStep::Unresolved(v) && v@ == pend
                    &&& final(self).pending().len() == 0
                    &&& final(self).awaiting() is None
                    &&& final(self).position() == 0
                    &&& !final(self).progressed()
                } else {
                    let i = pend[pos];
                    let c = defs[i as int];
                    match r {
                        StartStep::Deferred(j) => {
                            &&& j == i
                            &&& final(self).position() == pos
                            &&& final(self).progressed()
                            &&& c.demand is Some
                            &&& final(self).pending() == pend.remove(pos)
                            &&& final(self).deferred_names() == de.push(c.name@)
                            &&& final(self).unavailable_names() == un
                            &&& final(self).awaiting() is None
                        },
                        StartStep::AfterDemand(j) => {
                            &&& j == i
                            &&& final(self).position() == pos
                            &&& final(self).progressed()
                            &&& c.demand is None
                            &&& after_any(c, de)
                            &&& final(self).pending() == pend.remove(pos)
                            &&& final(self).unavailable_names() == un.push(c.name@)
                            &&& final(self).deferred_names() == de
                            &&& final(self).awaiting() is None
                        },
                        StartStep::DependencyUnavailable(j) => {
                            &&& j == i
                            &&& final(self).position() == pos
                            &&& final(self).progressed()
                            &&& c.demand is None
                            &&& !after_any(c, de)
                            &&& after_any(c, un)
                            &&& final(self).pending() == pend.remove(pos)
                            &&& final(self).unavailable_names() == un.push(c.name@)
                            &&& final(self).deferred_names() == de
                            &&& final(self).awaiting() is None
                        },
                        StartStep::Prepare(j, w) => {
                            &&& j == i
                            &&& final(self).position() == pos
                            &&& final(self).progressed() == (old(self).progressed() && here < pend.len())
                            &&& c.demand is None
                            &&& !after_any(c, de)
                            &&& !after_any(c, un)
                            &&& after_all(c, st)
                            &&& wait_views(w@) == waits_for(defs, after_names(c), old(self).waited_names())
                            &&& final(self).pending() == pend
                            &&& final(self).awaiting() == Some(i)
                            &&& final(self).unavailable_names() == un
                            &&& final(self).deferred_names() == de
                        },
                        _ => false,
                    }
                }
            }),
    {
        let ghost st = old(self).started_names();
        let ghost un = old(self).unavailable_names();
        let ghost de = old(self).deferred_names();
        let ghost pend = old(self).pending();
        let ghost start = old(self).position();
        let ghost first_pass = old(self).progressed();
        loop
            invariant
                st == old(self).started_names(),
                un == old(self).unavailable_names(),
                de == old(self).deferred_names(),
                pend == old(self).pending(),
                start == old(self).position(),
                first_pass == old(self).progressed(),
                old(self).valid(*config),
                self.valid(*config),
                self.awaiting is None,
                self.pending@ == pend,
                self.started_names() == st,
                self.unavailable_names() == un,
                self.deferred_names() == de,
                self.waited_names() == old(self).waited_names(),
                pend.len() == 0 ==> self.index == old(self).index && self.progressed == old(self).progressed,
                ({
                    let here = first_decidable(config.services@, pend, start, st, un, de);
                    if self.progressed == first_pass {
                        &&& start <= self.index
                        &&& first_decidable(config.services@, pend, self.index as int, st, un, de) == here
                    } else {
                        &&& first_pass && !self.progressed
                        &&& here >= pend.len()
                        &&& first_decidable(config.services@, pend, self.index as int, st, un, de)
                            == first_decidable(config.services@, pend, 0, st, un, de)
                    }
                }),
            decreases (if self.progressed { 2int } else { 1int }) * (self.pending@.len() + 1) + self.pending@.len()
                - self.index,
        {
            if self.pending.len() == 0 {
                return StartStep::Done;
            }
            if self.index >= self.pending.len() {
                if !self.progressed {
                    let mut left: Vec<usize> = Vec::new();
                    std::mem::swap(&mut left, &mut self.pending);
                    self.index = 0;
                    proof {
                        lemma_all_decided(left@, self.decided@);
                    }
                    self.decided = Ghost(self.decided@ + left@);
                    assert(self.pending@ + self.decided@ =~= self.decided@);
                    return StartStep::Unresolved(left);
                }
                self.index = 0;
                self.progressed = false;
                continue;
            }
            let i = self.pending[self.index];
            let c = &config.services[i];
            if c.is_demand_started() {
                self.deferred.push(c.name.clone());
                proof {
                    lemma_move_decided(self.pending@, self.decided@, self.index as int);
                }
                self.decided = Ghost(self.decided@.push(i));
                self.pending.remove(self.index);
                self.progressed = true;
                assert(self.deferred_names() =~= de.push(c.name@));
                return StartStep::Deferred(i);
            }
            if any_listed(&self.deferred, &c.after) {
                self.unavailable.push(c.name.clone());
                proof {
                    lemma_move_decided(self.pending@, self.decided@, self.index as int);
                }
                self.decided = Ghost(self.decided@.push(i));
                self.pending.remove(self.index);
                self.progressed = true;
                assert(self.unavailable_names() =~= un.push(c.name@));
                return StartStep::AfterDemand(i);
            }
            if any_listed(&self.unavailable, &c.after) {
                self.unavailable.push(c.name.clone());
                proof {
                    lemma_move_decided(self.pending@, self.decided@, self.index as int);
                }
                self.decided = Ghost(self.decided@.push(i));
                self.pending.remove(self.index);
                self.progressed = true;
                assert(self.unavailable_names() =~= un.push(c.name@));
                return StartStep::DependencyUnavailable(i);
            }
            if !all_listed(&self.started, &c.after) {
                self.index += 1;
                continue;
            }
            let w = self.waits(config, c);
            self.awaiting = Some(self.index);
            return StartStep::Prepare(i, w);
        }
    }

    /// Report on the waits of the prepared service: `performed` of them
    /// were carried out, and `ready` says whether every ready path waited
    /// for appeared. The one-shots among those performed have had their time
    /// for this boot. A service whose dependency never became ready is
    /// skipped; otherwise it is to be started.
    pub fn prepared(&mut self, config: &InitConfig, waits: &Vec<Wait>, performed: usize, ready: bool) -> (r: bool)
        requires
            old(self).valid(*config),
            old(self).awaiting() is Some,
        ensures
            final(self).valid(*config),
            r == ready,
            final(self).waited_names() == crate::control::with_names(
                old(self).waited_names(),
                oneshots_among(wait_views(waits@), performed as int),
            ),
            final(self).started_names() == old(self).started_names(),
            final(self).started_from() == old(self).started_from(),
            final(self).deferred_names() == old(self).deferred_names(),
            ready ==> {
                &&& final(self).pending() == old(self).pending()
                &&& final(self).awaiting() == old(self).awaiting()
                &&& final(self).unavailable_names() == old(self).unavailable_names()
            },
            !ready ==> {
                &&& final(self).pending() == old(self).pending().remove(old(self).position())
                &&& final(self).awaiting() is None
                &&& final(self).unavailable_names() == old(self).unavailable_names().push(
                    config.services@[old(self).awaiting()->0 as int].name@,
                )
            },
    {
        let mut shots: Vec<String> = Vec::new();
        let mut k: usize = 0;
        while k < waits.len() && k < performed
            invariant
                k <= waits.len(),
                k <= performed,
                string_views(shots@) == oneshots_among(wait_views(waits@), k as int),
            decreases waits.len() - k,
        {
            let ghost before = string_views(shots@);
            match &waits[k] {
                Wait::Oneshot(n, _) => {
                    shots.push(n.clone());
                    assert(string_views(shots@) =~= before.push(n@));
                },
                Wait::ReadyPath(_, _, _) => {},
            }
            k += 1;
        }
        proof {
            lemma_oneshots_among_beyond(wait_views(waits@), k as int, performed as int);
        }
        crate::control::push_names(&mut self.waited, &shots);
        if ready {
            return true;
        }
        let i = self.pending[self.index];
        let ghost un = string_views(self.unavailable@);
        self.unavailable.push(config.services[i].name.clone());
        assert(string_views(self.unavailable@) =~= un.push(config.services@[i as int].name@));
        proof {
            lemma_move_decided(self.pending@, self.decided@, self.index as int);
        }
        self.decided = Ghost(self.decided@.push(i));
        self.pending.remove(self.index);
        self.progressed = true;
        self.awaiting = None;
        false
    }

    /// Report how starting the prepared service went: started, or counted
    /// unavailable to what is ordered after it.
    pub fn launched(&mut self, config: &InitConfig, outcome: Launch)
        requires
            old(self).valid(*config),
            old(self).awaiting() is Some,
        ensures
            final(self).valid(*config),
            final(self).pending() == old(self).pending().remove(old(self).position()),
            final(self).awaiting() is None,
            final(self).waited_names() == old(self).waited_names(),
            final(self).deferred_names() == old(self).deferred_names(),
            ({
                let name = config.services@[old(self).awaiting()->0 as int].name@;
                if outcome == Launch::Started {
                    &&& final(self).started_names() == old(self).started_names().push(name)
                    &&& final(self).started_from() == old(self).started_from().push(old(self).awaiting()->0)
                    &&& final(self).unavailable_names() == old(self).unavailable_names()
                } else {
                    &&& final(self).started_names() == old(self).started_names()
                    &&& final(self).started_from() == old(self).started_from()
                    &&& final(self).unavailable_names() == old(self).unavailable_names().push(name)
                }
            }),
    {
        let i = self.pending[self.index];
        let ghost st = string_views(self.started@);
        let ghost un = string_views(self.unavailable@);
        let ghost from = self.started_from@;
        if outcome == Launch::Started {
            self.started.push(config.services[i].name.clone());
            self.started_from = Ghost(from.push(i));
            assert(string_views(self.started@) =~= st.push(config.services@[i as int].name@));
            assert forall|k: int| 0 <= k < self.started_from@.len() implies {
                let j = #[trigger] self.started_from@[k];
                &&& j < config.services@.len()
                &&& config.services@[j as int].enabled
                &&& config.services@[j as int].name@ == self.started@[k]@
                &&& config.services@[j as int].demand is None
                &&& after_all(config.services@[j as int], string_views(self.started@).subrange(0, k))
            } by {
                assert(string_views(self.started@).subrange(0, k) =~= if k < from.len() {
                    st.subrange(0, k)
                } else {
                    st
                });
            }
        } else {
            self.unavailable.push(config.services[i].name.clone());
            assert(string_views(self.unavailable@) =~= un.push(config.services@[i as int].name@));
        }
        proof {
            lemma_move_decided(self.pending@, self.decided@, self.index as int);
        }
        self.decided = Ghost(self.decided@.push(i));
        self.pending.remove(self.index);
        self.progressed = true;
        self.awaiting = None;
    }
}

/// The names of the one-shot waits among the first `n`, in order.
pub open spec fn oneshots_among(w: Seq<(bool, Seq<char>, Seq<char>, u32)>, n: int) -> Seq<Seq<char>>
    decreases n,
{
    if n <= 0 || w.len() == 0 {
        Seq::empty()
    } else if n > w.len() {
        oneshots_among(w, w.len() as int)
    } else {
        let rest = oneshots_among(w, n - 1);
        if w[n - 1].0 {
            rest.push(w[n - 1].1)
        } else {
            rest
        }
    }
}

proof fn lemma_oneshots_among_beyond(w: Seq<(bool, Seq<char>, Seq<char>, u32)>, k: int, n: int)
    requires
        0 <= k <= n,
        k == n || k == w.len(),
        k <= w.len(),
    ensures
        oneshots_among(w, k) == oneshots_among(w, n),
{
    if k < n && w.len() > 0 {
        assert(n > w.len());
    }
}

/// Every service the boot starts is an enabled one, started only after
/// everything it is ordered after has started, and never one that starts on
/// demand.
pub proof fn lemma_started_in_order(s: Startup, config: InitConfig)
    requires
        s.valid(config),
    ensures
        s.started_from().len() == s.started_names().len(),
        forall|k: int|
            0 <= k < s.started_from().len() ==> {
                let c = config.services@[#[trigger] s.started_from()[k] as int];
                &&& c.enabled
                &&& c.name@ == s.started_names()[k]
                &&& c.demand is None
                &&& after_all(c, s.started_names().subrange(0, k))
            },
{
}


proof fn lemma_move_decided(p: Seq<usize>, d: Seq<usize>, x: int)
    requires
        0 <= x < p.len(),
    ensures
        (p.remove(x) + d.push(p[x])).to_multiset() == (p + d).to_multiset(),
{
    broadcast use vstd::seq_lib::group_to_multiset_ensures;
    broadcast use vstd::seq_lib::lemma_multiset_commutative;
    broadcast use vstd::multiset::group_multiset_axioms;

    assert((p.remove(x) + d.push(p[x])).to_multiset() =~= (p + d).to_multiset());
}

proof fn lemma_all_decided(p: Seq<usize>, d: Seq<usize>)
    ensures
        (Seq::<usize>::empty() + (d + p)).to_multiset() == (p + d).to_multiset(),
{
    broadcast use vstd::seq_lib::lemma_multiset_commutative;
    broadcast use vstd::multiset::group_multiset_axioms;

    assert(Seq::<usize>::empty() + (d + p) =~= d + p);
    assert((d + p).to_multiset() =~= (p + d).to_multiset());
}

proof fn lemma_enabled_below_count(defs: Seq<ServiceConfig>, n: int, i: int)
    requires
        0 <= n <= defs.len(),
        0 <= i < defs.len(),
        defs.len() <= usize::MAX,
    ensures
        enabled_below(defs, n).to_multiset().count(i as usize) == (if i < n && defs[i].enabled { 1nat } else { 0nat }),
    decreases n,
{
    broadcast use vstd::seq_lib::group_to_multiset_ensures;
    broadcast use vstd::multiset::group_multiset_axioms;

    if n > 0 {
        lemma_enabled_below_count(defs, n - 1, i);
        if i == n - 1 {
            assert((n - 1) as usize == i as usize);
        } else {
            assert((n - 1) as usize != i as usize);
        }
    } else {
        assert(enabled_below(defs, n) =~= Seq::<usize>::empty());
    }
}

/// Every enabled service is dealt with exactly once over a boot's start-up,
/// and nothing else is: each is, at every point, either still pending or
/// decided, once; so once nothing is pending, each enabled service has been
/// decided exactly once and no disabled one at all.
pub proof fn lemma_every_enabled_service_decided_once(s: Startup, config: InitConfig)
    requires
        s.valid(config),
    ensures
        forall|i: int|
            0 <= i < config.services@.len() ==> (s.pending() + s.decided()).to_multiset().count(i as usize) == (if config.services@[i].enabled {
                1nat
            } else {
                0nat
            }),
        s.pending().len() == 0 ==> forall|i: int|
            0 <= i < config.services@.len() ==> #[trigger] s.decided().to_multiset().count(i as usize) == (if config.services@[i].enabled {
                1nat
            } else {
                0nat
            }),
{
    let n = config.services@.len() as int;
    assert forall|i: int| 0 <= i < n implies (s.pending() + s.decided()).to_multiset().count(i as usize) == (if config.services@[i].enabled {
        1nat
    } else {
        0nat
    }) by {
        lemma_enabled_below_count(config.services@, n, i);
    }
    if s.pending().len() == 0 {
        assert(s.pending() + s.decided() =~= s.decided());
    }
}
} // verus!
