//! What the control socket answers.
//!
//! One line of request comes in; text goes back until the stream closes. The
//! socket, its timeouts and the files the status publisher writes belong to
//! the program. What is decided here is the rest: which verb a request names,
//! what each reply says, how a reload reconciles the configuration on disk
//! with the one running, and which published files are out of date.
use vstd::prelude::*;
use vstd::pervasive::VecAdditionalExecFns;

use crate::config::{config_index, config_named, find_config, position_of, same_definition, InitConfig, ServiceConfig};
use crate::quantity::{as_double, double_value, point1, point2, push_point1, push_point2, round_div, round_half_even};
use crate::service::{find_service, service_named, Service, ServiceState};
use crate::text::{
    chars_of, decimal_text, lemma_lex_transitive, lemma_lex_trichotomy, lex_lt, pad_right, push_char,
    push_decimal, push_padded, push_str, push_two_digits, split_ws, str_less, string_views, to_string, tokens,
    two_digits, views,
};

verus! {

/// What the caller should do after a request is handled.
#[derive(Debug, Clone, Copy, PartialEq, Eq, Structural)]
pub enum Action {
    /// Nothing further; the request was served in full.
    Nothing,
    /// Begin an orderly shutdown and power off.
    Poweroff,
    /// Begin an orderly shutdown and reboot.
    Reboot,
    /// Suspend to RAM, and carry on once the machine is awake again. The
    /// reply goes out before the suspend does.
    Suspend,
    /// Replace PID 1 with the binary on disk, keeping every service running.
    Reexec,
}

/// The verbs that need the supervisor's state or the machine to answer.
#[derive(Debug, Clone, Copy, PartialEq, Eq, Structural)]
pub enum Verb {
    /// `list`, or a bare `status`: every service, one row each.
    List,
    /// `status NAME`.
    Status,
    Enable,
    Disable,
    /// The boot timeline.
    Blame,
    /// Re-read the configuration.
    Reload,
    Start,
    Stop,
    Restart,
    /// Check that a re-exec is possible and, if so, answer with it.
    Reexec,
}

/// Where a request goes.
pub enum Routed {
    /// Work for the caller: the verb, and the service it names where it
    /// names one.
    Run(Verb, Option<String>),
    /// Answered without looking at anything: the reply and what follows it.
    Reply(String, Action),
}

/// The list of commands an unknown one is answered with.
pub open spec fn commands_text() -> Seq<char> {
    "commands: list, status [NAME], blame, start NAME, stop NAME, restart NAME, enable NAME, disable NAME, reload, reexec, suspend, poweroff, reboot, halt\n"@
}

/// The verbs that act on the machine rather than on a service.
pub open spec fn machine_verb(verb: Seq<char>) -> bool {
    ||| verb == "poweroff"@
    ||| verb == "halt"@
    ||| verb == "reboot"@
    ||| verb == "suspend"@
    ||| verb == "sleep"@
    ||| verb == "reexec"@
}

/// The first word of a request, or nothing.
pub open spec fn verb_of(request: Seq<char>) -> Seq<char> {
    if tokens(request).len() > 0 {
        tokens(request)[0]
    } else {
        Seq::empty()
    }
}

/// The second word of a request, if there is one.
pub open spec fn target_of(request: Seq<char>) -> Option<Seq<char>> {
    if tokens(request).len() > 1 {
        Some(tokens(request)[1])
    } else {
        None
    }
}

pub open spec fn replies(r: Routed, text: Seq<char>, action: Action) -> bool {
    r matches Routed::Reply(t, a) && t@ == text && a == action
}

pub open spec fn runs(r: Routed, verb: Verb, target: Option<Seq<char>>) -> bool {
    &&& r matches Routed::Run(v, t)
    &&& v == verb
    &&& match (t, target) {
        (None, None) => true,
        (Some(x), Some(y)) => x@ == y,
        _ => false,
    }
}

/// A verb that acts on one service: run it on the named one, or say a name
/// is needed.
pub open spec fn runs_on_target(r: Routed, verb: Verb, word: Seq<char>, target: Option<Seq<char>>) -> bool {
    match target {
        Some(t) => runs(r, verb, Some(t)),
        None => replies(r, "error: "@ + word + " needs a service name\n"@, Action::Nothing),
    }
}

/// Where `request` goes, for a supervisor that owns a session when
/// `user_mode`.
pub open spec fn routes(r: Routed, request: Seq<char>, user_mode: bool) -> bool {
    let verb = verb_of(request);
    let target = target_of(request);
    if user_mode && machine_verb(verb) {
        replies(
            r,
            "error: '"@ + verb
                + "' acts on the machine, and this raven-init supervises a session; use raven-rc without --user\n"@,
            Action::Nothing,
        )
    } else if verb == "list"@ {
        runs(r, Verb::List, None)
    } else if verb == "status"@ {
        match target {
            Some(t) => runs(r, Verb::Status, Some(t)),
            None => runs(r, Verb::List, None),
        }
    } else if verb == "enable"@ {
        runs_on_target(r, Verb::Enable, verb, target)
    } else if verb == "disable"@ {
        runs_on_target(r, Verb::Disable, verb, target)
    } else if verb == "blame"@ {
        runs(r, Verb::Blame, None)
    } else if verb == "reload"@ {
        runs(r, Verb::Reload, None)
    } else if verb == "start"@ {
        runs_on_target(r, Verb::Start, verb, target)
    } else if verb == "stop"@ {
        runs_on_target(r, Verb::Stop, verb, target)
    } else if verb == "restart"@ {
        runs_on_target(r, Verb::Restart, verb, target)
    } else if verb == "poweroff"@ || verb == "halt"@ {
        replies(r, "Powering off\n"@, Action::Poweroff)
    } else if verb == "reboot"@ {
        replies(r, "Rebooting\n"@, Action::Reboot)
    } else if verb == "suspend"@ || verb == "sleep"@ {
        replies(r, "Suspending\n"@, Action::Suspend)
    } else if verb == "reexec"@ {
        runs(r, Verb::Reexec, None)
    } else if verb.len() == 0 {
        replies(r, "error: empty request\n"@, Action::Nothing)
    } else {
        replies(r, "error: unknown command '"@ + verb + "'\n"@ + commands_text(), Action::Nothing)
    }
}

fn word_is(w: &Vec<char>, text: &str) -> (r: bool)
    ensures
        r == (w@ == text@),
{
    crate::text::same(w, &chars_of(text))
}

fn needs_target(verb: Verb, word: &str, target: Option<String>) -> (r: Routed)
    ensures
        runs_on_target(
            r,
            verb,
            word@,
            match target {
                Some(t) => Some(t@),
                None => None,
            },
        ),
{
    match target {
        Some(t) => Routed::Run(verb, Some(t)),
        None => {
            let mut s = "error: ".to_owned();
            push_str(&mut s, word);
            push_str(&mut s, " needs a service name\n");
            assert(s@ =~= "error: "@ + word@ + " needs a service name\n"@);
            Routed::Reply(s, Action::Nothing)
        },
    }
}

/// Turn one request line into a reply, or into the work it asks for.
///
/// A supervisor that owns a session (`user_mode`) refuses the verbs that act
/// on the machine, pointing at the system one instead.
pub fn dispatch(request: &str, user_mode: bool) -> (r: Routed)
    ensures
        routes(r, request@, user_mode),
{
    let toks = split_ws(&chars_of(request));
    let verb: Vec<char> = if toks.len() > 0 {
        crate::text::slice_of(&toks[0], 0, toks[0].len())
    } else {
        Vec::new()
    };
    let target: Option<String> = if toks.len() > 1 {
        Some(to_string(&toks[1]))
    } else {
        None
    };
    proof {
        assert(views(toks@) == tokens(request@));
        if toks.len() > 0 {
            assert(toks@[0]@ == views(toks@)[0]);
            assert(verb@ =~= toks@[0]@);
        }
        if toks.len() > 1 {
            assert(toks@[1]@ == views(toks@)[1]);
        }
        assert(verb@ == verb_of(request@));
    }
    let word = to_string(&verb);
    let machine = word_is(&verb, "poweroff") || word_is(&verb, "halt") || word_is(&verb, "reboot")
        || word_is(&verb, "suspend") || word_is(&verb, "sleep") || word_is(&verb, "reexec");
    if user_mode && machine {
        let mut s = "error: '".to_owned();
        push_str(&mut s, word.as_str());
        push_str(&mut s, "' acts on the machine, and this raven-init supervises a session; use raven-rc without --user\n");
        assert(s@ =~= "error: '"@ + verb@
            + "' acts on the machine, and this raven-init supervises a session; use raven-rc without --user\n"@);
        return Routed::Reply(s, Action::Nothing);
    }
    if word_is(&verb, "list") {
        Routed::Run(Verb::List, None)
    } else if word_is(&verb, "status") {
        match target {
            Some(t) => Routed::Run(Verb::Status, Some(t)),
            None => Routed::Run(Verb::List, None),
        }
    } else if word_is(&verb, "enable") {
        needs_target(Verb::Enable, "enable", target)
    } else if word_is(&verb, "disable") {
        needs_target(Verb::Disable, "disable", target)
    } else if word_is(&verb, "blame") {
        Routed::Run(Verb::Blame, None)
    } else if word_is(&verb, "reload") {
        Routed::Run(Verb::Reload, None)
    } else if word_is(&verb, "start") {
        needs_target(Verb::Start, "start", target)
    } else if word_is(&verb, "stop") {
        needs_target(Verb::Stop, "stop", target)
    } else if word_is(&verb, "restart") {
        needs_target(Verb::Restart, "restart", target)
    } else if word_is(&verb, "poweroff") || word_is(&verb, "halt") {
        Routed::Reply("Powering off\n".to_owned(), Action::Poweroff)
    } else if word_is(&verb, "reboot") {
        Routed::Reply("Rebooting\n".to_owned(), Action::Reboot)
    } else if word_is(&verb, "suspend") || word_is(&verb, "sleep") {
        Routed::Reply("Suspending\n".to_owned(), Action::Suspend)
    } else if word_is(&verb, "reexec") {
        Routed::Run(Verb::Reexec, None)
    } else if verb.len() == 0 {
        Routed::Reply("error: empty request\n".to_owned(), Action::Nothing)
    } else {
        let mut s = "error: unknown command '".to_owned();
        push_str(&mut s, word.as_str());
        push_str(&mut s, "'\n");
        push_str(&mut s, "commands: list, status [NAME], blame, start NAME, stop NAME, restart NAME, enable NAME, disable NAME, reload, reexec, suspend, poweroff, reboot, halt\n");
        assert(s@ =~= "error: unknown command '"@ + verb@ + "'\n"@ + commands_text());
        Routed::Reply(s, Action::Nothing)
    }
}


/// How a service is described to an operator. One an operator stopped and
/// one that exited on its own have both stopped running; they are not called
/// the same thing.
pub open spec fn state_word(svc: Service) -> Seq<char> {
    if svc.pid is Some {
        "running"@
    } else if svc.manually_stopped {
        "stopped (by request)"@
    } else {
        match svc.state {
            ServiceState::Running => "running"@,
            ServiceState::Exited => "exited"@,
            ServiceState::Signaled => "killed"@,
            ServiceState::Stopped => "stopped"@,
            ServiceState::Failed => "failed"@,
        }
    }
}

/// What `list` and `status` call a service that is not running and was not
/// stopped by request is the name of the state it ended in: `failed`,
/// `exited`, `killed` or `stopped`; so two such services that ended
/// differently are never described with the same word, and in particular a
/// service that failed is never taken for one that stopped cleanly.
pub proof fn lemma_state_words_tell_endings_apart(a: Service, b: Service)
    requires
        a.pid is None && !a.manually_stopped,
        b.pid is None && !b.manually_stopped,
        a.state != ServiceState::Running,
        b.state != ServiceState::Running,
    ensures
        a.state == ServiceState::Failed ==> state_word(a) == "failed"@,
        a.state == ServiceState::Exited ==> state_word(a) == "exited"@,
        a.state == ServiceState::Signaled ==> state_word(a) == "killed"@,
        a.state == ServiceState::Stopped ==> state_word(a) == "stopped"@,
        a.state != b.state ==> state_word(a) != state_word(b),
{
    reveal_strlit("failed");
    reveal_strlit("exited");
    reveal_strlit("killed");
    reveal_strlit("stopped");
    let wa = state_word(a);
    let wb = state_word(b);
    if a.state != b.state {
        assert(wa.len() != wb.len() || wa[0] != wb[0] || wa[1] != wb[1]);
    }
}

/// [`state_word`].
pub fn describe_state(svc: &Service) -> (r: &'static str)
    ensures
        r@ == state_word(*svc),
{
    if svc.is_running() {
        "running"
    } else if svc.is_manually_stopped() {
        "stopped (by request)"
    } else {
        match svc.state() {
            ServiceState::Running => "running",
            ServiceState::Exited => "exited",
            ServiceState::Signaled => "killed",
            ServiceState::Stopped => "stopped",
            ServiceState::Failed => "failed",
        }
    }
}

/// A process id as the listing prints it.
pub open spec fn pid_text(pid: Option<u32>) -> Seq<char> {
    match pid {
        Some(p) => decimal_text(p as nat),
        None => "-"@,
    }
}

/// One row of the listing: `{:<20} {:<21} {:<8} {:<9} {}`.
pub open spec fn row_text(
    name: Seq<char>,
    state: Seq<char>,
    pid: Option<u32>,
    boot: Seq<char>,
    description: Seq<char>,
) -> Seq<char> {
    pad_right(name, 20) + " "@ + pad_right(state, 21) + " "@ + pad_right(pid_text(pid), 8) + " "@
        + pad_right(boot, 9) + " "@ + description + "\n"@
}

/// [`row_text`].
pub fn format_row(name: &str, state: &str, pid: Option<u32>, boot: &str, description: &str) -> (r: String)
    ensures
        r@ == row_text(name@, state@, pid, boot@, description@),
{
    let mut pid_s = String::new();
    match pid {
        Some(p) => push_decimal(&mut pid_s, p as u64),
        None => push_str(&mut pid_s, "-"),
    }
    assert(pid_s@ =~= pid_text(pid));
    let mut r = String::new();
    push_padded(&mut r, name, 20);
    assert(r@ =~= pad_right(name@, 20));
    push_str(&mut r, " ");
    push_padded(&mut r, state, 21);
    push_str(&mut r, " ");
    let ghost a = r@;
    assert(a =~= pad_right(name@, 20) + " "@ + pad_right(state@, 21) + " "@);
    push_padded(&mut r, pid_s.as_str(), 8);
    push_str(&mut r, " ");
    push_padded(&mut r, boot, 9);
    push_str(&mut r, " ");
    let ghost b = r@;
    assert(b =~= a + pad_right(pid_text(pid), 8) + " "@ + pad_right(boot@, 9) + " "@);
    push_str(&mut r, description);
    push_str(&mut r, "\n");
    assert(r@ =~= b + description@ + "\n"@);
    assert(r@ == row_text(name@, state@, pid, boot@, description@));
    r
}

/// The listing's heading: STATE is what a service is doing now, BOOT what
/// the configuration says happens next time.
pub open spec fn list_header() -> Seq<char> {
    "SERVICE              STATE                 PID      BOOT      DESCRIPTION\n"@
}

pub open spec fn boot_word(cfg: ServiceConfig) -> Seq<char> {
    if cfg.enabled {
        "enabled"@
    } else {
        "disabled"@
    }
}

/// A configured service's row: what is running under its name, or a
/// stopped row from the definition.
pub open spec fn config_row(cfg: ServiceConfig, services: Seq<Service>) -> Seq<char> {
    match service_named(services, cfg.name@) {
        Some(svc) => row_text(cfg.name@, state_word(svc), svc.pid, boot_word(cfg), svc.config.description@),
        None => row_text(cfg.name@, "stopped"@, None, boot_word(cfg), cfg.description@),
    }
}

pub open spec fn config_rows(cfgs: Seq<ServiceConfig>, services: Seq<Service>) -> Seq<char>
    decreases cfgs.len(),
{
    if cfgs.len() == 0 {
        Seq::empty()
    } else {
        config_rows(cfgs.drop_last(), services) + config_row(cfgs.last(), services)
    }
}

/// Whether `services[i]` runs under a name the configuration does not
/// define: the fallback getty, say.
pub open spec fn is_extra(services: Seq<Service>, config: InitConfig, i: int) -> bool {
    config_named(config.services@, services[i].config.name@) is None
}

/// A row for a service the configuration does not mention.
pub open spec fn extra_row(svc: Service) -> Seq<char> {
    row_text(svc.config.name@, state_word(svc), svc.pid, "-"@, svc.config.description@)
}

pub open spec fn extra_rows(services: Seq<Service>, order: Seq<usize>) -> Seq<char>
    decreases order.len(),
{
    if order.len() == 0 {
        Seq::empty()
    } else {
        extra_rows(services, order.drop_last()) + extra_row(services[order.last() as int])
    }
}

/// `order` lists every unconfigured service, each once, by name.
pub open spec fn extras_in_order(services: Seq<Service>, config: InitConfig, order: Seq<usize>) -> bool {
    &&& forall|k: int| 0 <= k < order.len() ==> order[k] < services.len() && is_extra(services, config, order[k] as int)
    &&& forall|i: int| 0 <= i < services.len() && is_extra(services, config, i) ==> order.contains(i as usize)
    &&& forall|p: int, q: int|
        #![trigger order[p], order[q]]
        0 <= p < q < order.len() ==> lex_lt(
            services[order[p] as int].config.name@,
            services[order[q] as int].config.name@,
        )
}

/// Each service supervised under a name of its own.
pub open spec fn distinct_names(services: Seq<Service>) -> bool {
    forall|i: int, j: int| 0 <= i < j < services.len() ==> services[i].config.name@ != services[j].config.name@
}

/// The unconfigured services, by name.
fn extras_by_name(services: &Vec<Service>, config: &InitConfig) -> (order: Vec<usize>)
    requires
        distinct_names(services@),
    ensures
        extras_in_order(services@, *config, order@),
{
    let mut order: Vec<usize> = Vec::new();
    let mut i: usize = 0;
    while i < services.len()
        invariant
            i <= services.len(),
            distinct_names(services@),
            forall|k: int| 0 <= k < order.len() ==> order[k] < i && is_extra(services@, *config, order[k] as int),
            forall|j: int| 0 <= j < i && is_extra(services@, *config, j) ==> order@.contains(j as usize),
            forall|p: int, q: int|
                #![trigger order@[p], order@[q]]
                0 <= p < q < order.len() ==> lex_lt(
                    services@[order@[p] as int].config.name@,
                    services@[order@[q] as int].config.name@,
                ),
        decreases services.len() - i,
    {
        if find_config(config, services[i].config.name.as_str()).is_none() {
            let name = services[i].config.name.as_str();
            let mut pos: usize = 0;
            while pos < order.len() && !str_less(name, services[order[pos]].config.name.as_str())
                invariant
                    pos <= order.len(),
                    i < services.len(),
                    name@ == services@[i as int].config.name@,
                    forall|k: int| 0 <= k < order.len() ==> order[k] < i,
                    forall|k: int|
                        0 <= k < pos ==> lex_lt(services@[order@[k] as int].config.name@, name@),
                    distinct_names(services@),
                    forall|p: int, q: int|
                        #![trigger order@[p], order@[q]]
                        0 <= p < q < order.len() ==> lex_lt(
                            services@[order@[p] as int].config.name@,
                            services@[order@[q] as int].config.name@,
                        ),
                decreases order.len() - pos,
            {
                proof {
                    let other = services@[order[pos as int] as int].config.name@;
                    assert(other != name@);
                    lemma_lex_trichotomy(other, name@);
                }
                pos += 1;
            }
            let ghost before = order@;
            proof {
                assert forall|p: int, q: int| 0 <= p < q < before.len() + 1 implies lex_lt(
                    services@[before.insert(pos as int, i)[p] as int].config.name@,
                    services@[before.insert(pos as int, i)[q] as int].config.name@,
                ) by {
                    let ins = before.insert(pos as int, i);
                    if q == pos {
                    } else if p == pos {
                        if q - 1 > pos {
                            assert(before[pos as int] == order@[pos as int] && before[q - 1] == order@[q - 1]);
                            lemma_lex_transitive(
                                name@,
                                services@[before[pos as int] as int].config.name@,
                                services@[before[q - 1] as int].config.name@,
                                0,
                            );
                        }
                    } else if p < pos && q > pos {
                        assert(before[p] == order@[p] && before[q - 1] == order@[q - 1]);
                    }
                }
            }
            order.insert(pos, i);
            assert(order@ == before.insert(pos as int, i));
            proof {
                assert forall|j: int| 0 <= j < i + 1 && is_extra(services@, *config, j) implies order@.contains(
                    j as usize,
                ) by {
                    if j < i {
                        let k = choose|k: int| 0 <= k < before.len() && before[k] == j as usize;
                        if k < pos {
                            assert(order@[k] == j as usize);
                        } else {
                            assert(order@[k + 1] == j as usize);
                        }
                    } else {
                        assert(order@[pos as int] == i);
                    }
                }
            }
        }
        i += 1;
    }
    order
}

/// What `list` answers: a heading, a row for each configured service in
/// configuration order, then a row for anything running under a name the
/// configuration does not mention, by name.
pub open spec fn listing(services: Seq<Service>, config: InitConfig, text: Seq<char>) -> bool {
    exists|order: Seq<usize>|
        extras_in_order(services, config, order) && text == list_header() + config_rows(config.services@, services)
            + extra_rows(services, order)
}

/// The text of `list`: the same rows in the same order however often it is
/// asked.
pub fn list_services(services: &Vec<Service>, config: &InitConfig) -> (r: String)
    requires
        distinct_names(services@),
    ensures
        listing(services@, *config, r@),
{
    let mut out = "SERVICE              STATE                 PID      BOOT      DESCRIPTION\n".to_owned();
    let mut i: usize = 0;
    while i < config.services.len()
        invariant
            i <= config.services.len(),
            out@ == list_header() + config_rows(config.services@.subrange(0, i as int), services@),
        decreases config.services.len() - i,
    {
        let cfg = &config.services[i];
        let boot = if cfg.enabled {
            "enabled"
        } else {
            "disabled"
        };
        let row = match find_service(services, cfg.name.as_str()) {
            Some(svc) => format_row(cfg.name.as_str(), describe_state(svc), svc.pid, boot, svc.config.description.as_str()),
            None => format_row(cfg.name.as_str(), "stopped", None, boot, cfg.description.as_str()),
        };
        assert(row@ == config_row(*cfg, services@));
        push_str(&mut out, row.as_str());
        assert(config.services@.subrange(0, i + 1).drop_last() =~= config.services@.subrange(0, i as int));
        i += 1;
    }
    assert(config.services@.subrange(0, i as int) =~= config.services@);
    let order = extras_by_name(services, config);
    let ghost head = out@;
    let mut k: usize = 0;
    while k < order.len()
        invariant
            k <= order.len(),
            extras_in_order(services@, *config, order@),
            out@ == head + extra_rows(services@, order@.subrange(0, k as int)),
        decreases order.len() - k,
    {
        let svc = &services[order[k]];
        let row = format_row(svc.config.name.as_str(), describe_state(svc), svc.pid, "-", svc.config.description.as_str());
        push_str(&mut out, row.as_str());
        assert(order@.subrange(0, k + 1).drop_last() =~= order@.subrange(0, k as int));
        k += 1;
    }
    assert(order@.subrange(0, k as int) =~= order@);
    out
}

/// Whether the main loop has time-driven work: a running service whose
/// ready path has not appeared and nothing can tell it when it does, or a
/// dead one with a restart due.
pub open spec fn quick_tick(services: Seq<Service>, readiness_watched: bool) -> bool {
    exists|i: int|
        0 <= i < services.len() && {
            let svc = #[trigger] services[i];
            (!readiness_watched && svc.pid is Some && svc.config.ready_path is Some && svc.ready_mono is None)
                || (svc.pid is None && svc.retry_mono is Some)
        }
}

/// [`quick_tick`]. When false, the loop can sleep until a child exits, a
/// client connects or a watched ready path appears.
pub fn wants_quick_tick(services: &Vec<Service>, readiness_watched: bool) -> (r: bool)
    ensures
        r == quick_tick(services@, readiness_watched),
{
    let mut i: usize = 0;
    while i < services.len()
        invariant
            i <= services.len(),
            forall|k: int|
                0 <= k < i ==> !({
                    let svc = #[trigger] services@[k];
                    (!readiness_watched && svc.pid is Some && svc.config.ready_path is Some && svc.ready_mono is None)
                        || (svc.pid is None && svc.retry_mono is Some)
                }),
        decreases services.len() - i,
    {
        let svc = &services[i];
        if (!readiness_watched && svc.is_running() && svc.config.ready_path.is_some() && svc.ready_mono.is_none())
            || (!svc.is_running() && svc.retry_mono.is_some()) {
            assert(services@[i as int] == *svc);
            return true;
        }
        i += 1;
    }
    false
}

/// How long ago, as somebody standing at the machine would say it: coarser
/// the further back it goes.
pub open spec fn ago_text(secs: nat) -> Seq<char> {
    if secs < 60 {
        decimal_text(secs) + "s"@
    } else if secs < 3600 {
        decimal_text(secs / 60) + "m"@ + two_digits(secs % 60) + "s"@
    } else if secs < 86400 {
        decimal_text(secs / 3600) + "h"@ + two_digits((secs % 3600) / 60) + "m"@
    } else {
        decimal_text(secs / 86400) + "d"@ + two_digits((secs % 86400) / 3600) + "h"@
    }
}

/// [`ago_text`] of a duration in whole seconds.
pub fn format_ago(secs: u64) -> (r: String)
    ensures
        r@ == ago_text(secs as nat),
{
    let mut r = String::new();
    if secs < 60 {
        push_decimal(&mut r, secs);
        push_str(&mut r, "s");
    } else if secs < 3600 {
        push_decimal(&mut r, secs / 60);
        push_str(&mut r, "m");
        push_two_digits(&mut r, secs % 60);
        push_str(&mut r, "s");
    } else if secs < 86400 {
        push_decimal(&mut r, secs / 3600);
        push_str(&mut r, "h");
        push_two_digits(&mut r, (secs % 3600) / 60);
        push_str(&mut r, "m");
    } else {
        push_decimal(&mut r, secs / 86400);
        push_str(&mut r, "d");
        push_two_digits(&mut r, (secs % 86400) / 3600);
        push_str(&mut r, "h");
    }
    assert(r@ =~= ago_text(secs as nat));
    r
}

/// A byte count in binary multiples, as `{:.1}` and `{:.2}` print the
/// count converted to a double and divided down.
pub open spec fn bytes_text(bytes: u64) -> Seq<char> {
    let b = bytes as nat;
    if b < 1024 {
        decimal_text(b) + "B"@
    } else if b < 1048576 {
        point1(round_div(b * 10, 1024)) + "K"@
    } else if b < 1073741824 {
        point1(round_div(b * 10, 1048576)) + "M"@
    } else {
        point2(round_div(as_double(b) * 100, 1073741824)) + "G"@
    }
}

/// [`bytes_text`]: 256M for a limit written as 256M.
pub fn format_bytes(bytes: u64) -> (r: String)
    ensures
        r@ == bytes_text(bytes),
{
    let mut r = String::new();
    if bytes < 1024 {
        push_decimal(&mut r, bytes);
        push_str(&mut r, "B");
    } else if bytes < 1048576 {
        let q = round_half_even(bytes as u128 * 10, 1024);
        push_point1(&mut r, q);
        push_str(&mut r, "K");
    } else if bytes < 1073741824 {
        let q = round_half_even(bytes as u128 * 10, 1048576);
        push_point1(&mut r, q);
        push_str(&mut r, "M");
    } else {
        let v = double_value(bytes);
        let q = round_half_even(v * 100, 1073741824);
        push_point2(&mut r, q);
        push_str(&mut r, "G");
    }
    assert(Seq::<char>::empty() + bytes_text(bytes) =~= bytes_text(bytes));
    r
}


/// `{:03}` of a number below a thousand.
pub open spec fn three_digits(n: nat) -> Seq<char> {
    if n < 10 {
        "00"@ + decimal_text(n)
    } else if n < 100 {
        "0"@ + decimal_text(n)
    } else {
        decimal_text(n)
    }
}

/// A moment on the boot clock, `ms` milliseconds after the kernel started,
/// in seconds to three places; and, for a live reading taken at `now`, how
/// long ago that was.
pub open spec fn clock_text(ms: nat, now: Option<u64>) -> Seq<char> {
    decimal_text(ms / 1000) + "."@ + three_digits(ms % 1000) + "s into this boot"@ + match now {
        Some(n) => " ("@ + ago_text((if n >= ms { (n - ms) as nat } else { 0nat }) / 1000) + " ago)"@,
        None => Seq::empty(),
    }
}

/// [`clock_text`]. A text about to be published is rendered without `now`,
/// so that it does not change merely because time passed.
pub fn boot_clock(ms: u64, now: Option<u64>) -> (r: String)
    ensures
        r@ == clock_text(ms as nat, now),
{
    let mut r = String::new();
    push_decimal(&mut r, ms / 1000);
    push_str(&mut r, ".");
    let frac = ms % 1000;
    if frac < 10 {
        push_str(&mut r, "00");
    } else if frac < 100 {
        push_str(&mut r, "0");
    }
    push_decimal(&mut r, frac);
    push_str(&mut r, "s into this boot");
    let ghost head = r@;
    assert(head =~= decimal_text((ms / 1000) as nat) + "."@ + three_digits((ms % 1000) as nat) + "s into this boot"@);
    match now {
        Some(n) => {
            let elapsed = if n >= ms {
                n - ms
            } else {
                0
            };
            push_str(&mut r, " (");
            let ago = format_ago(elapsed / 1000);
            push_str(&mut r, ago.as_str());
            push_str(&mut r, " ago)");
            assert(r@ =~= head + (" ("@ + ago_text((elapsed / 1000) as nat) + " ago)"@));
        },
        None => {
            assert(r@ =~= head + Seq::<char>::empty());
        },
    }
    r
}

pub open spec fn cfg_boot_word(cfg: Option<ServiceConfig>) -> Seq<char> {
    match cfg {
        Some(c) => if c.enabled {
            "enabled"@
        } else {
            "disabled"@
        },
        None => "not in config"@,
    }
}

pub open spec fn pid_line(svc: Service) -> Seq<char> {
    match svc.pid {
        Some(p) => "  pid          "@ + decimal_text(p as nat) + "\n"@,
        None => "  pid          -\n"@,
    }
}

pub open spec fn started_line(svc: Service, live: Option<u64>) -> Seq<char> {
    if svc.pid is Some && svc.started_mono is Some {
        "  started      "@ + clock_text(svc.started_mono->0 as nat, live) + "\n"@
    } else {
        Seq::empty()
    }
}

pub open spec fn exit_line(svc: Service) -> Seq<char> {
    if svc.exit_code is Some && svc.pid is None {
        "  exit status  "@ + crate::text::signed_text(svc.exit_code->0 as int) + "\n"@
    } else {
        Seq::empty()
    }
}

pub open spec fn restarts_line(svc: Service) -> Seq<char> {
    "  restarts     "@ + decimal_text(svc.restart_count as nat) + (if svc.config.restart {
        Seq::empty()
    } else {
        " (restart disabled in config)"@
    }) + "\n"@
}

pub open spec fn last_restart_line(svc: Service, live: Option<u64>) -> Seq<char> {
    match svc.last_restart_mono {
        Some(at) => "  last restart "@ + clock_text(at as nat, live) + "\n"@,
        None => Seq::empty(),
    }
}

pub open spec fn retry_line(svc: Service, now: u64) -> Seq<char> {
    match svc.retry_mono {
        Some(at) => if svc.pid is None {
            "  next restart in "@ + decimal_text((if at >= now { (at - now) as nat } else { 0nat }) / 1000) + "s\n"@
        } else {
            Seq::empty()
        },
        None => Seq::empty(),
    }
}

pub open spec fn exec_line(cfg: Option<ServiceConfig>) -> Seq<char> {
    match cfg {
        Some(c) => "  exec         "@ + c.exec_path@ + "\n"@,
        None => Seq::empty(),
    }
}

/// What `status NAME` answers at `now`. `usage` is the resource lines read
/// from the service's cgroup for a question asked over the socket, and
/// `None` for a text about to be published, which carries no live readings.
pub open spec fn status_text(
    name: Seq<char>,
    services: Seq<Service>,
    config: InitConfig,
    now: u64,
    usage: Option<Seq<char>>,
) -> Seq<char> {
    let cfg = config_named(config.services@, name);
    let live = if usage is Some {
        Some(now)
    } else {
        None
    };
    match service_named(services, name) {
        None => match cfg {
            Some(c) => name + "\n  state        stopped\n  boot         "@ + boot_word(c) + "\n  description  "@
                + c.description@ + "\n  exec         "@ + c.exec_path@ + "\n"@,
            None => "error: no such service '"@ + name + "'\n"@,
        },
        Some(svc) => name + "\n"@ + "  state        "@ + state_word(svc) + "\n"@ + "  boot         "@ + cfg_boot_word(cfg)
            + "\n"@ + "  description  "@ + svc.config.description@ + "\n"@ + pid_line(svc) + started_line(svc, live)
            + (match usage {
            Some(u) => u,
            None => Seq::empty(),
        }) + exit_line(svc) + restarts_line(svc) + last_restart_line(svc, live) + retry_line(svc, now) + exec_line(
            cfg,
        ),
    }
}

fn live_of(now: u64, usage: Option<&str>) -> (r: Option<u64>)
    ensures
        r == (if usage is Some {
            Some(now)
        } else {
            None
        }),
{
    if usage.is_some() {
        Some(now)
    } else {
        None
    }
}

fn push_run_lines(svc: &Service, live: Option<u64>, out: &mut String)
    ensures
        final(out)@ == old(out)@ + pid_line(*svc) + started_line(*svc, live),
{
    let ghost o0 = out@;
    match svc.pid {
        Some(p) => {
            push_str(out, "  pid          ");
            push_decimal(out, p as u64);
            push_str(out, "\n");
        },
        None => push_str(out, "  pid          -\n"),
    }
    let ghost o1 = out@;
    assert(o1 =~= o0 + pid_line(*svc));
    if svc.is_running() {
        if let Some(at) = svc.started_mono {
            push_str(out, "  started      ");
            let c = boot_clock(at, live);
            push_str(out, c.as_str());
            push_str(out, "\n");
        }
    }
    assert(out@ =~= o1 + started_line(*svc, live));
}

fn push_history_lines(svc: &Service, live: Option<u64>, out: &mut String)
    ensures
        final(out)@ == old(out)@ + exit_line(*svc) + restarts_line(*svc) + last_restart_line(*svc, live),
{
    let ghost o3 = out@;
    match svc.exit_code {
        Some(code) => {
            if !svc.is_running() {
                push_str(out, "  exit status  ");
                crate::text::push_signed(out, code as i64);
                push_str(out, "\n");
            }
        },
        None => {},
    }
    let ghost o4 = out@;
    assert(o4 =~= o3 + exit_line(*svc));
    push_str(out, "  restarts     ");
    push_decimal(out, svc.restart_count as u64);
    if !svc.config.restart {
        push_str(out, " (restart disabled in config)");
    }
    push_str(out, "\n");
    let ghost o5 = out@;
    assert(o5 =~= o4 + restarts_line(*svc));
    if let Some(at) = svc.last_restart_mono {
        push_str(out, "  last restart ");
        let c = boot_clock(at, live);
        push_str(out, c.as_str());
        push_str(out, "\n");
    }
    assert(out@ =~= o5 + last_restart_line(*svc, live));
}

fn push_next_lines(svc: &Service, cfg: Option<&ServiceConfig>, now: u64, out: &mut String)
    ensures
        final(out)@ == old(out)@ + retry_line(*svc, now) + exec_line(
            match cfg {
                Some(c) => Some(*c),
                None => None,
            },
        ),
{
    let ghost o6 = out@;
    if let Some(at) = svc.retry_mono {
        if !svc.is_running() {
            let wait = if at >= now {
                at - now
            } else {
                0
            };
            push_str(out, "  next restart in ");
            push_decimal(out, wait / 1000);
            push_str(out, "s\n");
        }
    }
    let ghost o7 = out@;
    assert(o7 =~= o6 + retry_line(*svc, now));
    if let Some(c) = cfg {
        push_str(out, "  exec         ");
        push_str(out, c.exec_path.as_str());
        push_str(out, "\n");
    }
    assert(out@ =~= o7 + exec_line(
        match cfg {
            Some(c) => Some(*c),
            None => None,
        },
    ));
}

/// The text of `status NAME`: [`status_text`].
pub fn status_one(name: &str, services: &Vec<Service>, config: &InitConfig, now: u64, usage: Option<&str>) -> (r: String)
    ensures
        r@ == status_text(
            name@,
            services@,
            *config,
            now,
            match usage {
                Some(u) => Some(u@),
                None => None,
            },
        ),
{
    let cfg = find_config(config, name);
    match find_service(services, name) {
        None => match cfg {
            Some(c) => {
                let mut out = name.to_owned();
                push_str(&mut out, "\n  state        stopped\n  boot         ");
                push_str(
                    &mut out,
                    if c.enabled {
                        "enabled"
                    } else {
                        "disabled"
                    },
                );
                push_str(&mut out, "\n  description  ");
                push_str(&mut out, c.description.as_str());
                push_str(&mut out, "\n  exec         ");
                push_str(&mut out, c.exec_path.as_str());
                push_str(&mut out, "\n");
                out
            },
            None => {
                let mut out = "error: no such service '".to_owned();
                push_str(&mut out, name);
                push_str(&mut out, "'\n");
                out
            },
        },
        Some(svc) => {
            let mut out = name.to_owned();
            push_str(&mut out, "\n");
            push_str(&mut out, "  state        ");
            push_str(&mut out, describe_state(svc));
            push_str(&mut out, "\n");
            push_str(&mut out, "  boot         ");
            push_str(
                &mut out,
                match cfg {
                    Some(c) => if c.enabled {
                        "enabled"
                    } else {
                        "disabled"
                    },
                    None => "not in config",
                },
            );
            push_str(&mut out, "\n");
            push_str(&mut out, "  description  ");
            push_str(&mut out, svc.config.description.as_str());
            push_str(&mut out, "\n");
            let live = live_of(now, usage);
            push_run_lines(svc, live, &mut out);
            match usage {
                Some(u) => push_str(&mut out, u),
                None => {},
            }
            push_history_lines(svc, live, &mut out);
            push_next_lines(svc, cfg, now, &mut out);
            out
        },
    }
}


/// Whether a process is running under `name`.
pub open spec fn running_under(services: Seq<Service>, name: Seq<char>) -> bool {
    service_named(services, name) matches Some(svc) && svc.pid is Some
}

/// The names of some definitions, in order.
pub open spec fn def_names(defs: Seq<ServiceConfig>) -> Seq<Seq<char>> {
    defs.map_values(|c: ServiceConfig| c.name@)
}

/// The definitions after the incoming ones are taken in order, and the
/// names that were added, updated, and changed while running. An incoming
/// definition replaces the first one of its name unless the two say the
/// same thing; one whose name is new is appended.
pub open spec fn taken(current: Seq<ServiceConfig>, fresh: Seq<ServiceConfig>, services: Seq<Service>) -> (
    Seq<ServiceConfig>,
    Seq<Seq<char>>,
    Seq<Seq<char>>,
    Seq<Seq<char>>,
)
    decreases fresh.len(),
{
    if fresh.len() == 0 {
        (current, Seq::empty(), Seq::empty(), Seq::empty())
    } else {
        let (defs, added, updated, pending) = taken(current, fresh.drop_last(), services);
        let inc = fresh.last();
        let k = config_index(defs, inc.name@, 0);
        if 0 <= k < defs.len() {
            if same_definition(defs[k], inc) {
                (defs, added, updated, pending)
            } else if running_under(services, inc.name@) {
                (defs.update(k, inc), added, updated, pending.push(inc.name@))
            } else {
                (defs.update(k, inc), added, updated.push(inc.name@), pending)
            }
        } else {
            (defs.push(inc), added.push(inc.name@), updated, pending)
        }
    }
}

/// Whether a definition survives a reload: its name is still defined, or a
/// process still runs under it and `stop` must still be able to name it.
pub open spec fn survives(d: ServiceConfig, fresh: Seq<ServiceConfig>, services: Seq<Service>) -> bool {
    def_names(fresh).contains(d.name@) || running_under(services, d.name@)
}

pub open spec fn kept(defs: Seq<ServiceConfig>, fresh: Seq<ServiceConfig>, services: Seq<Service>) -> Seq<
    ServiceConfig,
>
    decreases defs.len(),
{
    if defs.len() == 0 {
        Seq::empty()
    } else {
        let rest = kept(defs.drop_last(), fresh, services);
        if survives(defs.last(), fresh, services) {
            rest.push(defs.last())
        } else {
            rest
        }
    }
}

/// Names of definitions gone from disk: those stopped, forgotten, when not
/// `running`; those still running, kept, when `running`.
pub open spec fn gone(defs: Seq<ServiceConfig>, fresh: Seq<ServiceConfig>, services: Seq<Service>, running: bool) -> Seq<
    Seq<char>,
>
    decreases defs.len(),
{
    if defs.len() == 0 {
        Seq::empty()
    } else {
        let rest = gone(defs.drop_last(), fresh, services, running);
        let d = defs.last();
        if !def_names(fresh).contains(d.name@) && running_under(services, d.name@) == running {
            rest.push(d.name@)
        } else {
            rest
        }
    }
}

/// What a reload did, by name.
pub struct ReloadReport {
    /// New definitions; not started.
    pub added: Vec<String>,
    /// Changed definitions of services not running.
    pub updated: Vec<String>,
    /// Changed definitions of running services, which keep running as they
    /// were started until restarted.
    pub pending: Vec<String>,
    /// Definitions whose file is gone, of services not running.
    pub dropped: Vec<String>,
    /// Definitions whose file is gone, kept because their service runs.
    pub orphaned: Vec<String>,
}

fn is_running_under(services: &Vec<Service>, name: &str) -> (r: bool)
    ensures
        r == running_under(services@, name@),
{
    match find_service(services, name) {
        Some(svc) => svc.is_running(),
        None => false,
    }
}

pub(crate) fn listed(names: &Vec<String>, name: &str) -> (r: bool)
    ensures
        r == string_views(names@).contains(name@),
{
    let want = chars_of(name);
    let mut i: usize = 0;
    while i < names.len()
        invariant
            i <= names.len(),
            want@ == name@,
            forall|k: int| 0 <= k < i ==> (#[trigger] names@[k])@ != name@,
        decreases names.len() - i,
    {
        if crate::text::same(&chars_of(names[i].as_str()), &want) {
            assert(string_views(names@)[i as int] == name@);
            return true;
        }
        i += 1;
    }
    false
}

/// Take the definitions read afresh into `config`, keeping every running
/// service's process as it is: a changed definition of a running service
/// waits for its restart, and a vanished one is kept while it runs. Only
/// the services are taken; `system` and `mounts` would be a boot, not a
/// reload.
pub fn reconcile(config: &mut InitConfig, fresh: InitConfig, services: &Vec<Service>) -> (r: ReloadReport)
    ensures
        ({
            let (defs, added, updated, pending) = taken(old(config).services@, fresh.services@, services@);
            &&& final(config).services@ == kept(defs, fresh.services@, services@)
            &&& string_views(r.added@) == added
            &&& string_views(r.updated@) == updated
            &&& string_views(r.pending@) == pending
            &&& string_views(r.dropped@) == gone(defs, fresh.services@, services@, false)
            &&& string_views(r.orphaned@) == gone(defs, fresh.services@, services@, true)
        }),
        final(config).source_path == fresh.source_path,
        final(config).system == old(config).system,
        final(config).mounts == old(config).mounts,
{
    let ghost incoming_all = fresh.services@;
    let mut fresh_names: Vec<String> = Vec::new();
    let mut j: usize = 0;
    while j < fresh.services.len()
        invariant
            j <= fresh.services.len(),
            string_views(fresh_names@) == def_names(fresh.services@).subrange(0, j as int),
        decreases fresh.services.len() - j,
    {
        let ghost before = string_views(fresh_names@);
        let nm = fresh.services[j].name.clone();
        assert(nm@ == fresh.services@[j as int].name@);
        fresh_names.push(nm);
        assert(string_views(fresh_names@) =~= before.push(nm@));
        assert(def_names(fresh.services@).subrange(0, j + 1) =~= def_names(fresh.services@).subrange(0, j as int).push(
            nm@,
        ));
        j += 1;
    }
    assert(def_names(fresh.services@).subrange(0, j as int) =~= def_names(fresh.services@));
    let InitConfig { system: _, services: mut incoming, mounts: _, source_path } = fresh;
    let mut added: Vec<String> = Vec::new();
    let mut updated: Vec<String> = Vec::new();
    let mut pending: Vec<String> = Vec::new();
    let ghost start = config.services@;
    let ghost mut done: int = 0;
    while incoming.len() > 0
        invariant
            0 <= done <= incoming_all.len(),
            incoming@ == incoming_all.subrange(done, incoming_all.len() as int),
            ({
                let (defs, a, u, p) = taken(start, incoming_all.subrange(0, done), services@);
                &&& config.services@ == defs
                &&& string_views(added@) == a
                &&& string_views(updated@) == u
                &&& string_views(pending@) == p
            }),
            config.system == old(config).system,
            config.mounts == old(config).mounts,
        decreases incoming.len(),
    {
        let inc = incoming.remove(0);
        let ghost pre_a = string_views(added@);
        let ghost pre_u = string_views(updated@);
        let ghost pre_p = string_views(pending@);
        proof {
            assert(incoming_all.subrange(0, done + 1).drop_last() =~= incoming_all.subrange(0, done));
            assert(incoming_all.subrange(0, done + 1).last() == inc);
        }
        let name = inc.name.clone();
        let k = position_of(&config.services, name.as_str());
        if k < config.services.len() {
            if !config.services[k].same_as(&inc) {
                let run = is_running_under(services, name.as_str());
                config.services.set(k, inc);
                if run {
                    pending.push(name);
                    assert(string_views(pending@) =~= pre_p.push(name@));
                } else {
                    updated.push(name);
                    assert(string_views(updated@) =~= pre_u.push(name@));
                }
            }
        } else {
            config.services.push(inc);
            added.push(name);
            assert(string_views(added@) =~= pre_a.push(name@));
        }
        proof {
            done = done + 1;
        }
        assert(incoming@ =~= incoming_all.subrange(done, incoming_all.len() as int));
    }
    assert(incoming_all.subrange(0, done) =~= incoming_all);
    let ghost defs = config.services@;
    let mut old_defs: Vec<ServiceConfig> = Vec::new();
    std::mem::swap(&mut old_defs, &mut config.services);
    let mut dropped: Vec<String> = Vec::new();
    let mut orphaned: Vec<String> = Vec::new();
    let ghost mut seen: int = 0;
    while old_defs.len() > 0
        invariant
            0 <= seen <= defs.len(),
            old_defs@ == defs.subrange(seen, defs.len() as int),
            config.services@ == kept(defs.subrange(0, seen), incoming_all, services@),
            string_views(dropped@) == gone(defs.subrange(0, seen), incoming_all, services@, false),
            string_views(orphaned@) == gone(defs.subrange(0, seen), incoming_all, services@, true),
            string_views(fresh_names@) == def_names(incoming_all),
            config.system == old(config).system,
            config.mounts == old(config).mounts,
        decreases old_defs.len(),
    {
        let d = old_defs.remove(0);
        proof {
            assert(defs.subrange(0, seen + 1).drop_last() =~= defs.subrange(0, seen));
            assert(defs.subrange(0, seen + 1).last() == d);
        }
        let ghost pre_d = string_views(dropped@);
        let ghost pre_o = string_views(orphaned@);
        let defined = listed(&fresh_names, d.name.as_str());
        let run = is_running_under(services, d.name.as_str());
        if defined {
            config.services.push(d);
        } else if run {
            orphaned.push(d.name.clone());
            assert(string_views(orphaned@) =~= pre_o.push(d.name@));
            config.services.push(d);
        } else {
            dropped.push(d.name.clone());
            assert(string_views(dropped@) =~= pre_d.push(d.name@));
        }
        proof {
            seen = seen + 1;
        }
        assert(old_defs@ =~= defs.subrange(seen, defs.len() as int));
    }
    assert(defs.subrange(0, seen) =~= defs);
    config.source_path = source_path;
    ReloadReport { added, updated, pending, dropped, orphaned }
}


/// Append `names` joined by `sep`.
pub(crate) fn push_joined(out: &mut String, names: &Vec<String>, sep: &str)
    ensures
        final(out)@ == old(out)@ + crate::text::joined(string_views(names@), sep@),
{
    let ghost start = out@;
    let mut i: usize = 0;
    while i < names.len()
        invariant
            i <= names.len(),
            out@ == start + crate::text::joined(string_views(names@).subrange(0, i as int), sep@),
        decreases names.len() - i,
    {
        if i > 0 {
            push_str(out, sep);
        }
        push_str(out, names[i].as_str());
        assert(string_views(names@).subrange(0, i + 1).drop_last() =~= string_views(names@).subrange(0, i as int));
        assert(string_views(names@).subrange(0, i + 1).last() == names@[i as int]@);
        if i == 0 {
            assert(crate::text::joined(string_views(names@).subrange(0, 1), sep@) == names@[0]@);
        }
        i += 1;
    }
    assert(string_views(names@).subrange(0, names.len() as int) =~= string_views(names@));
}

/// One line of the reload report: what happened to which names, and what
/// the operator can do about it.
pub open spec fn section_text(label: Seq<char>, names: Seq<Seq<char>>, note: Seq<char>) -> Seq<char> {
    if names.len() == 0 {
        Seq::empty()
    } else {
        "  "@ + label + ": "@ + crate::text::joined(names, ", "@) + (if note.len() == 0 {
            "\n"@
        } else {
            " ("@ + note + ")\n"@
        })
    }
}

fn push_section(out: &mut String, label: &str, names: &Vec<String>, note: &str)
    ensures
        final(out)@ == old(out)@ + section_text(label@, string_views(names@), note@),
{
    if names.len() == 0 {
        assert(old(out)@ + section_text(label@, string_views(names@), note@) =~= old(out)@);
        return;
    }
    let ghost start = out@;
    push_str(out, "  ");
    push_str(out, label);
    push_str(out, ": ");
    push_joined(out, names, ", ");
    let n = chars_of(note).len();
    if n == 0 {
        push_str(out, "\n");
    } else {
        push_str(out, " (");
        push_str(out, note);
        push_str(out, ")\n");
    }
    assert(out@ =~= start + section_text(label@, string_views(names@), note@));
}

/// The report of a reload that took `added`, `updated`, `pending`,
/// `dropped` and `orphaned`.
pub open spec fn report_text(
    added: Seq<Seq<char>>,
    updated: Seq<Seq<char>>,
    pending: Seq<Seq<char>>,
    dropped: Seq<Seq<char>>,
    orphaned: Seq<Seq<char>>,
) -> Seq<char> {
    if added.len() == 0 && updated.len() == 0 && pending.len() == 0 && dropped.len() == 0 && orphaned.len() == 0 {
        "Configuration reloaded; nothing changed\n"@
    } else {
        "Configuration reloaded\n"@ + section_text("added"@, added, "not started; `raven-rc start NAME`"@)
            + section_text("updated"@, updated, ""@) + section_text(
            "changed while running"@,
            pending,
            "`raven-rc restart NAME` to apply"@,
        ) + section_text("removed"@, dropped, ""@) + section_text(
            "removed but still running"@,
            orphaned,
            "`raven-rc stop NAME` to retire"@,
        )
    }
}

/// [`report_text`] of `report`.
pub fn reload_message(report: &ReloadReport) -> (r: String)
    ensures
        r@ == report_text(
            string_views(report.added@),
            string_views(report.updated@),
            string_views(report.pending@),
            string_views(report.dropped@),
            string_views(report.orphaned@),
        ),
{
    if report.added.len() == 0 && report.updated.len() == 0 && report.pending.len() == 0
        && report.dropped.len() == 0 && report.orphaned.len() == 0 {
        return "Configuration reloaded; nothing changed\n".to_owned();
    }
    let mut out = "Configuration reloaded\n".to_owned();
    push_section(&mut out, "added", &report.added, "not started; `raven-rc start NAME`");
    push_section(&mut out, "updated", &report.updated, "");
    push_section(&mut out, "changed while running", &report.pending, "`raven-rc restart NAME` to apply");
    push_section(&mut out, "removed", &report.dropped, "");
    push_section(&mut out, "removed but still running", &report.orphaned, "`raven-rc stop NAME` to retire");
    out
}

/// The error a reload answers when the configuration could not be read.
pub open spec fn reload_error_text(e: Seq<char>) -> Seq<char> {
    "error: could not reload configuration: "@ + e + "\nthe running configuration is unchanged\n"@
}

/// Reconcile the running configuration with `fresh`, the configuration
/// read again the way the boot reads it, and report what changed; or, when
/// it could not be read, say so and change nothing.
pub fn reload_config(config: &mut InitConfig, fresh: Result<InitConfig, String>, services: &Vec<Service>) -> (r: String)
    ensures
        match fresh {
            Err(e) => {
                &&& r@ == reload_error_text(e@)
                &&& *final(config) == *old(config)
            },
            Ok(f) => {
                let (defs, added, updated, pending) = taken(old(config).services@, f.services@, services@);
                &&& final(config).services@ == kept(defs, f.services@, services@)
                &&& final(config).source_path == f.source_path
                &&& final(config).system == old(config).system
                &&& final(config).mounts == old(config).mounts
                &&& r@ == report_text(
                    added,
                    updated,
                    pending,
                    gone(defs, f.services@, services@, false),
                    gone(defs, f.services@, services@, true),
                )
            },
        },
{
    match fresh {
        Err(e) => {
            let mut out = "error: could not reload configuration: ".to_owned();
            push_str(&mut out, e.as_str());
            push_str(&mut out, "\nthe running configuration is unchanged\n");
            out
        },
        Ok(f) => {
            let report = reconcile(config, f, services);
            reload_message(&report)
        },
    }
}


pub proof fn lemma_config_index(defs: Seq<ServiceConfig>, name: Seq<char>, i: int)
    requires
        0 <= i <= defs.len(),
    ensures
        i <= config_index(defs, name, i) <= defs.len(),
        config_index(defs, name, i) < defs.len() ==> defs[config_index(defs, name, i)].name@ == name,
        forall|m: int| i <= m < config_index(defs, name, i) ==> defs[m].name@ != name,
    decreases defs.len() - i,
{
    if i < defs.len() && defs[i].name@ != name {
        lemma_config_index(defs, name, i + 1);
    }
}

/// Taking definitions keeps every name where it was, and only appends.
proof fn lemma_taken_positions(current: Seq<ServiceConfig>, fresh: Seq<ServiceConfig>, services: Seq<Service>)
    ensures
        taken(current, fresh, services).0.len() >= current.len(),
        forall|i: int|
            0 <= i < current.len() ==> (#[trigger] taken(current, fresh, services).0[i]).name@ == current[i].name@,
    decreases fresh.len(),
{
    if fresh.len() > 0 {
        lemma_taken_positions(current, fresh.drop_last(), services);
        let defs = taken(current, fresh.drop_last(), services).0;
        lemma_config_index(defs, fresh.last().name@, 0);
    }
}

/// After taking distinct-named definitions, each of them is held.
proof fn lemma_taken_holds(current: Seq<ServiceConfig>, fresh: Seq<ServiceConfig>, services: Seq<Service>)
    requires
        def_names(fresh).no_duplicates(),
    ensures
        forall|j: int|
            #![trigger fresh[j]]
            0 <= j < fresh.len() ==> exists|k: int|
                0 <= k < taken(current, fresh, services).0.len() && same_definition(
                    #[trigger] taken(current, fresh, services).0[k],
                    fresh[j],
                ),
    decreases fresh.len(),
{
    if fresh.len() > 0 {
        let prev = fresh.drop_last();
        assert(def_names(prev) =~= def_names(fresh).drop_last());
        lemma_taken_holds(current, prev, services);
        let defs = taken(current, prev, services).0;
        let inc = fresh.last();
        let after = taken(current, fresh, services).0;
        lemma_config_index(defs, inc.name@, 0);
        let k0 = config_index(defs, inc.name@, 0);
        assert forall|j: int| #![trigger fresh[j]] 0 <= j < fresh.len() implies exists|k: int|
            0 <= k < after.len() && same_definition(#[trigger] after[k], fresh[j]) by {
            if j == fresh.len() - 1 {
                if 0 <= k0 < defs.len() {
                    if same_definition(defs[k0], inc) {
                        assert(same_definition(after[k0], fresh[j]));
                    } else {
                        assert(after[k0] == inc);
                        lemma_same_definition_reflexive(inc);
                        assert(same_definition(after[k0], fresh[j]));
                    }
                } else {
                    assert(after[defs.len() as int] == inc);
                    lemma_same_definition_reflexive(inc);
                    assert(same_definition(after[defs.len() as int], fresh[j]));
                }
            } else {
                assert(prev[j] == fresh[j]);
                let k = choose|k: int| 0 <= k < defs.len() && same_definition(#[trigger] defs[k], prev[j]);
                assert(def_names(fresh)[j] != def_names(fresh)[fresh.len() - 1]);
                assert(defs[k].name@ == fresh[j].name@);
                if 0 <= k0 < defs.len() {
                    assert(k != k0);
                }
                assert(after[k] == defs[k]);
                assert(same_definition(after[k], fresh[j]));
            }
        }
    }
}

proof fn lemma_same_definition_reflexive(d: ServiceConfig)
    ensures
        same_definition(d, d),
{
    assert forall|i: int| 0 <= i < d.environment@.len() implies crate::config::holds(
        d.environment@,
        d.environment@[i].0@,
        d.environment@[i].1@,
    ) by {
        let e = d.environment@[i];
    }
    match d.demand {
        Some(x) => {
            assert forall|i: int| 0 <= i < x.device@.len() implies crate::config::same_trigger(
                #[trigger] x.device@[i],
                x.device@[i],
            ) by {
                let p = x.device@[i].properties@;
                assert forall|m: int| 0 <= m < p.len() implies crate::config::holds(p, p[m].0@, p[m].1@) by {
                    let e = p[m];
                }
            }
        },
        None => {},
    }
}

/// What survives is what `kept` holds, in order.
proof fn lemma_kept(defs: Seq<ServiceConfig>, fresh: Seq<ServiceConfig>, services: Seq<Service>)
    ensures
        forall|k: int|
            #![trigger defs[k]]
            0 <= k < defs.len() && survives(defs[k], fresh, services) ==> exists|m: int|
                0 <= m < kept(defs, fresh, services).len() && #[trigger] kept(defs, fresh, services)[m] == defs[k],
        forall|m: int|
            0 <= m < kept(defs, fresh, services).len() ==> survives(
                #[trigger] kept(defs, fresh, services)[m],
                fresh,
                services,
            ),
    decreases defs.len(),
{
    if defs.len() > 0 {
        let prev = defs.drop_last();
        lemma_kept(prev, fresh, services);
        let before = kept(prev, fresh, services);
        let now = kept(defs, fresh, services);
        assert forall|k: int| #![trigger defs[k]] 0 <= k < defs.len() && survives(defs[k], fresh, services) implies exists|m: int|
            0 <= m < now.len() && #[trigger] now[m] == defs[k] by {
            if k == defs.len() - 1 {
                assert(now[before.len() as int] == defs[k]);
            } else {
                assert(prev[k] == defs[k]);
                let m = choose|m: int| 0 <= m < before.len() && #[trigger] before[m] == prev[k];
                assert(now[m] == before[m]);
            }
        }
        assert forall|m: int| 0 <= m < now.len() implies survives(#[trigger] now[m], fresh, services) by {
            if m < before.len() {
                assert(now[m] == before[m]);
            }
        }
    }
}

/// A reload takes every definition read afresh: when the names on disk are
/// distinct, each definition there is, afterwards, one the configuration
/// holds.
pub proof fn lemma_reload_takes_every_definition(
    current: Seq<ServiceConfig>,
    fresh: Seq<ServiceConfig>,
    services: Seq<Service>,
)
    requires
        def_names(fresh).no_duplicates(),
    ensures
        forall|j: int|
            #![trigger fresh[j]]
            0 <= j < fresh.len() ==> exists|k: int|
                0 <= k < kept(taken(current, fresh, services).0, fresh, services).len() && same_definition(
                    #[trigger] kept(taken(current, fresh, services).0, fresh, services)[k],
                    fresh[j],
                ),
{
    let defs = taken(current, fresh, services).0;
    let result = kept(defs, fresh, services);
    lemma_taken_holds(current, fresh, services);
    lemma_kept(defs, fresh, services);
    assert forall|j: int| #![trigger fresh[j]] 0 <= j < fresh.len() implies exists|k: int|
        0 <= k < result.len() && same_definition(#[trigger] result[k], fresh[j]) by {
        let k = choose|k: int| 0 <= k < defs.len() && same_definition(#[trigger] defs[k], fresh[j]);
        assert(def_names(fresh)[j] == fresh[j].name@);
        assert(survives(defs[k], fresh, services));
        let m = choose|m: int| 0 <= m < result.len() && #[trigger] result[m] == defs[k];
        assert(same_definition(result[m], fresh[j]));
    }
}

/// A reload never takes away the definition of a running service: every
/// name a process runs under before keeps a definition after, so `stop`
/// can still name it.
pub proof fn lemma_reload_keeps_what_runs(current: Seq<ServiceConfig>, fresh: Seq<ServiceConfig>, services: Seq<Service>)
    ensures
        forall|i: int|
            #![trigger current[i]]
            0 <= i < current.len() && running_under(services, current[i].name@) ==> exists|m: int|
                0 <= m < kept(taken(current, fresh, services).0, fresh, services).len() && (#[trigger] kept(
                    taken(current, fresh, services).0,
                    fresh,
                    services,
                )[m]).name@ == current[i].name@,
{
    let defs = taken(current, fresh, services).0;
    let result = kept(defs, fresh, services);
    lemma_taken_positions(current, fresh, services);
    lemma_kept(defs, fresh, services);
    assert forall|i: int| #![trigger current[i]] 0 <= i < current.len() && running_under(services, current[i].name@) implies exists|m: int|
        0 <= m < result.len() && (#[trigger] result[m]).name@ == current[i].name@ by {
        assert(defs[i].name@ == current[i].name@);
        assert(survives(defs[i], fresh, services));
        let m = choose|m: int| 0 <= m < result.len() && #[trigger] result[m] == defs[i];
        assert(result[m].name@ == current[i].name@);
    }
}

/// Taking definitions leaves alone every one whose name is not among them.
proof fn lemma_taken_keeps_absent(current: Seq<ServiceConfig>, fresh: Seq<ServiceConfig>, services: Seq<Service>)
    ensures
        forall|i: int|
            0 <= i < current.len() && !def_names(fresh).contains(current[i].name@) ==> #[trigger] taken(
                current,
                fresh,
                services,
            ).0[i] == current[i],
    decreases fresh.len(),
{
    if fresh.len() > 0 {
        let prev = fresh.drop_last();
        lemma_taken_keeps_absent(current, prev, services);
        lemma_taken_positions(current, prev, services);
        let defs = taken(current, prev, services).0;
        let inc = fresh.last();
        lemma_config_index(defs, inc.name@, 0);
        assert forall|i: int|
            0 <= i < current.len() && !def_names(fresh).contains(current[i].name@) implies #[trigger] taken(
            current,
            fresh,
            services,
        ).0[i] == current[i] by {
            assert(def_names(prev) =~= def_names(fresh).drop_last());
            if def_names(prev).contains(current[i].name@) {
                let j = choose|j: int| 0 <= j < def_names(prev).len() && def_names(prev)[j] == current[i].name@;
                assert(def_names(fresh)[j] == current[i].name@);
            }
            assert(def_names(fresh)[fresh.len() - 1] == inc.name@);
            assert(inc.name@ != current[i].name@);
            assert(defs[i] == current[i]);
        }
    }
}

/// A reload keeps the old definition of a service whose file is gone while
/// it still runs, exactly as it was, so that it can still be stopped and
/// described.
pub proof fn lemma_reload_keeps_orphans(current: Seq<ServiceConfig>, fresh: Seq<ServiceConfig>, services: Seq<Service>)
    ensures
        forall|i: int|
            #![trigger current[i]]
            0 <= i < current.len() && running_under(services, current[i].name@) && !def_names(fresh).contains(
                current[i].name@,
            ) ==> exists|m: int|
                0 <= m < kept(taken(current, fresh, services).0, fresh, services).len() && #[trigger] kept(
                    taken(current, fresh, services).0,
                    fresh,
                    services,
                )[m] == current[i],
{
    let defs = taken(current, fresh, services).0;
    lemma_taken_positions(current, fresh, services);
    lemma_taken_keeps_absent(current, fresh, services);
    lemma_kept(defs, fresh, services);
    assert forall|i: int|
        #![trigger current[i]]
        0 <= i < current.len() && running_under(services, current[i].name@) && !def_names(fresh).contains(
            current[i].name@,
        ) implies exists|m: int|
        0 <= m < kept(defs, fresh, services).len() && #[trigger] kept(defs, fresh, services)[m] == current[i] by {
        assert(defs[i] == current[i]);
        assert(survives(defs[i], fresh, services));
    }
}

/// After a reload, every definition held is either on disk or the one of a
/// service still running.
pub proof fn lemma_reload_holds_nothing_stale(current: Seq<ServiceConfig>, fresh: Seq<ServiceConfig>, services: Seq<Service>)
    ensures
        forall|m: int|
            0 <= m < kept(taken(current, fresh, services).0, fresh, services).len() ==> {
                let d = #[trigger] kept(taken(current, fresh, services).0, fresh, services)[m];
                def_names(fresh).contains(d.name@) || running_under(services, d.name@)
            },
{
    lemma_kept(taken(current, fresh, services).0, fresh, services);
}


/// Where the text of `list` and `status NAME` is published for readers
/// without root.
pub const STATUS_DIR: &'static str = "/run/raven-init";

/// One file the status publisher brings up to date.
pub enum Publication {
    /// `status`: the text of `list`.
    List(String),
    /// `blame`: the boot timeline.
    Blame(String),
    /// `services/NAME`: the text of `status NAME`, without live readings.
    Service(String, String),
    /// `services/NAME` of a service that left the configuration: removed.
    Gone(String),
}

/// A publication by its parts: whether it writes, the file under the
/// status directory, and the text.
pub open spec fn publication_view(p: Publication) -> (bool, Seq<char>, Seq<char>) {
    match p {
        Publication::List(t) => (true, "status"@, t@),
        Publication::Blame(t) => (true, "blame"@, t@),
        Publication::Service(n, t) => (true, "services/"@ + n@, t@),
        Publication::Gone(n) => (false, "services/"@ + n@, Seq::empty()),
    }
}

pub open spec fn publication_views(v: Seq<Publication>) -> Seq<(bool, Seq<char>, Seq<char>)> {
    v.map_values(|p: Publication| publication_view(p))
}

/// Publishes what `list` and `status NAME` would say, writing a file only
/// when its text differs from what was last written, so a quiet system costs
/// comparisons and no I/O. The program performs the publications in order,
/// stops at the first that fails, and records each that succeeded.
pub struct StatusPublisher {
    dir: String,
    list: Option<String>,
    blame: Option<String>,
    /// The text last published for each service, by name.
    services: Vec<(String, String)>,
    warned: bool,
}

/// The text last published under `name`.
pub open spec fn cached(cache: Seq<(String, String)>, name: Seq<char>) -> Option<Seq<char>>
    decreases cache.len(),
{
    if cache.len() == 0 {
        None
    } else if cache[0].0@ == name {
        Some(cache[0].1@)
    } else {
        cached(cache.drop_first(), name)
    }
}

/// A name that can be a file name in the status directory: nothing that
/// could leave it is published.
pub open spec fn publishable(name: Seq<char>) -> bool {
    name.len() > 0 && !name.contains('/') && name[0] != '.'
}

/// `names` followed by those of `more` not already among them, each once.
pub open spec fn with_names(names: Seq<Seq<char>>, more: Seq<Seq<char>>) -> Seq<Seq<char>>
    decreases more.len(),
{
    if more.len() == 0 {
        names
    } else {
        let acc = with_names(names, more.drop_last());
        if acc.contains(more.last()) {
            acc
        } else {
            acc.push(more.last())
        }
    }
}

pub open spec fn service_names(services: Seq<Service>) -> Seq<Seq<char>> {
    services.map_values(|s: Service| s.config.name@)
}

/// The names published: the configuration's, then anything running that it
/// does not mention, the set `list` shows.
pub open spec fn published_names(services: Seq<Service>, config: InitConfig) -> Seq<Seq<char>> {
    with_names(with_names(Seq::empty(), def_names(config.services@)), service_names(services))
}

/// The service texts that differ from what was last published.
pub open spec fn service_updates(
    cache: Seq<(String, String)>,
    names: Seq<Seq<char>>,
    services: Seq<Service>,
    config: InitConfig,
    now: u64,
) -> Seq<(bool, Seq<char>, Seq<char>)>
    decreases names.len(),
{
    if names.len() == 0 {
        Seq::empty()
    } else {
        let rest = service_updates(cache, names.drop_last(), services, config, now);
        let n = names.last();
        let text = status_text(n, services, config, now, None);
        if publishable(n) && cached(cache, n) != Some(text) {
            rest.push((true, "services/"@ + n, text))
        } else {
            rest
        }
    }
}

/// The removals of files for names no longer published.
pub open spec fn removals(cache: Seq<(String, String)>, names: Seq<Seq<char>>) -> Seq<(bool, Seq<char>, Seq<char>)>
    decreases cache.len(),
{
    if cache.len() == 0 {
        Seq::empty()
    } else {
        let rest = removals(cache.drop_last(), names);
        let n = cache.last().0@;
        if !names.contains(n) {
            rest.push((false, "services/"@ + n, Seq::empty()))
        } else {
            rest
        }
    }
}

fn listed_name(names: &Vec<String>, name: &str) -> (r: bool)
    ensures
        r == string_views(names@).contains(name@),
{
    listed(names, name)
}

fn cached_text<'a>(cache: &'a Vec<(String, String)>, name: &str) -> (r: Option<&'a String>)
    ensures
        match r {
            Some(t) => cached(cache@, name@) == Some(t@),
            None => cached(cache@, name@) is None,
        },
{
    let want = chars_of(name);
    let mut i: usize = 0;
    assert(cache@.subrange(0, cache.len() as int) =~= cache@);
    while i < cache.len()
        invariant
            i <= cache.len(),
            want@ == name@,
            cached(cache@.subrange(i as int, cache.len() as int), name@) == cached(cache@, name@),
        decreases cache.len() - i,
    {
        assert(cache@.subrange(i as int, cache.len() as int).drop_first() =~= cache@.subrange(i + 1, cache.len() as int));
        if crate::text::same(&chars_of(cache[i].0.as_str()), &want) {
            return Some(&cache[i].1);
        }
        i += 1;
    }
    None
}

fn publishable_name(name: &str) -> (r: bool)
    ensures
        r == publishable(name@),
{
    let v = chars_of(name);
    v.len() > 0 && !crate::text::contains_char(name, '/') && v[0] != '.'
}

pub(crate) fn push_names(names: &mut Vec<String>, more: &Vec<String>)
    ensures
        string_views(final(names)@) == with_names(string_views(old(names)@), string_views(more@)),
{
    let ghost start = string_views(names@);
    let mut i: usize = 0;
    while i < more.len()
        invariant
            i <= more.len(),
            string_views(names@) == with_names(start, string_views(more@).subrange(0, i as int)),
        decreases more.len() - i,
    {
        let ghost before = string_views(names@);
        assert(string_views(more@).subrange(0, i + 1).drop_last() =~= string_views(more@).subrange(0, i as int));
        assert(string_views(more@).subrange(0, i + 1).last() == more@[i as int]@);
        if !listed(names, more[i].as_str()) {
            let n = more[i].clone();
            names.push(n);
            assert(string_views(names@) =~= before.push(more@[i as int]@));
        }
        i += 1;
    }
    assert(string_views(more@).subrange(0, more.len() as int) =~= string_views(more@));
}

proof fn lemma_cached_append(c: Seq<(String, String)>, e: (String, String))
    ensures
        forall|o: Seq<char>|
            #[trigger] cached(c.push(e), o) == (if cached(c, o) is Some {
                cached(c, o)
            } else if e.0@ == o {
                Some(e.1@)
            } else {
                None
            }),
    decreases c.len(),
{
    let d = c.push(e);
    if c.len() > 0 {
        lemma_cached_append(c.drop_first(), e);
        assert(d.drop_first() =~= c.drop_first().push(e));
        assert forall|o: Seq<char>| #[trigger] cached(d, o) == (if cached(c, o) is Some {
            cached(c, o)
        } else if e.0@ == o {
            Some(e.1@)
        } else {
            None
        }) by {
            assert(d[0] == c[0]);
            assert(cached(c.drop_first().push(e), o) == cached(d.drop_first(), o));
        }
    } else {
        assert(d.drop_first() =~= Seq::<(String, String)>::empty());
        assert forall|o: Seq<char>| #[trigger] cached(d, o) == (if cached(c, o) is Some {
            cached(c, o)
        } else if e.0@ == o {
            Some(e.1@)
        } else {
            None
        }) by {
            assert(d[0] == e);
            assert(cached(d.drop_first(), o) is None);
        }
    }
}

impl StatusPublisher {
    /// A publisher for [`STATUS_DIR`].
    pub fn new() -> (r: Self)
        ensures
            r.dir()@ == STATUS_DIR@,
            r.is_fresh(),
    {
        Self::at(STATUS_DIR)
    }

    /// A publisher for the directory `dir`.
    pub fn at(dir: &str) -> (r: Self)
        ensures
            r.dir()@ == dir@,
            r.is_fresh(),
    {
        StatusPublisher { dir: dir.to_owned(), list: None, blame: None, services: Vec::new(), warned: false }
    }

    pub closed spec fn dir(&self) -> String {
        self.dir
    }

    /// Nothing published yet, and nothing complained about.
    pub closed spec fn is_fresh(&self) -> bool {
        &&& self.list is None
        &&& self.blame is None
        &&& self.services@.len() == 0
        &&& !self.warned
    }

    /// The directory published under.
    pub fn directory(&self) -> (r: &str)
        ensures
            r@ == self.dir()@,
    {
        self.dir.as_str()
    }

    /// What was last published as the listing, the timeline and each
    /// service's status.
    pub closed spec fn last_list(&self) -> Option<Seq<char>> {
        match self.list {
            Some(t) => Some(t@),
            None => None,
        }
    }

    pub closed spec fn last_blame(&self) -> Option<Seq<char>> {
        match self.blame {
            Some(t) => Some(t@),
            None => None,
        }
    }

    pub closed spec fn cache(&self) -> Seq<(String, String)> {
        self.services@
    }

    pub closed spec fn has_warned(&self) -> bool {
        self.warned
    }

    /// The publications that bring the files up to date with `list`, the
    /// timeline `blame`, and each service's status at `now`: the listing and
    /// the timeline when they differ from what was last published, each
    /// publishable name's status when it differs, and a removal for each
    /// name published before and no longer among them.
    pub fn plan(&self, list: &str, blame: &str, services: &Vec<Service>, config: &InitConfig, now: u64) -> (r: Vec<Publication>)
        ensures
            ({
                let names = published_names(services@, *config);
                publication_views(r@) == (if self.last_list() == Some(list@) {
                    Seq::empty()
                } else {
                    seq![(true, "status"@, list@)]
                }) + (if self.last_blame() == Some(blame@) {
                    Seq::empty()
                } else {
                    seq![(true, "blame"@, blame@)]
                }) + service_updates(self.cache(), names, services@, *config, now) + removals(self.cache(), names)
            }),
    {
        let mut out: Vec<Publication> = Vec::new();
        let same_list = match &self.list {
            Some(t) => crate::text::same(&chars_of(t.as_str()), &chars_of(list)),
            None => false,
        };
        let ghost first: Seq<(bool, Seq<char>, Seq<char>)> = if self.last_list() == Some(list@) {
            Seq::empty()
        } else {
            seq![(true, "status"@, list@)]
        };
        if !same_list {
            out.push(Publication::List(list.to_owned()));
        }
        assert(publication_views(out@) =~= first);
        let same_blame = match &self.blame {
            Some(t) => crate::text::same(&chars_of(t.as_str()), &chars_of(blame)),
            None => false,
        };
        let ghost second: Seq<(bool, Seq<char>, Seq<char>)> = if self.last_blame() == Some(blame@) {
            Seq::empty()
        } else {
            seq![(true, "blame"@, blame@)]
        };
        if !same_blame {
            out.push(Publication::Blame(blame.to_owned()));
        }
        assert(publication_views(out@) =~= first + second);
        let ghost head = publication_views(out@);
        assert(head =~= (if self.last_list() == Some(list@) {
            Seq::empty()
        } else {
            seq![(true, "status"@, list@)]
        }) + (if self.last_blame() == Some(blame@) {
            Seq::empty()
        } else {
            seq![(true, "blame"@, blame@)]
        }));
        let mut cfg_names: Vec<String> = Vec::new();
        let mut k: usize = 0;
        while k < config.services.len()
            invariant
                k <= config.services.len(),
                string_views(cfg_names@) == def_names(config.services@).subrange(0, k as int),
            decreases config.services.len() - k,
        {
            let ghost before = string_views(cfg_names@);
            let nm = config.services[k].name.clone();
            cfg_names.push(nm);
            assert(string_views(cfg_names@) =~= before.push(config.services@[k as int].name@));
            assert(def_names(config.services@).subrange(0, k + 1) =~= def_names(config.services@).subrange(0, k as int).push(
                config.services@[k as int].name@,
            ));
            k += 1;
        }
        assert(def_names(config.services@).subrange(0, k as int) =~= def_names(config.services@));
        let mut run_names: Vec<String> = Vec::new();
        let mut m: usize = 0;
        while m < services.len()
            invariant
                m <= services.len(),
                string_views(run_names@) == service_names(services@).subrange(0, m as int),
            decreases services.len() - m,
        {
            let ghost before = string_views(run_names@);
            let nm = services[m].config.name.clone();
            run_names.push(nm);
            assert(string_views(run_names@) =~= before.push(services@[m as int].config.name@));
            assert(service_names(services@).subrange(0, m + 1) =~= service_names(services@).subrange(0, m as int).push(
                services@[m as int].config.name@,
            ));
            m += 1;
        }
        assert(service_names(services@).subrange(0, m as int) =~= service_names(services@));
        let mut names: Vec<String> = Vec::new();
        assert(string_views(names@) =~= Seq::<Seq<char>>::empty());
        push_names(&mut names, &cfg_names);
        push_names(&mut names, &run_names);
        let ghost all = string_views(names@);
        assert(all == published_names(services@, *config));
        let mut i: usize = 0;
        while i < names.len()
            invariant
                i <= names.len(),
                all == string_views(names@),
                publication_views(out@) == head + service_updates(self.cache(), all.subrange(0, i as int), services@, *config, now),
            decreases names.len() - i,
        {
            let n = names[i].as_str();
            assert(all.subrange(0, i + 1).drop_last() =~= all.subrange(0, i as int));
            assert(all.subrange(0, i + 1).last() == n@);
            if publishable_name(n) {
                let text = status_one(n, services, config, now, None);
                let same = match cached_text(&self.services, n) {
                    Some(t) => *t == text,
                    None => false,
                };
                if !same {
                    let ghost before = publication_views(out@);
                    out.push(Publication::Service(names[i].clone(), text));
                    assert(publication_views(out@) =~= before.push(publication_view(out@.last())));
                }
            }
            i += 1;
        }
        assert(all.subrange(0, i as int) =~= all);
        let ghost mid = publication_views(out@);
        let mut j: usize = 0;
        while j < self.services.len()
            invariant
                j <= self.services.len(),
                all == string_views(names@),
                publication_views(out@) == mid + removals(self.cache().subrange(0, j as int), all),
            decreases self.services.len() - j,
        {
            let n = self.services[j].0.as_str();
            assert(self.cache().subrange(0, j + 1).drop_last() =~= self.cache().subrange(0, j as int));
            assert(self.cache().subrange(0, j + 1).last() == self.services@[j as int]);
            if !listed_name(&names, n) {
                let ghost before = publication_views(out@);
                out.push(Publication::Gone(self.services[j].0.clone()));
                assert(publication_views(out@) =~= before.push(publication_view(out@.last())));
            }
            j += 1;
        }
        assert(self.cache().subrange(0, j as int) =~= self.cache());
        out
    }

    /// Note that `p` was carried out.
    pub fn record(&mut self, p: Publication)
        ensures
            final(self).dir() == old(self).dir(),
            final(self).has_warned() == old(self).has_warned(),
            match p {
                Publication::List(t) => {
                    &&& final(self).last_list() == Some(t@)
                    &&& final(self).last_blame() == old(self).last_blame()
                    &&& final(self).cache() == old(self).cache()
                },
                Publication::Blame(t) => {
                    &&& final(self).last_blame() == Some(t@)
                    &&& final(self).last_list() == old(self).last_list()
                    &&& final(self).cache() == old(self).cache()
                },
                Publication::Service(n, t) => {
                    &&& final(self).last_list() == old(self).last_list()
                    &&& final(self).last_blame() == old(self).last_blame()
                    &&& cached(final(self).cache(), n@) == Some(t@)
                    &&& forall|o: Seq<char>| o != n@ ==> cached(final(self).cache(), o) == cached(old(self).cache(), o)
                },
                Publication::Gone(n) => {
                    &&& final(self).last_list() == old(self).last_list()
                    &&& final(self).last_blame() == old(self).last_blame()
                    &&& cached(final(self).cache(), n@) is None
                    &&& forall|o: Seq<char>| o != n@ ==> cached(final(self).cache(), o) == cached(old(self).cache(), o)
                },
            },
    {
        match p {
            Publication::List(t) => {
                self.list = Some(t);
            },
            Publication::Blame(t) => {
                self.blame = Some(t);
            },
            Publication::Service(n, t) => {
                let key = n.clone();
                let ghost n_view = n@;
                let ghost t_view = t@;
                let ghost before = self.services@;
                let mut rest: Vec<(String, String)> = Vec::new();
                std::mem::swap(&mut rest, &mut self.services);
                self.services.push((n, t));
                proof {
                    assert(before.subrange(0, 0) =~= Seq::<(String, String)>::empty());
                    assert(self.services@.drop_first() =~= Seq::<(String, String)>::empty());
                    assert(self.services@[0].0@ == n_view);
                    assert forall|o: Seq<char>| o != n_view implies cached(self.services@, o) == cached(
                        before.subrange(0, 0),
                        o,
                    ) by {
                        assert(cached(self.services@.drop_first(), o) is None);
                    }
                }
                let ghost mut seen: int = 0;
                while rest.len() > 0
                    invariant
                        0 <= seen <= before.len(),
                        rest@ == before.subrange(seen, before.len() as int),
                        key@ == n_view,
                        self.dir == old(self).dir,
                        self.list == old(self).list,
                        self.blame == old(self).blame,
                        self.warned == old(self).warned,
                        cached(self.services@, n_view) == Some(t_view),
                        forall|o: Seq<char>|
                            o != n_view ==> cached(self.services@, o) == cached(before.subrange(0, seen), o),
                    decreases rest.len(),
                {
                    let e = rest.remove(0);
                    proof {
                        lemma_cached_append(before.subrange(0, seen), e);
                        assert(before.subrange(0, seen + 1) =~= before.subrange(0, seen).push(e));
                    }
                    if !crate::text::same(&chars_of(e.0.as_str()), &chars_of(key.as_str())) {
                        proof {
                            lemma_cached_append(self.services@, e);
                        }
                        self.services.push(e);
                    }
                    proof {
                        seen = seen + 1;
                    }
                    assert(rest@ =~= before.subrange(seen, before.len() as int));
                }
                assert(before.subrange(0, seen) =~= before);
            },
            Publication::Gone(n) => {
                let ghost n_view = n@;
                let ghost before = self.services@;
                let mut rest: Vec<(String, String)> = Vec::new();
                std::mem::swap(&mut rest, &mut self.services);
                assert(before.subrange(0, 0) =~= Seq::<(String, String)>::empty());
                assert(self.services@ =~= Seq::<(String, String)>::empty());
                let ghost mut seen: int = 0;
                while rest.len() > 0
                    invariant
                        0 <= seen <= before.len(),
                        rest@ == before.subrange(seen, before.len() as int),
                        n@ == n_view,
                        self.dir == old(self).dir,
                        self.list == old(self).list,
                        self.blame == old(self).blame,
                        self.warned == old(self).warned,
                        cached(self.services@, n_view) is None,
                        forall|o: Seq<char>|
                            o != n_view ==> cached(self.services@, o) == cached(before.subrange(0, seen), o),
                    decreases rest.len(),
                {
                    let e = rest.remove(0);
                    proof {
                        lemma_cached_append(before.subrange(0, seen), e);
                        assert(before.subrange(0, seen + 1) =~= before.subrange(0, seen).push(e));
                    }
                    if !crate::text::same(&chars_of(e.0.as_str()), &chars_of(n.as_str())) {
                        proof {
                            lemma_cached_append(self.services@, e);
                        }
                        self.services.push(e);
                    }
                    proof {
                        seen = seen + 1;
                    }
                    assert(rest@ =~= before.subrange(seen, before.len() as int));
                }
                assert(before.subrange(0, seen) =~= before);
            },
        }
    }

    /// Whether a failure to publish should be reported: only the first time,
    /// so a /run that cannot be written is said once and not every tick.
    pub fn first_failure(&mut self) -> (r: bool)
        ensures
            r == !old(self).has_warned(),
            final(self).has_warned(),
            final(self).dir() == old(self).dir(),
            final(self).last_list() == old(self).last_list(),
            final(self).last_blame() == old(self).last_blame(),
            final(self).cache() == old(self).cache(),
    {
        let first = !self.warned;
        self.warned = true;
        first
    }
}


/// Nothing is published twice: when every publishable name's last text is
/// what it would be now, and every name published before is still among
/// the names, a plan holds no service writes and no removals. With the
/// listing and the timeline unchanged too, a quiet system costs no I/O.
pub proof fn lemma_quiet_publishes_nothing(
    cache: Seq<(String, String)>,
    names: Seq<Seq<char>>,
    services: Seq<Service>,
    config: InitConfig,
    now: u64,
)
    requires
        forall|i: int|
            0 <= i < names.len() && publishable(#[trigger] names[i]) ==> cached(cache, names[i]) == Some(
                status_text(names[i], services, config, now, None),
            ),
        forall|j: int| 0 <= j < cache.len() ==> names.contains((#[trigger] cache[j]).0@),
    ensures
        service_updates(cache, names, services, config, now) == Seq::<(bool, Seq<char>, Seq<char>)>::empty(),
        removals(cache, names) == Seq::<(bool, Seq<char>, Seq<char>)>::empty(),
{
    lemma_updates_empty(cache, names, services, config, now);
    lemma_removals_empty(cache, names);
}

proof fn lemma_updates_empty(
    cache: Seq<(String, String)>,
    names: Seq<Seq<char>>,
    services: Seq<Service>,
    config: InitConfig,
    now: u64,
)
    requires
        forall|i: int|
            0 <= i < names.len() && publishable(#[trigger] names[i]) ==> cached(cache, names[i]) == Some(
                status_text(names[i], services, config, now, None),
            ),
    ensures
        service_updates(cache, names, services, config, now) == Seq::<(bool, Seq<char>, Seq<char>)>::empty(),
    decreases names.len(),
{
    if names.len() > 0 {
        let prev = names.drop_last();
        assert forall|i: int| 0 <= i < prev.len() && publishable(#[trigger] prev[i]) implies cached(cache, prev[i]) == Some(
            status_text(prev[i], services, config, now, None),
        ) by {
            assert(prev[i] == names[i]);
        }
        lemma_updates_empty(cache, prev, services, config, now);
        assert(names[names.len() - 1] == names.last());
    }
}

proof fn lemma_removals_empty(cache: Seq<(String, String)>, names: Seq<Seq<char>>)
    requires
        forall|j: int| 0 <= j < cache.len() ==> names.contains((#[trigger] cache[j]).0@),
    ensures
        removals(cache, names) == Seq::<(bool, Seq<char>, Seq<char>)>::empty(),
    decreases cache.len(),
{
    if cache.len() > 0 {
        let prev = cache.drop_last();
        assert forall|j: int| 0 <= j < prev.len() implies names.contains((#[trigger] prev[j]).0@) by {
            assert(prev[j] == cache[j]);
        }
        lemma_removals_empty(prev, names);
        assert(cache[cache.len() - 1] == cache.last());
    }
}


/// What `enable NAME` or `disable NAME` asks of the program.
pub enum EnableStep {
    /// Answered at once, with this reply and nothing changed.
    Refused(String),
    /// Rewrite the service's `enabled` key in whichever file defines it,
    /// starting from the configuration file at this path.
    Persist(String),
}

pub open spec fn enable_word(enabled: bool) -> Seq<char> {
    if enabled {
        "enable"@
    } else {
        "disable"@
    }
}

/// The first step of `enable`/`disable`, which change what happens at
/// boot and not what runs now: refuse an unknown service, and one running
/// on the built-in defaults with no file to write; otherwise ask for the
/// file to be rewritten.
pub fn set_enabled(name: &str, enabled: bool, config: &InitConfig) -> (r: EnableStep)
    ensures
        match r {
            EnableStep::Refused(t) => {
                ||| config_named(config.services@, name@) is None && t@ == "error: no such service '"@ + name@ + "'\n"@
                ||| config_named(config.services@, name@) is Some && config.source_path is None && t@
                    == "error: cannot "@ + enable_word(enabled) + " "@ + name@
                    + ": running on built-in defaults, there is no config file to write\n"@
            },
            EnableStep::Persist(p) => {
                &&& config_named(config.services@, name@) is Some
                &&& config.source_path matches Some(s) && s@ == p@
            },
        },
{
    let verb = if enabled {
        "enable"
    } else {
        "disable"
    };
    if find_config(config, name).is_none() {
        let mut t = "error: no such service '".to_owned();
        push_str(&mut t, name);
        push_str(&mut t, "'\n");
        return EnableStep::Refused(t);
    }
    match &config.source_path {
        None => {
            let mut t = "error: cannot ".to_owned();
            push_str(&mut t, verb);
            push_str(&mut t, " ");
            push_str(&mut t, name);
            push_str(&mut t, ": running on built-in defaults, there is no config file to write\n");
            EnableStep::Refused(t)
        },
        Some(p) => EnableStep::Persist(p.clone()),
    }
}

/// The configuration with the first definition named `name` set to
/// `enabled`.
pub open spec fn with_enabled(defs: Seq<ServiceConfig>, name: Seq<char>, enabled: bool, after: Seq<ServiceConfig>) -> bool {
    let k = config_index(defs, name, 0);
    &&& after.len() == defs.len()
    &&& forall|i: int| 0 <= i < defs.len() && i != k ==> after[i] == defs[i]
    &&& 0 <= k < defs.len() ==> after[k] == (ServiceConfig { enabled, ..defs[k] })
}

/// The second step of `enable`/`disable`, once the file has or has not
/// been rewritten: on success the running configuration says the same as
/// the file and the reply says when it takes effect; on failure nothing
/// changes and the reply says why.
pub fn enabled_written(name: &str, enabled: bool, config: &mut InitConfig, written: Result<(), String>) -> (r: String)
    requires
        config_named(old(config).services@, name@) is Some,
    ensures
        final(config).source_path == old(config).source_path,
        final(config).system == old(config).system,
        final(config).mounts == old(config).mounts,
        match written {
            Ok(()) => {
                let was = config_named(old(config).services@, name@)->0.enabled;
                &&& with_enabled(old(config).services@, name@, enabled, final(config).services@)
                &&& r@ == (if enabled {
                    "Enabled "@
                } else {
                    "Disabled "@
                }) + name@ + (if was == enabled {
                    " (was already "@ + enable_word(enabled) + "d)"@
                } else {
                    Seq::empty()
                }) + "\nTakes effect at boot; use `start`/`stop` to change it now.\n"@
            },
            Err(e) => {
                &&& final(config).services@ == old(config).services@
                &&& r@ == "error: cannot "@ + enable_word(enabled) + " "@ + name@ + ": "@ + e@ + "\n"@
            },
        },
{
    let verb = if enabled {
        "enable"
    } else {
        "disable"
    };
    match written {
        Err(e) => {
            let mut t = "error: cannot ".to_owned();
            push_str(&mut t, verb);
            push_str(&mut t, " ");
            push_str(&mut t, name);
            push_str(&mut t, ": ");
            push_str(&mut t, e.as_str());
            push_str(&mut t, "\n");
            t
        },
        Ok(()) => {
            let k = position_of(&config.services, name);
            proof {
                lemma_config_index(config.services@, name@, 0);
            }
            let was = config.services[k].enabled;
            let ghost defs = config.services@;
            let mut d = config.services.remove(k);
            d.enabled = enabled;
            config.services.insert(k, d);
            assert(config.services@ =~= defs.update(k as int, ServiceConfig { enabled, ..defs[k as int] }));
            let mut t = (if enabled {
                "Enabled "
            } else {
                "Disabled "
            }).to_owned();
            push_str(&mut t, name);
            if was == enabled {
                push_str(&mut t, " (was already ");
                push_str(&mut t, verb);
                push_str(&mut t, "d)");
            }
            push_str(&mut t, "\nTakes effect at boot; use `start`/`stop` to change it now.\n");
            t
        },
    }
}

/// What `stop NAME` does: nothing for a service that is not supervised or
/// not running, and otherwise sends the stop and answers at once, without
/// waiting for the process to die.
pub fn stop_service(name: &str, services: &Vec<Service>) -> (r: (String, bool))
    ensures
        match service_named(services@, name@) {
            None => r.0@ == "error: no such service '"@ + name@ + "'\n"@ && !r.1,
            Some(svc) => if svc.pid is Some {
                r.0@ == "Stopping "@ + name@ + "\n"@ && r.1
            } else {
                r.0@ == name@ + " is not running\n"@ && !r.1
            },
        },
{
    match find_service(services, name) {
        None => {
            let mut t = "error: no such service '".to_owned();
            push_str(&mut t, name);
            push_str(&mut t, "'\n");
            (t, false)
        },
        Some(svc) => if svc.is_running() {
            let mut t = "Stopping ".to_owned();
            push_str(&mut t, name);
            push_str(&mut t, "\n");
            (t, true)
        } else {
            let mut t = name.to_owned();
            push_str(&mut t, " is not running\n");
            (t, false)
        },
    }
}

/// The answer to starting a name the configuration does not define, which
/// points at the fix where there is one: a definition on disk that has not
/// been loaded yet, or a template for software not installed.
pub open spec fn unknown_service_text(name: Seq<char>, dropin_exists: bool, template_exists: bool) -> Seq<char> {
    if dropin_exists {
        "error: no such service '"@ + name + "'\nIts definition exists at /etc/raven/init.d/"@ + name
            + ".toml but has not been loaded --\ndrop-ins are read at boot. Load it now with:\n  raven-rc reload\n"@
    } else if template_exists {
        "error: no such service '"@ + name
            + "'\nIts software is not installed. `rvn install` sets the service\nup with it; installed some other way, copy the definition and\nload it:\n  cp /usr/share/raven/services/"@
            + name + ".toml /etc/raven/init.d/\n  raven-rc reload\n"@
    } else {
        "error: no such service '"@ + name + "'\n"@
    }
}

/// [`unknown_service_text`].
pub fn unknown_service(name: &str, dropin_exists: bool, template_exists: bool) -> (r: String)
    ensures
        r@ == unknown_service_text(name@, dropin_exists, template_exists),
{
    let mut t = "error: no such service '".to_owned();
    push_str(&mut t, name);
    if dropin_exists {
        push_str(&mut t, "'\nIts definition exists at /etc/raven/init.d/");
        push_str(&mut t, name);
        push_str(&mut t, ".toml but has not been loaded --\ndrop-ins are read at boot. Load it now with:\n  raven-rc reload\n");
    } else if template_exists {
        push_str(
            &mut t,
            "'\nIts software is not installed. `rvn install` sets the service\nup with it; installed some other way, copy the definition and\nload it:\n  cp /usr/share/raven/services/",
        );
        push_str(&mut t, name);
        push_str(&mut t, ".toml /etc/raven/init.d/\n  raven-rc reload\n");
    } else {
        push_str(&mut t, "'\n");
    }
    t
}

} // verus!
