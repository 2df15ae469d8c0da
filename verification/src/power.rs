//! Suspend and hibernation: which sleep state to use, whether hibernating is
//! safe, and the order of everything either side of the write that sleeps the
//! machine.
//!
//! Reading `/sys/power` and `/proc/cmdline`, running the hooks and writing
//! the state are the program's part.
use vstd::prelude::*;

use crate::text::{
    begins_with, chars_of, is_word, lines, push_str, slice_of, split_ws, starts_with, to_string,
    tokens, trim, trimmed, views,
};

verus! {

/// The kernel's sleep entry point.
pub const STATE_PATH: &'static str = "/sys/power/state";

/// Which sleep states a suspend will use, best first. `disk` is never among
/// them: hibernation is only ever asked for.
pub const PREFERRED_STATES: [&'static str; 2] = ["mem", "freeze"];

/// The state that hibernates.
pub const HIBERNATE_STATE: &'static str = "disk";

/// Where the kernel reports the device it will resume from, as `major:minor`.
pub const RESUME_PATH: &'static str = "/sys/power/resume";

/// The kernel command line.
pub const CMDLINE_PATH: &'static str = "/proc/cmdline";

/// Scripts run either side of the sleep, with `pre` or `post` as argv[1].
pub const HOOK_DIR: &'static str = "/etc/raven/sleep.d";

/// Directory holding the marker file, on a tmpfs.
pub const RUN_DIR: &'static str = "/run/raven-power";

/// The marker a compositor watches: `sleeping` or `awake`.
pub const STATE_MARKER: &'static str = "/run/raven-power/state";

/// The marker lives under the run directory.
pub proof fn lemma_marker_under_run_dir()
    ensures
        starts_with(STATE_MARKER@, RUN_DIR@),
{
    reveal_strlit("/run/raven-power/state");
    reveal_strlit("/run/raven-power");
    assert(STATE_MARKER@.subrange(0, RUN_DIR@.len() as int) =~= RUN_DIR@);
}

/// A suspend can never fall through to hibernation.
pub proof fn lemma_suspend_never_hibernates()
    ensures
        PREFERRED_STATES@[0]@ != HIBERNATE_STATE@,
        PREFERRED_STATES@[1]@ != HIBERNATE_STATE@,
{
    reveal_strlit("mem");
    reveal_strlit("freeze");
    reveal_strlit("disk");
    assert(PREFERRED_STATES@[0]@[0] != HIBERNATE_STATE@[0]);
    assert(PREFERRED_STATES@[1]@[0] != HIBERNATE_STATE@[0]);
}

/// What the marker file holds for a phase.
pub fn marker_contents(phase: &str) -> (r: String)
    ensures
        r@ == phase@ + "\n"@,
{
    let mut r = phase.to_owned();
    push_str(&mut r, "\n");
    r
}

/// What the marker says at boot, so that it exists before anything watches
/// it.
pub fn publish_at_boot() -> (r: String)
    ensures
        r@ == "awake"@ + "\n"@,
{
    marker_contents("awake")
}

/// Whether the text of `/sys/power/state` lists `state`.
pub open spec fn offered(available: Seq<char>, state: Seq<char>) -> bool {
    tokens(available).contains(state)
}

/// Whether `/sys/power/state` will accept this word.
pub fn offers(available: &str, state: &str) -> (r: bool)
    ensures
        r == offered(available@, state@),
{
    let toks = split_ws(&chars_of(available));
    crate::text::has_token(&toks, state)
}

pub open spec fn cannot_read_state() -> Seq<char> {
    "Cannot read "@ + STATE_PATH@ + " -- this kernel has no suspend support"@
}

pub open spec fn no_state_message(available: Seq<char>) -> Seq<char> {
    "No usable sleep state: "@ + STATE_PATH@ + " offers '"@ + trim(available)
        + "', none of [\"mem\", \"freeze\"]"@
}

/// The best sleep state this kernel offers: `mem`, else `freeze`.
pub open spec fn state_choice(available: Seq<char>) -> Result<Seq<char>, Seq<char>> {
    if offered(available, PREFERRED_STATES@[0]@) {
        Ok(PREFERRED_STATES@[0]@)
    } else if offered(available, PREFERRED_STATES@[1]@) {
        Ok(PREFERRED_STATES@[1]@)
    } else {
        Err(no_state_message(available))
    }
}

pub open spec fn result_is(r: Result<&str, String>, s: Result<Seq<char>, Seq<char>>) -> bool {
    match r {
        Ok(v) => s == Ok::<Seq<char>, Seq<char>>(v@),
        Err(e) => s == Err::<Seq<char>, Seq<char>>(e@),
    }
}

/// The best sleep state the text of `/sys/power/state` offers.
pub fn choose_state(available: &str) -> (r: Result<&'static str, String>)
    ensures
        result_is(r, state_choice(available@)),
{
    let toks = split_ws(&chars_of(available));
    if crate::text::has_token(&toks, PREFERRED_STATES[0]) {
        return Ok(PREFERRED_STATES[0]);
    }
    if crate::text::has_token(&toks, PREFERRED_STATES[1]) {
        return Ok(PREFERRED_STATES[1]);
    }
    let mut e = "No usable sleep state: ".to_owned();
    push_str(&mut e, STATE_PATH);
    push_str(&mut e, " offers '");
    let t = to_string(&trimmed(&chars_of(available)));
    push_str(&mut e, t.as_str());
    push_str(&mut e, "', none of [\"mem\", \"freeze\"]");
    Err(e)
}

/// Suspend: the state to write, from the text of `/sys/power/state`
/// (`None` when it could not be read).
pub fn suspend(available: Option<&str>) -> (r: Result<&'static str, String>)
    ensures
        result_is(
            r,
            match available {
                None => Err(cannot_read_state()),
                Some(a) => state_choice(a@),
            },
        ),
{
    match available {
        None => {
            let mut e = "Cannot read ".to_owned();
            push_str(&mut e, STATE_PATH);
            push_str(&mut e, " -- this kernel has no suspend support");
            Err(e)
        },
        Some(a) => choose_state(a),
    }
}

pub open spec fn noresume_message() -> Seq<char> {
    "This machine was booted with 'noresume', so an image written now would never be read back; refusing to hibernate"@
}

pub open spec fn no_resume_message(path: Seq<char>) -> Seq<char> {
    "No resume device is configured: "@ + path
        + " names none and there is no resume= on the kernel command line. Hibernating now would power the machine down and lose the session on the next boot"@
}

/// The first word of the command line that starts with `resume=`, from `i`.
pub open spec fn resume_word(words: Seq<Seq<char>>, i: int) -> Option<Seq<char>>
    decreases words.len() - i,
{
    if i < 0 || i >= words.len() {
        None
    } else if starts_with(words[i], "resume="@) {
        Some(words[i])
    } else {
        resume_word(words, i + 1)
    }
}

/// The device this machine would resume from, or why there is none:
/// `noresume` refuses outright; then `/sys/power/resume` unless it is empty
/// or `0:0`; then the first `resume=` on the command line, if it names
/// something.
pub open spec fn resume_of(path: Seq<char>, resume: Option<Seq<char>>, cmdline: Seq<char>) -> Result<
    Seq<char>,
    Seq<char>,
> {
    let words = tokens(cmdline);
    if words.contains("noresume"@) {
        Err(noresume_message())
    } else if resume matches Some(t) && trim(t).len() > 0 && trim(t) != "0:0"@ {
        Ok(trim(resume->0))
    } else {
        match resume_word(words, 0) {
            Some(w) if w.len() > "resume="@.len() => Ok(w.subrange("resume="@.len() as int, w.len() as int)),
            _ => Err(no_resume_message(path)),
        }
    }
}

pub open spec fn text_opt(t: Option<&str>) -> Option<Seq<char>> {
    match t {
        Some(s) => Some(s@),
        None => None,
    }
}

pub open spec fn string_result_is(r: Result<String, String>, s: Result<Seq<char>, Seq<char>>) -> bool {
    match r {
        Ok(v) => s == Ok::<Seq<char>, Seq<char>>(v@),
        Err(e) => s == Err::<Seq<char>, Seq<char>>(e@),
    }
}

/// The device this machine would resume from, given the text of the resume
/// file at `resume_path` (`None` when it cannot be read) and of the command
/// line.
pub fn resume_device(resume_path: &str, resume: Option<&str>, cmdline: &str) -> (r: Result<String, String>)
    ensures
        string_result_is(r, resume_of(resume_path@, text_opt(resume), cmdline@)),
{
    let words = split_ws(&chars_of(cmdline));
    if crate::text::has_token(&words, "noresume") {
        return Err(
            "This machine was booted with 'noresume', so an image written now would never be read back; refusing to hibernate".to_owned(),
        );
    }
    match resume {
        Some(text) => {
            let t = trimmed(&chars_of(text));
            if t.len() > 0 && !is_word(&t, "0:0") {
                return Ok(to_string(&t));
            }
        },
        None => {},
    }
    let mut i: usize = 0;
    while i < words.len() && !begins_with(&words[i], "resume=")
        invariant
            i <= words.len(),
            resume_word(views(words@), i as int) == resume_word(views(words@), 0),
        decreases words.len() - i,
    {
        i += 1;
    }
    let n = chars_of("resume=").len();
    if i < words.len() && words[i].len() > n {
        return Ok(crate::text::string_of(&words[i], n, words[i].len()));
    }
    let mut e = "No resume device is configured: ".to_owned();
    push_str(&mut e, resume_path);
    push_str(
        &mut e,
        " names none and there is no resume= on the kernel command line. Hibernating now would power the machine down and lose the session on the next boot",
    );
    Err(e)
}

pub open spec fn no_disk_message() -> Seq<char> {
    "This kernel does not offer hibernation: "@ + STATE_PATH@ + " does not list '"@ + HIBERNATE_STATE@
        + "'"@
}

/// Whether hibernating is safe, and with which resume device: the resume
/// device first, then that the kernel offers `disk` at all.
pub open spec fn hibernate_of(resume: Option<Seq<char>>, cmdline: Seq<char>, available: Option<Seq<char>>) -> Result<Seq<char>, Seq<char>> {
    match resume_of(RESUME_PATH@, resume, cmdline) {
        Err(e) => Err(e),
        Ok(dev) => match available {
            None => Err(cannot_read_state()),
            Some(a) => if offered(a, HIBERNATE_STATE@) {
                Ok(dev)
            } else {
                Err(no_disk_message())
            },
        },
    }
}

/// Hibernate: the resume device the image will be read back from, or why
/// hibernating now would lose the session. The state written is
/// [`HIBERNATE_STATE`].
pub fn hibernate(resume: Option<&str>, cmdline: &str, available: Option<&str>) -> (r: Result<String, String>)
    ensures
        string_result_is(r, hibernate_of(text_opt(resume), cmdline@, text_opt(available))),
{
    let dev = match resume_device(RESUME_PATH, resume, cmdline) {
        Err(e) => {
            return Err(e);
        },
        Ok(dev) => dev,
    };
    match available {
        None => {
            let mut e = "Cannot read ".to_owned();
            push_str(&mut e, STATE_PATH);
            push_str(&mut e, " -- this kernel has no suspend support");
            Err(e)
        },
        Some(a) => {
            if offers(a, HIBERNATE_STATE) {
                Ok(dev)
            } else {
                let mut e = "This kernel does not offer hibernation: ".to_owned();
                push_str(&mut e, STATE_PATH);
                push_str(&mut e, " does not list '");
                push_str(&mut e, HIBERNATE_STATE);
                push_str(&mut e, "'");
                Err(e)
            }
        },
    }
}

/// One step either side of the write that sleeps the machine.
#[derive(Clone, Copy, PartialEq, Eq, Structural, Debug)]
pub enum SleepStep {
    /// Run the sleep hooks with `pre`.
    HooksBefore,
    /// Publish `sleeping` to the marker.
    PublishSleeping,
    /// Flush dirty pages while userspace can still be interrupted.
    Sync,
    /// Write the state; the machine stops inside this.
    WriteState,
    /// Publish `awake`, before the hooks, so the compositor repaints first.
    PublishAwake,
    /// Run the sleep hooks with `post`.
    HooksAfter,
}

/// Everything either side of the write, in order, for suspend and
/// hibernation alike.
pub fn enter_steps() -> (r: Vec<SleepStep>)
    ensures
        r@ == seq![
            SleepStep::HooksBefore,
            SleepStep::PublishSleeping,
            SleepStep::Sync,
            SleepStep::WriteState,
            SleepStep::PublishAwake,
            SleepStep::HooksAfter,
        ],
{
    vec![
        SleepStep::HooksBefore,
        SleepStep::PublishSleeping,
        SleepStep::Sync,
        SleepStep::WriteState,
        SleepStep::PublishAwake,
        SleepStep::HooksAfter,
    ]
}

} // verus!
