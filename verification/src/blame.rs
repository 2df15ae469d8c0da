//! The boot timeline `raven-rc blame` prints: when each service first
//! started and first became ready in this boot, slowest first.
//!
//! Times are milliseconds since the kernel started, printed as seconds to
//! three places so that they line up with dmesg. Every service time is its
//! *first* in this boot: a service that restarted since keeps the times it
//! had at boot, because the table answers "why was the machine slow to come
//! up"; how often it came back belongs to `status NAME`.
use vstd::prelude::*;

use crate::config::{InitConfig, ServiceConfig};
use crate::control::{def_names, service_names, three_digits, with_names, push_names};
use crate::service::{find_service, service_named, Service};
use crate::text::{decimal_text, pad_left, pad_right, push_decimal, push_padded, push_padded_left, push_str, string_views};

verus! {

/// One row of the timeline, as the table shows it.
pub struct BlameLine {
    pub name: Seq<char>,
    pub started: Option<u64>,
    pub ready: Option<u64>,
    /// The READY column, which is not always a time.
    pub ready_text: Seq<char>,
    pub took: Option<u64>,
    /// The service first started after init reached its main loop, so it is
    /// not part of the boot the summary measures.
    pub after_boot: bool,
    pub note: Seq<char>,
}

/// `{:.3}` of `ms` milliseconds in seconds.
pub open spec fn secs_text(ms: nat) -> Seq<char> {
    decimal_text(ms / 1000) + "."@ + three_digits(ms % 1000)
}

/// A time, or a dash where there is none.
pub open spec fn opt_secs(v: Option<u64>) -> Seq<char> {
    match v {
        Some(ms) => secs_text(ms as nat),
        None => "-"@,
    }
}

/// How long a service took from its first start to its first readiness;
/// never less than nothing.
pub open spec fn took_of(started: Option<u64>, ready: Option<u64>) -> Option<u64> {
    match (started, ready) {
        (Some(s), Some(r)) => Some(if r >= s { (r - s) as u64 } else { 0u64 }),
        _ => None,
    }
}

/// The READY column: the time where the service became ready; `waiting`
/// where it names a ready path that has not appeared and it still runs;
/// `never` where the path never appeared and it no longer runs to make it;
/// a dash where its definition names nothing to wait for.
pub open spec fn ready_column(svc: Service) -> Seq<char> {
    match (svc.config.ready_path, svc.first_ready_mono) {
        (_, Some(at)) => secs_text(at as nat),
        (Some(_), None) => if svc.pid is Some {
            "waiting"@
        } else {
            "never"@
        },
        (None, None) => "-"@,
    }
}

/// What the NOTE column says of readiness.
pub open spec fn ready_note(svc: Service) -> Seq<char> {
    match svc.config.ready_path {
        None => "no ready path"@,
        Some(_) => if svc.first_ready_mono is Some {
            ""@
        } else if svc.pid is Some {
            "not ready yet"@
        } else {
            "exited before ready"@
        },
    }
}

/// Whether a service first started after `boot_done`.
pub open spec fn after_boot(started: Option<u64>, boot_done: Option<u64>) -> bool {
    match (started, boot_done) {
        (Some(s), Some(d)) => s > d,
        _ => false,
    }
}

/// The row for the service `svc`, listed under `name`.
pub open spec fn blame_line(name: Seq<char>, svc: Service, boot_done: Option<u64>) -> BlameLine {
    let late = after_boot(svc.first_started_mono, boot_done);
    let base = ready_note(svc);
    BlameLine {
        name,
        started: svc.first_started_mono,
        ready: svc.first_ready_mono,
        ready_text: ready_column(svc),
        took: took_of(svc.first_started_mono, svc.first_ready_mono),
        after_boot: late,
        note: if !late {
            base
        } else if svc.config.ready_path is Some && svc.first_ready_mono is Some {
            "started after boot"@
        } else {
            "started after boot, "@ + base
        },
    }
}

/// The names the timeline covers: the configuration's, in its order, then
/// anything supervised that it does not mention.
pub open spec fn blame_names(services: Seq<Service>, cfgs: Seq<ServiceConfig>) -> Seq<Seq<char>> {
    with_names(def_names(cfgs), service_names(services))
}

/// A row for each of `names` that something is supervised under, in order.
pub open spec fn blame_lines(services: Seq<Service>, names: Seq<Seq<char>>, boot_done: Option<u64>) -> Seq<BlameLine>
    decreases names.len(),
{
    if names.len() == 0 {
        Seq::empty()
    } else {
        let before = blame_lines(services, names.drop_last(), boot_done);
        match service_named(services, names.last()) {
            Some(svc) => before.push(blame_line(names.last(), svc, boot_done)),
            None => before,
        }
    }
}

/// Whether row `a` is listed above row `b`: the slower to become ready
/// first; then those that never did; among those, by when they started,
/// one that never started first.
pub open spec fn goes_before(a: BlameLine, b: BlameLine) -> bool {
    match (a.took, b.took) {
        (Some(x), Some(y)) => x > y,
        (Some(_), None) => true,
        (None, Some(_)) => false,
        (None, None) => match (a.started, b.started) {
            (None, Some(_)) => true,
            (Some(x), Some(y)) => x < y,
            _ => false,
        },
    }
}

/// Where `x` goes among `sorted`: before the first row it goes before.
pub open spec fn insert_pos(sorted: Seq<BlameLine>, x: BlameLine, j: int) -> int
    decreases sorted.len() - j,
{
    if 0 <= j < sorted.len() && !goes_before(x, sorted[j]) {
        insert_pos(sorted, x, j + 1)
    } else {
        j
    }
}

/// The rows in table order: a stable sort by [`goes_before`], so that rows
/// the order does not separate stay in the order they were listed.
pub open spec fn slowest_first(rows: Seq<BlameLine>) -> Seq<BlameLine>
    decreases rows.len(),
{
    if rows.len() == 0 {
        Seq::empty()
    } else {
        let s = slowest_first(rows.drop_last());
        s.insert(insert_pos(s, rows.last(), 0), rows.last())
    }
}

/// Whether no row of `rows` goes before one above it.
pub open spec fn in_table_order(rows: Seq<BlameLine>) -> bool {
    forall|i: int, j: int| 0 <= i < j < rows.len() ==> !goes_before(#[trigger] rows[j], #[trigger] rows[i])
}

/// [`goes_before`] orders rows by a key, so it is a strict weak order.
proof fn lemma_goes_before_order(a: BlameLine, b: BlameLine, c: BlameLine)
    ensures
        !goes_before(a, a),
        goes_before(a, b) ==> !goes_before(b, a),
        goes_before(a, c) ==> goes_before(a, b) || goes_before(b, c),
{
}

proof fn lemma_insert_pos_facts(sorted: Seq<BlameLine>, x: BlameLine, j: int)
    requires
        0 <= j <= sorted.len(),
    ensures
        j <= insert_pos(sorted, x, j) <= sorted.len(),
        forall|k: int| j <= k < insert_pos(sorted, x, j) ==> !goes_before(x, #[trigger] sorted[k]),
        insert_pos(sorted, x, j) < sorted.len() ==> goes_before(x, sorted[insert_pos(sorted, x, j)]),
    decreases sorted.len() - j,
{
    if j < sorted.len() && !goes_before(x, sorted[j]) {
        lemma_insert_pos_facts(sorted, x, j + 1);
    }
}

proof fn lemma_insert_in_order(s: Seq<BlameLine>, x: BlameLine)
    requires
        in_table_order(s),
    ensures
        in_table_order(s.insert(insert_pos(s, x, 0), x)),
{
    lemma_insert_pos_facts(s, x, 0);
    let p = insert_pos(s, x, 0);
    let t = s.insert(p, x);
    assert forall|i: int, j: int| 0 <= i < j < t.len() implies !goes_before(#[trigger] t[j], #[trigger] t[i]) by {
        if j < p {
            assert(t[i] == s[i] && t[j] == s[j]);
        } else if j == p {
            assert(t[i] == s[i]);
            lemma_goes_before_order(x, x, x);
        } else if i == p {
            assert(t[j] == s[j - 1]);
            lemma_goes_before_order(s[j - 1], x, s[p]);
            lemma_goes_before_order(x, s[p], s[p]);
            if j - 1 > p {
                assert(!goes_before(s[j - 1], s[p]));
            }
        } else if i < p {
            assert(t[i] == s[i] && t[j] == s[j - 1]);
        } else {
            assert(t[i] == s[i - 1] && t[j] == s[j - 1]);
        }
    }
}

proof fn lemma_insert_keeps_ties(s: Seq<BlameLine>, x: BlameLine, f0: Seq<int>, n: int)
    requires
        in_table_order(s),
        f0.len() == s.len(),
        forall|k: int| 0 <= k < f0.len() ==> 0 <= #[trigger] f0[k] < n,
        forall|k: int, l: int|
            0 <= k < l < f0.len() && !goes_before(#[trigger] s[k], #[trigger] s[l]) ==> f0[k] < f0[l],
    ensures
        ({
            let p = insert_pos(s, x, 0);
            let t = s.insert(p, x);
            let from = f0.insert(p, n);
            forall|k: int, l: int|
                0 <= k < l < from.len() && !goes_before(#[trigger] t[k], #[trigger] t[l]) ==> from[k] < from[l]
        }),
{
    lemma_insert_pos_facts(s, x, 0);
    let p = insert_pos(s, x, 0);
    let t = s.insert(p, x);
    let from = f0.insert(p, n);
    assert forall|k: int, l: int|
        0 <= k < l < from.len() && !goes_before(#[trigger] t[k], #[trigger] t[l]) implies from[k] < from[l] by {
        if k == p {
            assert(t[l] == s[l - 1]);
            if l - 1 > p {
                assert(!goes_before(s[l - 1], s[p]));
                lemma_goes_before_order(x, s[l - 1], s[p]);
            }
        } else if l == p {
            assert(from[k] == f0[k]);
        } else if l < p {
            assert(from[k] == f0[k] && from[l] == f0[l] && t[k] == s[k] && t[l] == s[l]);
        } else if k < p {
            assert(from[k] == f0[k] && from[l] == f0[l - 1] && t[k] == s[k] && t[l] == s[l - 1]);
        } else {
            assert(from[k] == f0[k - 1] && from[l] == f0[l - 1] && t[k] == s[k - 1] && t[l] == s[l - 1]);
        }
    }
}

/// The table is a stable sort of the rows by [`goes_before`]: in table
/// order, holding each row as often as the rows do, and with rows that the
/// order does not separate in the order they were listed. `from[k]` is where
/// the `k`th row of the table was listed.
pub proof fn lemma_slowest_first_sorts(rows: Seq<BlameLine>) -> (from: Seq<int>)
    ensures
        in_table_order(slowest_first(rows)),
        slowest_first(rows).to_multiset() == rows.to_multiset(),
        from.len() == slowest_first(rows).len(),
        forall|k: int| 0 <= k < from.len() ==> 0 <= #[trigger] from[k] < rows.len() && slowest_first(rows)[k] == rows[from[k]],
        forall|k: int, l: int|
            0 <= k < l < from.len() && !goes_before(#[trigger] slowest_first(rows)[k], #[trigger] slowest_first(rows)[l])
                ==> from[k] < from[l],
    decreases rows.len(),
{
    if rows.len() == 0 {
        assert(slowest_first(rows) =~= rows);
        Seq::empty()
    } else {
        let pre = rows.drop_last();
        let x = rows.last();
        let s = slowest_first(pre);
        let f0 = lemma_slowest_first_sorts(pre);
        lemma_insert_pos_facts(s, x, 0);
        let p = insert_pos(s, x, 0);
        let t = s.insert(p, x);
        let from = f0.insert(p, rows.len() - 1);
        lemma_insert_in_order(s, x);
        lemma_insert_keeps_ties(s, x, f0, rows.len() - 1);
        assert(t.to_multiset() == rows.to_multiset()) by {
            broadcast use vstd::seq_lib::group_to_multiset_ensures;
            assert(rows =~= pre.push(x));
        }
        assert forall|k: int| 0 <= k < from.len() implies 0 <= #[trigger] from[k] < rows.len() && t[k] == rows[from[k]] by {
            if k < p {
                assert(from[k] == f0[k] && t[k] == s[k]);
            } else if k > p {
                assert(from[k] == f0[k - 1] && t[k] == s[k - 1]);
            }
        }
        from
    }
}

/// The earliest first start among the rows of the boot itself.
pub open spec fn first_start(rows: Seq<BlameLine>) -> Option<u64>
    decreases rows.len(),
{
    if rows.len() == 0 {
        None
    } else {
        let before = first_start(rows.drop_last());
        let r = rows.last();
        if r.after_boot {
            before
        } else {
            match (before, r.started) {
                (Some(a), Some(b)) => Some(if b < a { b } else { a }),
                (None, s) => s,
                (a, None) => a,
            }
        }
    }
}

/// The latest first readiness among the rows of the boot itself.
pub open spec fn last_ready(rows: Seq<BlameLine>) -> Option<u64>
    decreases rows.len(),
{
    if rows.len() == 0 {
        None
    } else {
        let before = last_ready(rows.drop_last());
        let r = rows.last();
        if r.after_boot {
            before
        } else {
            match (before, r.ready) {
                (Some(a), Some(b)) => Some(if b > a { b } else { a }),
                (None, s) => s,
                (a, None) => a,
            }
        }
    }
}

/// `last - first` to three places, with its sign.
pub open spec fn span_text(first: u64, last: u64) -> Seq<char> {
    if last >= first {
        secs_text((last - first) as nat)
    } else {
        "-"@ + secs_text((first - last) as nat)
    }
}

/// The closing line: from the first start to the last readiness of the
/// boot; without a readiness, only the first start; nothing when nothing in
/// the boot started.
pub open spec fn summary_text(first: Option<u64>, last: Option<u64>) -> Seq<char> {
    match (first, last) {
        (Some(f), Some(l)) => "\nservices: first start "@ + secs_text(f as nat) + ", last ready "@ + secs_text(
            l as nat,
        ) + ", span "@ + span_text(f, l) + "s\n"@,
        (Some(f), None) => "\nservices: first start "@ + secs_text(f as nat) + ", nothing ready yet\n"@,
        _ => Seq::empty(),
    }
}

/// One row as printed: `{:<20} {:>9}  {:>9}  {:>9}  {}`.
pub open spec fn line_text(r: BlameLine) -> Seq<char> {
    pad_right(r.name, 20) + " "@ + pad_left(opt_secs(r.started), 9) + "  "@ + pad_left(r.ready_text, 9) + "  "@
        + pad_left(opt_secs(r.took), 9) + "  "@ + r.note + "\n"@
}

pub open spec fn lines_text(rows: Seq<BlameLine>) -> Seq<char>
    decreases rows.len(),
{
    if rows.len() == 0 {
        Seq::empty()
    } else {
        lines_text(rows.drop_last()) + line_text(rows.last())
    }
}

pub open spec fn blame_intro() -> Seq<char> {
    "Seconds since the kernel started. Each service is timed from its first\n"@
        + "start in this boot; restarts since are in `raven-rc status NAME`.\n"@
        + "Milestones cross a re-exec: a name that appears twice marks one, and\n"@
        + "the rows above the second `init started` are the original boot's.\n\n"@
}

/// One milestone: `  {:<22} {:>9.3}`.
pub open spec fn milestone_text(m: (Seq<char>, u64)) -> Seq<char> {
    "  "@ + pad_right(m.0, 22) + " "@ + pad_left(secs_text(m.1 as nat), 9) + "\n"@
}

pub open spec fn milestones_text(ms: Seq<(Seq<char>, u64)>) -> Seq<char>
    decreases ms.len(),
{
    if ms.len() == 0 {
        Seq::empty()
    } else {
        milestones_text(ms.drop_last()) + milestone_text(ms.last())
    }
}

pub open spec fn table_header() -> Seq<char> {
    "\nSERVICE              STARTED    READY      TOOK       NOTE\n"@
}

pub open spec fn milestone_views(ms: Seq<(String, u64)>) -> Seq<(Seq<char>, u64)> {
    ms.map_values(|m: (String, u64)| (m.0@, m.1))
}

/// The whole timeline: the milestones init passed, in order, then the table
/// and its summary.
pub open spec fn blame_text(
    services: Seq<Service>,
    cfgs: Seq<ServiceConfig>,
    milestones: Seq<(Seq<char>, u64)>,
    boot_done: Option<u64>,
) -> Seq<char> {
    let rows = blame_lines(services, blame_names(services, cfgs), boot_done);
    blame_intro() + milestones_text(milestones) + table_header() + lines_text(slowest_first(rows)) + summary_text(
        first_start(rows),
        last_ready(rows),
    )
}

/// A row being built, its texts as `String`s.
struct Row {
    name: String,
    started: Option<u64>,
    ready: Option<u64>,
    ready_text: String,
    took: Option<u64>,
    after_boot: bool,
    note: String,
}

impl View for Row {
    type V = BlameLine;

    closed spec fn view(&self) -> BlameLine {
        BlameLine {
            name: self.name@,
            started: self.started,
            ready: self.ready,
            ready_text: self.ready_text@,
            took: self.took,
            after_boot: self.after_boot,
            note: self.note@,
        }
    }
}

spec fn row_views(v: Seq<Row>) -> Seq<BlameLine> {
    v.map_values(|r: Row| r@)
}

/// Append [`secs_text`] of `ms`.
fn push_secs(out: &mut String, ms: u64)
    ensures
        final(out)@ == old(out)@ + secs_text(ms as nat),
{
    push_decimal(out, ms / 1000);
    push_str(out, ".");
    let frac = ms % 1000;
    if frac < 10 {
        push_str(out, "00");
    } else if frac < 100 {
        push_str(out, "0");
    }
    push_decimal(out, frac);
    assert(final(out)@ =~= old(out)@ + secs_text(ms as nat)) by {
        assert(final(out)@ =~= old(out)@ + (decimal_text((ms / 1000) as nat) + "."@ + three_digits((ms % 1000) as nat)));
    }
}

fn opt_secs_string(v: Option<u64>) -> (r: String)
    ensures
        r@ == opt_secs(v),
{
    let mut r = String::new();
    match v {
        Some(ms) => push_secs(&mut r, ms),
        None => push_str(&mut r, "-"),
    }
    assert(r@ =~= opt_secs(v));
    r
}

fn row_for(name: &str, svc: &Service, boot_done: Option<u64>) -> (r: Row)
    ensures
        r@ == blame_line(name@, *svc, boot_done),
{
    let started = svc.first_started_mono;
    let ready = svc.first_ready_mono;
    let took = match (started, ready) {
        (Some(s), Some(r)) => Some(if r >= s { r - s } else { 0 }),
        _ => None,
    };
    let running = svc.pid.is_some();
    let mut ready_text = String::new();
    match ready {
        Some(at) => push_secs(&mut ready_text, at),
        None => match &svc.config.ready_path {
            Some(_) => if running {
                push_str(&mut ready_text, "waiting");
            } else {
                push_str(&mut ready_text, "never");
            },
            None => push_str(&mut ready_text, "-"),
        },
    }
    assert(ready_text@ =~= ready_column(*svc));
    let base: &str = match &svc.config.ready_path {
        None => "no ready path",
        Some(_) => if ready.is_some() {
            ""
        } else if running {
            "not ready yet"
        } else {
            "exited before ready"
        },
    };
    assert(base@ == ready_note(*svc));
    let late = match (started, boot_done) {
        (Some(s), Some(d)) => s > d,
        _ => false,
    };
    let quiet = svc.config.ready_path.is_some() && ready.is_some();
    let mut note = String::new();
    if late {
        if quiet {
            push_str(&mut note, "started after boot");
        } else {
            push_str(&mut note, "started after boot, ");
            push_str(&mut note, base);
        }
    } else {
        push_str(&mut note, base);
    }
    assert(note@ =~= blame_line(name@, *svc, boot_done).note);
    Row { name: name.to_owned(), started, ready, ready_text, took, after_boot: late, note }
}

fn row_goes_before(a: &Row, b: &Row) -> (r: bool)
    ensures
        r == goes_before(a@, b@),
{
    match (a.took, b.took) {
        (Some(x), Some(y)) => x > y,
        (Some(_), None) => true,
        (None, Some(_)) => false,
        (None, None) => match (a.started, b.started) {
            (None, Some(_)) => true,
            (Some(x), Some(y)) => x < y,
            _ => false,
        },
    }
}

proof fn lemma_insert_pos_bounds(sorted: Seq<BlameLine>, x: BlameLine, j: int)
    requires
        0 <= j <= sorted.len(),
    ensures
        j <= insert_pos(sorted, x, j) <= sorted.len(),
    decreases sorted.len() - j,
{
    if j < sorted.len() && !goes_before(x, sorted[j]) {
        lemma_insert_pos_bounds(sorted, x, j + 1);
    }
}

/// Put `row` where [`slowest_first`] puts a row that comes last.
fn insert_row(sorted: &mut Vec<Row>, row: Row)
    ensures
        row_views(final(sorted)@) == row_views(old(sorted)@).insert(
            insert_pos(row_views(old(sorted)@), row@, 0),
            row@,
        ),
{
    let ghost s = row_views(sorted@);
    let mut j: usize = 0;
    while j < sorted.len() && !row_goes_before(&row, &sorted[j])
        invariant
            j <= sorted.len(),
            s == row_views(sorted@),
            sorted@ == old(sorted)@,
            insert_pos(s, row@, j as int) == insert_pos(s, row@, 0),
        decreases sorted.len() - j,
    {
        j += 1;
    }
    proof {
        lemma_insert_pos_bounds(s, row@, j as int);
    }
    let ghost x = row@;
    sorted.insert(j, row);
    assert(row_views(sorted@) =~= s.insert(j as int, x));
}

fn fold_first(first: Option<u64>, row: &Row) -> (r: Option<u64>)
    ensures
        r == (if row.after_boot {
            first
        } else {
            match (first, row.started) {
                (Some(a), Some(b)) => Some(if b < a { b } else { a }),
                (None, s) => s,
                (a, None) => a,
            }
        }),
{
    if row.after_boot {
        return first;
    }
    match (first, row.started) {
        (Some(a), Some(b)) => Some(if b < a { b } else { a }),
        (None, s) => s,
        (a, None) => a,
    }
}

fn fold_last(last: Option<u64>, row: &Row) -> (r: Option<u64>)
    ensures
        r == (if row.after_boot {
            last
        } else {
            match (last, row.ready) {
                (Some(a), Some(b)) => Some(if b > a { b } else { a }),
                (None, s) => s,
                (a, None) => a,
            }
        }),
{
    if row.after_boot {
        return last;
    }
    match (last, row.ready) {
        (Some(a), Some(b)) => Some(if b > a { b } else { a }),
        (None, s) => s,
        (a, None) => a,
    }
}

fn push_line(out: &mut String, r: &Row)
    ensures
        final(out)@ == old(out)@ + line_text(r@),
{
    push_padded(out, r.name.as_str(), 20);
    push_str(out, " ");
    let started = opt_secs_string(r.started);
    push_padded_left(out, started.as_str(), 9);
    push_str(out, "  ");
    let ghost a = out@;
    push_padded_left(out, r.ready_text.as_str(), 9);
    push_str(out, "  ");
    let took = opt_secs_string(r.took);
    push_padded_left(out, took.as_str(), 9);
    push_str(out, "  ");
    let ghost b = out@;
    push_str(out, r.note.as_str());
    push_str(out, "\n");
    assert(a =~= old(out)@ + (pad_right(r.name@, 20) + " "@ + pad_left(opt_secs(r.started), 9) + "  "@));
    assert(b =~= a + (pad_left(r.ready_text@, 9) + "  "@ + pad_left(opt_secs(r.took), 9) + "  "@));
    assert(final(out)@ =~= old(out)@ + line_text(r@));
}

fn push_summary(out: &mut String, first: Option<u64>, last: Option<u64>)
    ensures
        final(out)@ == old(out)@ + summary_text(first, last),
{
    match (first, last) {
        (Some(f), Some(l)) => {
            push_str(out, "\nservices: first start ");
            push_secs(out, f);
            push_str(out, ", last ready ");
            push_secs(out, l);
            push_str(out, ", span ");
            let ghost a = out@;
            if l >= f {
                push_secs(out, l - f);
            } else {
                push_str(out, "-");
                push_secs(out, f - l);
            }
            assert(out@ =~= a + span_text(f, l));
            push_str(out, "s\n");
            assert(final(out)@ =~= old(out)@ + summary_text(first, last));
        },
        (Some(f), None) => {
            push_str(out, "\nservices: first start ");
            push_secs(out, f);
            push_str(out, ", nothing ready yet\n");
            assert(final(out)@ =~= old(out)@ + summary_text(first, last));
        },
        _ => {
            assert(final(out)@ =~= old(out)@ + summary_text(first, last));
        },
    }
}

/// The names of the configured services, in order.
fn config_names(cfgs: &Vec<ServiceConfig>) -> (r: Vec<String>)
    ensures
        string_views(r@) == def_names(cfgs@),
{
    let mut r: Vec<String> = Vec::new();
    let mut i: usize = 0;
    while i < cfgs.len()
        invariant
            i <= cfgs.len(),
            string_views(r@) =~= def_names(cfgs@).subrange(0, i as int),
        decreases cfgs.len() - i,
    {
        let n = cfgs[i].name.clone();
        let ghost before = string_views(r@);
        r.push(n);
        assert(string_views(r@) =~= before.push(cfgs@[i as int].name@));
        assert(def_names(cfgs@).subrange(0, i + 1) =~= def_names(cfgs@).subrange(0, i as int).push(cfgs@[i as int].name@));
        i += 1;
    }
    assert(def_names(cfgs@).subrange(0, i as int) =~= def_names(cfgs@));
    r
}

/// The names of the supervised services, in order.
fn supervised_names(services: &Vec<Service>) -> (r: Vec<String>)
    ensures
        string_views(r@) == service_names(services@),
{
    let mut r: Vec<String> = Vec::new();
    let mut i: usize = 0;
    while i < services.len()
        invariant
            i <= services.len(),
            string_views(r@) =~= service_names(services@).subrange(0, i as int),
        decreases services.len() - i,
    {
        let n = services[i].config.name.clone();
        let ghost before = string_views(r@);
        r.push(n);
        assert(string_views(r@) =~= before.push(services@[i as int].config.name@));
        assert(service_names(services@).subrange(0, i + 1) =~= service_names(services@).subrange(0, i as int).push(
            services@[i as int].config.name@,
        ));
        i += 1;
    }
    assert(service_names(services@).subrange(0, i as int) =~= service_names(services@));
    r
}

/// The boot timeline: a row for each configured service that something is
/// supervised under, then for anything supervised that the configuration
/// does not mention; slowest to become ready first, then those not ready,
/// in the order they started ([`goes_before`]). Above it, the milestones init
/// passed, each with its time. Rows that first started after `boot_done`
/// (when init reached its main loop, if it has) are shown and marked, and
/// left out of the closing summary.
pub fn blame(services: &Vec<Service>, config: &InitConfig, milestones: &Vec<(String, u64)>, boot_done: Option<u64>) -> (r: String)
    ensures
        r@ == blame_text(services@, config.services@, milestone_views(milestones@), boot_done),
{
    let mut names = config_names(&config.services);
    let more = supervised_names(services);
    push_names(&mut names, &more);
    let ghost all = string_views(names@);
    assert(all == blame_names(services@, config.services@));
    let mut sorted: Vec<Row> = Vec::new();
    let mut first: Option<u64> = None;
    let mut last: Option<u64> = None;
    let mut i: usize = 0;
    while i < names.len()
        invariant
            i <= names.len(),
            all == string_views(names@),
            row_views(sorted@) == slowest_first(blame_lines(services@, all.subrange(0, i as int), boot_done)),
            first == first_start(blame_lines(services@, all.subrange(0, i as int), boot_done)),
            last == last_ready(blame_lines(services@, all.subrange(0, i as int), boot_done)),
        decreases names.len() - i,
    {
        let ghost pre = all.subrange(0, i as int);
        let ghost rows = blame_lines(services@, pre, boot_done);
        assert(all.subrange(0, i + 1).drop_last() =~= pre);
        assert(all.subrange(0, i + 1).last() == names@[i as int]@);
        match find_service(services, names[i].as_str()) {
            Some(svc) => {
                let row = row_for(names[i].as_str(), svc, boot_done);
                assert(rows.push(row@).drop_last() =~= rows);
                first = fold_first(first, &row);
                last = fold_last(last, &row);
                insert_row(&mut sorted, row);
            },
            None => {},
        }
        i += 1;
    }
    assert(all.subrange(0, i as int) =~= all);
    let ghost rows = blame_lines(services@, all, boot_done);
    let mut out = String::new();
    push_str(&mut out, "Seconds since the kernel started. Each service is timed from its first\n");
    push_str(&mut out, "start in this boot; restarts since are in `raven-rc status NAME`.\n");
    push_str(&mut out, "Milestones cross a re-exec: a name that appears twice marks one, and\n");
    push_str(&mut out, "the rows above the second `init started` are the original boot's.\n\n");
    assert(out@ =~= blame_intro());
    let ghost mv = milestone_views(milestones@);
    let mut q: usize = 0;
    while q < milestones.len()
        invariant
            q <= milestones.len(),
            mv == milestone_views(milestones@),
            out@ == blame_intro() + milestones_text(mv.subrange(0, q as int)),
        decreases milestones.len() - q,
    {
        assert(mv.subrange(0, q + 1).drop_last() =~= mv.subrange(0, q as int));
        let ghost before = out@;
        push_str(&mut out, "  ");
        push_padded(&mut out, milestones[q].0.as_str(), 22);
        push_str(&mut out, " ");
        let at = opt_secs_string(Some(milestones[q].1));
        push_padded_left(&mut out, at.as_str(), 9);
        push_str(&mut out, "\n");
        assert(out@ =~= before + milestone_text(mv[q as int]));
        q += 1;
    }
    assert(mv.subrange(0, q as int) =~= mv);
    push_str(&mut out, "\nSERVICE              STARTED    READY      TOOK       NOTE\n");
    let ghost head = out@;
    assert(head =~= blame_intro() + milestones_text(mv) + table_header());
    let ghost table = row_views(sorted@);
    let mut k: usize = 0;
    while k < sorted.len()
        invariant
            k <= sorted.len(),
            table == row_views(sorted@),
            out@ == head + lines_text(table.subrange(0, k as int)),
        decreases sorted.len() - k,
    {
        assert(table.subrange(0, k + 1).drop_last() =~= table.subrange(0, k as int));
        push_line(&mut out, &sorted[k]);
        k += 1;
    }
    assert(table.subrange(0, k as int) =~= table);
    push_summary(&mut out, first, last);
    out
}

} // verus!
