//! Log rotation policy: when a service log is rotated, how many generations
//! are kept, how large the log directory may grow, and when the sweep runs.
//!
//! The sweep itself -- copying, truncating, renaming and removing files -- is
//! the program's part; this module decides and names.
use vstd::prelude::*;

use crate::cgroup::{parse_size, size_of};
use crate::config::SystemConfig;
use crate::quantity::{
    as_double, double_value, point1, point2, push_point1, push_point2, round_div, round_half_even,
};
use crate::text::{
    chars_of, decimal_text, digits_end, ends_with, finishes_with, push_decimal, push_str, slice_of,
    to_string,
};

verus! {

/// The size at which a log is rotated, when `[system] log_max_size` says
/// nothing usable.
pub const DEFAULT_MAX_SIZE: u64 = 10485760;

/// Rotated generations kept, when `[system] log_keep` says nothing.
pub const DEFAULT_KEEP: u32 = 5;

/// The most generations `[system] log_keep` is allowed to ask for.
pub const MAX_KEEP: u32 = 64;

/// The cap on everything under the log directory, when `[system]
/// log_total_max` says nothing usable.
pub const DEFAULT_TOTAL_MAX: u64 = 209715200;

/// How often the sweep runs, in milliseconds of the monotonic clock.
pub const CHECK_INTERVAL_MS: u64 = 60000;

/// The compressor, by full path.
pub const GZIP: &'static str = "/bin/gzip";

/// A byte count as an operator would write it: `unlimited` for `u64::MAX`,
/// bytes below a KiB, then K and M with one decimal and G with two.
pub open spec fn human_text(bytes: u64) -> Seq<char> {
    let b = bytes as nat;
    if bytes == u64::MAX {
        "unlimited"@
    } else if b < 1024 {
        decimal_text(b) + "B"@
    } else if b < 1048576 {
        point1(round_div(b * 10, 1024)) + "K"@
    } else if b < 1073741824 {
        point1(round_div(b * 10, 1048576)) + "M"@
    } else {
        point2(round_div(as_double(b) * 100, 1073741824)) + "G"@
    }
}

/// A byte count as an operator would write it.
pub fn human(bytes: u64) -> (r: String)
    ensures
        r@ == human_text(bytes),
{
    if bytes == u64::MAX {
        return "unlimited".to_owned();
    }
    let mut r = String::new();
    if bytes < 1024 {
        push_decimal(&mut r, bytes);
        push_str(&mut r, "B");
    } else if bytes < 1048576 {
        let q = round_half_even(bytes as u128 * 10, 1024);
        push_point1(&mut r, q);
        push_str(&mut r, "K");
    } else if bytes < 1073741824 {
        let q = round_half_even(bytes as u128 * 10, 1048576);
        push_point1(&mut r, q);
        push_str(&mut r, "M");
    } else {
        let v = double_value(bytes);
        let q = round_half_even(v * 100, 1073741824);
        push_point2(&mut r, q);
        push_str(&mut r, "G");
    }
    assert(Seq::<char>::empty() + human_text(bytes) =~= human_text(bytes));
    r
}

/// What the sweep is allowed to do, read once from `[system]`.
#[derive(Clone, Copy, PartialEq, Eq, Structural, Debug)]
pub struct Policy {
    /// Rotate a log once it reaches this many bytes; `u64::MAX` never.
    pub max_size: u64,
    /// Rotated generations to keep; 0 truncates and keeps none.
    pub keep: u32,
    /// Prune rotated generations, oldest first, above this many bytes.
    pub total_max: u64,
    /// Whether to gzip a generation once it has been rotated out.
    pub compress: bool,
}

impl Default for Policy {
    fn default() -> (r: Self)
        ensures
            r == (Policy {
                max_size: DEFAULT_MAX_SIZE,
                keep: DEFAULT_KEEP,
                total_max: DEFAULT_TOTAL_MAX,
                compress: true,
            }),
    {
        Policy {
            max_size: DEFAULT_MAX_SIZE,
            keep: DEFAULT_KEEP,
            total_max: DEFAULT_TOTAL_MAX,
            compress: true,
        }
    }
}

/// What a sweep found, in the caller's words: what happened, and what did
/// not work.
pub struct Report {
    pub done: Vec<String>,
    pub trouble: Vec<String>,
}

pub open spec fn texts(v: Seq<String>) -> Seq<Seq<char>> {
    v.map_values(|s: String| s@)
}

impl Report {
    pub fn new() -> (r: Report)
        ensures
            r.done@.len() == 0,
            r.trouble@.len() == 0,
    {
        Report { done: Vec::new(), trouble: Vec::new() }
    }

    /// Take everything `other` says on as well.
    pub fn absorb(&mut self, other: Report)
        ensures
            texts(final(self).done@) == texts(old(self).done@) + texts(other.done@),
            texts(final(self).trouble@) == texts(old(self).trouble@) + texts(other.trouble@),
    {
        let mut other = other;
        let ghost od = other.done@;
        let ghost ot = other.trouble@;
        self.done.append(&mut other.done);
        self.trouble.append(&mut other.trouble);
        assert(texts(self.done@) =~= texts(old(self).done@) + texts(od));
        assert(texts(self.trouble@) =~= texts(old(self).trouble@) + texts(ot));
    }
}

/// The policy `[system]` asks for: each size that is not a size falls back to
/// its default, the generation count is clamped, and the two limits are
/// compared.
pub open spec fn policy_of(system: SystemConfig) -> Policy {
    Policy {
        max_size: match size_of(system.log_max_size@) {
            Some(b) => b,
            None => DEFAULT_MAX_SIZE,
        },
        keep: if system.log_keep > MAX_KEEP {
            MAX_KEEP
        } else {
            system.log_keep
        },
        total_max: match size_of(system.log_total_max@) {
            Some(b) => b,
            None => DEFAULT_TOTAL_MAX,
        },
        compress: system.log_compress,
    }
}

/// What is said about a `[system]` section, in the order it is said.
pub open spec fn policy_trouble(system: SystemConfig) -> Seq<Seq<char>> {
    let p = policy_of(system);
    let size = if size_of(system.log_max_size@) is None {
        seq![
            "[system] log_max_size = \""@ + system.log_max_size@ + "\" is not a size; using "@
                + human_text(DEFAULT_MAX_SIZE),
        ]
    } else {
        Seq::empty()
    };
    let total = if size_of(system.log_total_max@) is None {
        seq![
            "[system] log_total_max = \""@ + system.log_total_max@ + "\" is not a size; using "@
                + human_text(DEFAULT_TOTAL_MAX),
        ]
    } else {
        Seq::empty()
    };
    let keep = if system.log_keep > MAX_KEEP {
        seq![
            "[system] log_keep = "@ + decimal_text(system.log_keep as nat)
                + " is more generations than is useful; using "@ + decimal_text(MAX_KEEP as nat),
        ]
    } else {
        Seq::empty()
    };
    let order = if p.max_size != u64::MAX && p.max_size > p.total_max {
        seq![
            "[system] log_max_size ("@ + human_text(p.max_size) + ") is larger than log_total_max ("@
                + human_text(p.total_max)
                + "); logs will be pruned before any of them is ever rotated"@,
        ]
    } else {
        Seq::empty()
    };
    size + total + keep + order
}

impl Policy {
    /// Read the policy out of `[system]`, complaining about anything
    /// unreadable rather than refusing to rotate.
    pub fn from_system(system: &SystemConfig) -> (r: (Policy, Report))
        ensures
            r.0 == policy_of(*system),
            texts(r.1.trouble@) == policy_trouble(*system),
            r.1.done@.len() == 0,
    {
        let mut report = Report::new();
        let mut policy = Policy::default();
        match parse_size(system.log_max_size.as_str()) {
            Some(bytes) => policy.max_size = bytes,
            None => {
                let mut m = "[system] log_max_size = \"".to_owned();
                push_str(&mut m, system.log_max_size.as_str());
                push_str(&mut m, "\" is not a size; using ");
                let h = human(DEFAULT_MAX_SIZE);
                push_str(&mut m, h.as_str());
                report.trouble.push(m);
            },
        }
        let ghost t1 = texts(report.trouble@);
        match parse_size(system.log_total_max.as_str()) {
            Some(bytes) => policy.total_max = bytes,
            None => {
                let mut m = "[system] log_total_max = \"".to_owned();
                push_str(&mut m, system.log_total_max.as_str());
                push_str(&mut m, "\" is not a size; using ");
                let h = human(DEFAULT_TOTAL_MAX);
                push_str(&mut m, h.as_str());
                report.trouble.push(m);
            },
        }
        policy.keep = if system.log_keep > MAX_KEEP {
            MAX_KEEP
        } else {
            system.log_keep
        };
        if system.log_keep > MAX_KEEP {
            let mut m = "[system] log_keep = ".to_owned();
            push_decimal(&mut m, system.log_keep as u64);
            push_str(&mut m, " is more generations than is useful; using ");
            push_decimal(&mut m, MAX_KEEP as u64);
            report.trouble.push(m);
        }
        policy.compress = system.log_compress;
        if policy.max_size != u64::MAX && policy.max_size > policy.total_max {
            let mut m = "[system] log_max_size (".to_owned();
            let h = human(policy.max_size);
            push_str(&mut m, h.as_str());
            push_str(&mut m, ") is larger than log_total_max (");
            let h2 = human(policy.total_max);
            push_str(&mut m, h2.as_str());
            push_str(&mut m, "); logs will be pruned before any of them is ever rotated");
            report.trouble.push(m);
        }
        assert(texts(report.trouble@) =~= policy_trouble(*system));
        (policy, report)
    }
}

/// When the next sweep is due, on the monotonic clock in milliseconds.
pub struct Schedule {
    next: u64,
}

/// Whether a sweep asked for at `now` runs, and when the one after it is due.
/// The next deadline is measured from `now`, so a clock that jumps forward
/// gives one sweep rather than one per missed interval.
pub open spec fn due_at(next: u64, now: u64) -> (bool, u64) {
    if now < next {
        (false, next)
    } else {
        (true, (now + CHECK_INTERVAL_MS) as u64)
    }
}

impl Schedule {
    pub closed spec fn deadline(&self) -> u64 {
        self.next
    }

    /// A schedule whose first sweep is due at `now`.
    pub fn due_now(now: u64) -> (r: Schedule)
        ensures
            r.deadline() == now,
    {
        Schedule { next: now }
    }

    /// True at most once per interval, and true the first time.
    pub fn due(&mut self, now: u64) -> (r: bool)
        requires
            now <= u64::MAX - CHECK_INTERVAL_MS,
        ensures
            (r, final(self).deadline()) == due_at(old(self).deadline(), now),
    {
        if now < self.next {
            return false;
        }
        self.next = now + CHECK_INTERVAL_MS;
        true
    }
}

/// A sweep that ran at `t1` is not run again before an interval has passed,
/// however often it is asked.
pub proof fn lemma_due_once_per_interval(next: u64, t1: u64, t2: u64)
    requires
        due_at(next, t1).0,
        t1 <= u64::MAX - CHECK_INTERVAL_MS,
        t1 <= t2 < t1 + CHECK_INTERVAL_MS,
    ensures
        !due_at(due_at(next, t1).1, t2).0,
        due_at(due_at(next, t1).1, t2).1 == due_at(next, t1).1,
{
}

/// Once an interval has passed, the sweep runs again.
pub proof fn lemma_due_again_after_interval(next: u64, t1: u64, t2: u64)
    requires
        due_at(next, t1).0,
        t1 <= u64::MAX - CHECK_INTERVAL_MS,
        t2 >= t1 + CHECK_INTERVAL_MS,
    ensures
        due_at(due_at(next, t1).1, t2).0,
{
}

/// Where the last `.` in `s` is, or -1.
pub open spec fn last_dot(s: Seq<char>, j: int) -> int
    decreases j,
{
    if j <= 0 || j > s.len() {
        -1
    } else if s[j - 1] == '.' {
        j - 1
    } else {
        last_dot(s, j - 1)
    }
}

/// Whether a file name is one of the rotated generations:
/// `<anything>.log.<digits>`, optionally followed by `.gz`.
pub open spec fn rotated_name(name: Seq<char>) -> bool {
    let stem = if ends_with(name, ".gz"@) {
        name.subrange(0, name.len() - 3)
    } else {
        name
    };
    let k = last_dot(stem, stem.len() as int);
    let digits = stem.subrange(k + 1, stem.len() as int);
    &&& k >= 0
    &&& digits.len() > 0
    &&& crate::text::all_digits(digits)
    &&& ends_with(stem.subrange(0, k), ".log"@)
}

/// Whether a file name is one of the rotated generations.
pub fn is_rotated(name: &str) -> (r: bool)
    ensures
        r == rotated_name(name@),
{
    let v = chars_of(name);
    proof {
        reveal_strlit(".gz");
    }
    let stem = if finishes_with(&v, ".gz") {
        slice_of(&v, 0, v.len() - 3)
    } else {
        slice_of(&v, 0, v.len())
    };
    assert(v@.subrange(0, v.len() as int) =~= v@);
    let mut j = stem.len();
    while j > 0 && stem[j - 1] != '.'
        invariant
            j <= stem.len(),
            last_dot(stem@, j as int) == last_dot(stem@, stem.len() as int),
        decreases j,
    {
        j -= 1;
    }
    if j == 0 {
        return false;
    }
    let k = j - 1;
    if k + 1 >= stem.len() {
        return false;
    }
    let e = crate::text::skip_digits(&stem, k + 1);
    proof {
        crate::text::lemma_digits_end_bounds(stem@, k + 1);
    }
    if e < stem.len() {
        assert(!crate::text::is_digit(stem@.subrange(k + 1, stem.len() as int)[e - k - 1]));
        return false;
    }
    let head = slice_of(&stem, 0, k);
    finishes_with(&head, ".log")
}

/// A current log is never taken for a rotated generation, so the directory
/// cap can never remove one: a name ending `.log` is not `<..>.log.<digits>`,
/// gzipped or not.
pub proof fn lemma_current_log_is_never_pruned(name: Seq<char>)
    requires
        ends_with(name, ".log"@),
    ensures
        !rotated_name(name),
{
    reveal_strlit(".log");
    reveal_strlit(".gz");
    let n = name.len() as int;
    let tail = name.subrange(n - 4, n);
    assert(tail =~= ".log"@);
    assert(tail[3] == 'g' && tail[2] == 'o' && tail[1] == 'l' && tail[0] == '.');
    assert(name[n - 1] == tail[3]);
    assert(name[n - 2] == tail[2]);
    assert(name[n - 3] == tail[1]);
    assert(name[n - 4] == tail[0]);
    if ends_with(name, ".gz"@) {
        assert(name.subrange(n - 3, n)[2] == 'z');
        assert(false);
    }
    assert(last_dot(name, n) == last_dot(name, n - 1));
    assert(last_dot(name, n - 1) == last_dot(name, n - 2));
    assert(last_dot(name, n - 2) == last_dot(name, n - 3));
    assert(last_dot(name, n - 3) == n - 4);
    let digits = name.subrange(n - 3, n);
    assert(digits[0] == 'l');
    assert(!crate::text::is_digit(digits[0]));
}

/// Every generation a rotation writes, the staged `.0` included, is one the
/// directory cap recognises and may remove.
pub proof fn lemma_generations_are_prunable(log: Seq<char>, n: nat)
    requires
        ends_with(log, ".log"@),
    ensures
        rotated_name(generation_path(log, n)),
        rotated_name(generation_path(log, n) + ".gz"@),
{
    reveal_strlit(".log");
    reveal_strlit(".gz");
    reveal_strlit(".");
    let d = decimal_text(n);
    lemma_decimal_text_digits(n);
    let g = generation_path(log, n);
    assert(g =~= log + seq!['.'] + d);
    let k = log.len() as int;
    assert(g[k] == '.');
    lemma_last_dot_after(g, k, g.len() as int);
    assert(g.subrange(0, k) =~= log);
    assert(g.subrange(k + 1, g.len() as int) =~= d);
    // Not itself gzipped: it ends with a digit.
    assert(g.last() == d.last());
    if ends_with(g, ".gz"@) {
        assert(g.subrange(g.len() - 3, g.len() as int)[2] == 'z');
        assert(crate::text::is_digit(d[d.len() - 1]));
        assert(false);
    }
    let z = g + ".gz"@;
    assert(ends_with(z, ".gz"@)) by {
        assert(z.subrange(z.len() - 3, z.len() as int) =~= ".gz"@);
    }
    assert(z.subrange(0, z.len() - 3) =~= g);
}

proof fn lemma_decimal_text_digits(n: nat)
    ensures
        decimal_text(n).len() > 0,
        crate::text::all_digits(decimal_text(n)),
    decreases n,
{
    if n < 10 {
        assert(decimal_text(n) == seq![crate::text::digit_char(n)]);
        assert((crate::text::digit_char(n) as u32) == 48 + n);
    } else {
        lemma_decimal_text_digits(n / 10);
        let h = decimal_text(n / 10);
        let c = crate::text::digit_char(n % 10);
        assert((c as u32) == 48 + n % 10);
        assert(decimal_text(n) == h.push(c));
        assert forall|k: int| 0 <= k < decimal_text(n).len() implies crate::text::is_digit(#[trigger] decimal_text(n)[k]) by {
            if k < h.len() {
                assert(decimal_text(n)[k] == h[k]);
            }
        }
    }
}

/// With a `.` at `k` and only digits after it up to `j`, the last dot
/// before `j` is at `k`.
proof fn lemma_last_dot_after(s: Seq<char>, k: int, j: int)
    requires
        0 <= k < j <= s.len(),
        s[k] == '.',
        forall|m: int| k < m < j ==> crate::text::is_digit(#[trigger] s[m]),
    ensures
        last_dot(s, j) == k,
    decreases j - k,
{
    if j - 1 > k {
        assert(crate::text::is_digit(s[j - 1]));
        lemma_last_dot_after(s, k, j - 1);
    }
}

/// The name of generation `n` of the log at `path`.
pub fn generation(path: &str, n: u32) -> (r: String)
    ensures
        r@ == path@ + "."@ + decimal_text(n as nat),
{
    let mut r = path.to_owned();
    push_str(&mut r, ".");
    push_decimal(&mut r, n as u64);
    r
}

/// The name a generation has once gzip has compressed it.
pub fn compressed(path: &str) -> (r: String)
    ensures
        r@ == path@ + ".gz"@,
{
    let mut r = path.to_owned();
    push_str(&mut r, ".gz");
    r
}


/// `<log>.N`.
pub open spec fn generation_path(log: Seq<char>, n: nat) -> Seq<char> {
    log + "."@ + decimal_text(n)
}

/// The renames that move every rotated generation of `log` up one, counted
/// down from the top so that no rename lands on a generation that has not
/// moved yet: for each `n` from `keep - 1` down to 1, `<log>.n` and its
/// gzipped spelling to those of `n + 1`.
pub open spec fn shift_moves(log: Seq<char>, keep: nat) -> Seq<(Seq<char>, Seq<char>)>
    decreases keep,
{
    if keep <= 1 {
        Seq::empty()
    } else {
        let n = (keep - 1) as nat;
        seq![
            (generation_path(log, n), generation_path(log, keep)),
            (generation_path(log, n) + ".gz"@, generation_path(log, keep) + ".gz"@),
        ] + shift_moves(log, n)
    }
}

/// `<log>.n`, or its gzipped spelling.
pub open spec fn spelled(log: Seq<char>, n: nat, gz: bool) -> Seq<char> {
    if gz {
        generation_path(log, n) + ".gz"@
    } else {
        generation_path(log, n)
    }
}

proof fn lemma_decimal_round_trip(n: nat)
    ensures
        crate::text::decimal(decimal_text(n)) == n,
    decreases n,
{
    if n >= 10 {
        lemma_decimal_round_trip(n / 10);
        let h = decimal_text(n / 10);
        let c = crate::text::digit_char(n % 10);
        assert((c as u32) == 48 + n % 10);
        assert(('0' as u32) == 48);
        assert(crate::text::digit_value(c) == n % 10);
        assert(decimal_text(n).drop_last() == h);
        assert(decimal_text(n).last() == c);
        assert((n / 10) * 10 + n % 10 == n) by (nonlinear_arith);
        assert(crate::text::decimal(decimal_text(n)) == crate::text::decimal(h) * 10 + n % 10);
    } else {
        let c = crate::text::digit_char(n);
        assert((c as u32) == 48 + n);
        assert(('0' as u32) == 48);
        assert(crate::text::digit_value(c) == n);
        assert(decimal_text(n).drop_last() =~= Seq::<char>::empty());
        assert(crate::text::decimal(decimal_text(n).drop_last()) == 0);
    }
}

/// Two generations of a log, in either spelling, are the same file only
/// when they are the same generation in the same spelling.
proof fn lemma_spelled_apart(log: Seq<char>, a: nat, ga: bool, b: nat, gb: bool)
    requires
        a != b || ga != gb,
    ensures
        spelled(log, a, ga) != spelled(log, b, gb),
{
    reveal_strlit(".gz");
    reveal_strlit(".");
    lemma_decimal_text_digits(a);
    lemma_decimal_text_digits(b);
    let x = spelled(log, a, ga);
    let y = spelled(log, b, gb);
    let p: int = log.len() as int + 1;
    let da = decimal_text(a);
    let db = decimal_text(b);
    if x == y {
        let sa = if ga { ".gz"@ } else { Seq::<char>::empty() };
        let sb = if gb { ".gz"@ } else { Seq::<char>::empty() };
        assert(x =~= log + "."@ + da + sa);
        assert(y =~= log + "."@ + db + sb);
        if ga == gb {
            assert(da.len() == db.len());
            assert(da =~= x.subrange(p, p + da.len()));
            assert(db =~= y.subrange(p, p + db.len()));
            lemma_decimal_round_trip(a);
            lemma_decimal_round_trip(b);
        } else if ga {
            assert(db.len() == da.len() + 3);
            assert(x[p + da.len()] == '.');
            assert(y[p + da.len()] == db[da.len() as int]);
            assert(crate::text::is_digit(db[da.len() as int]));
        } else {
            assert(da.len() == db.len() + 3);
            assert(y[p + db.len()] == '.');
            assert(x[p + db.len()] == da[db.len() as int]);
            assert(crate::text::is_digit(da[db.len() as int]));
        }
    }
}

/// The renames counted down from the top: there are two for each generation
/// below `keep` but the zeroth, and the `k`th moves generation
/// `keep - 1 - k/2` to `keep - k/2`, the plain spelling first and then the
/// gzipped one.
pub proof fn lemma_shift_moves_shape(log: Seq<char>, keep: nat)
    ensures
        shift_moves(log, keep).len() == (if keep >= 1 { 2 * (keep - 1) } else { 0 }),
        forall|k: int|
            0 <= k < shift_moves(log, keep).len() ==> #[trigger] shift_moves(log, keep)[k] == (
                spelled(log, (keep - 1 - k / 2) as nat, k % 2 == 1),
                spelled(log, (keep - k / 2) as nat, k % 2 == 1),
            ),
    decreases keep,
{
    if keep > 1 {
        let n = (keep - 1) as nat;
        lemma_shift_moves_shape(log, n);
        let m = shift_moves(log, keep);
        let rest = shift_moves(log, n);
        assert forall|k: int| 0 <= k < m.len() implies #[trigger] m[k] == (
            spelled(log, (keep - 1 - k / 2) as nat, k % 2 == 1),
            spelled(log, (keep - k / 2) as nat, k % 2 == 1),
        ) by {
            if k >= 2 {
                assert(m[k] == rest[k - 2]);
                assert((k - 2) / 2 == k / 2 - 1);
                assert((k - 2) % 2 == k % 2);
            }
        }
    }
}

/// Shifting the generations never overwrites one that is still to move:
/// carried out in order, no rename lands on the source of a later one, as
/// the renames run from the top generation down. So each generation below
/// `keep` ends up one higher with its own contents.
pub proof fn lemma_shift_never_overwrites(log: Seq<char>, keep: nat)
    ensures
        forall|i: int, j: int|
            0 <= i < j < shift_moves(log, keep).len() ==> (#[trigger] shift_moves(log, keep)[i]).1 != (
            #[trigger] shift_moves(log, keep)[j]).0,
{
    lemma_shift_moves_shape(log, keep);
    let m = shift_moves(log, keep);
    assert forall|i: int, j: int| 0 <= i < j < m.len() implies (#[trigger] m[i]).1 != (#[trigger] m[j]).0 by {
        assert(i / 2 <= j / 2);
        lemma_spelled_apart(log, (keep - i / 2) as nat, i % 2 == 1, (keep - 1 - j / 2) as nat, j % 2 == 1);
    }
}

pub open spec fn move_views(v: Seq<(String, String)>) -> Seq<(Seq<char>, Seq<char>)> {
    v.map_values(|m: (String, String)| (m.0@, m.1@))
}

/// What shifting the generations of `log` does, to be carried out in order:
/// the generation that falls off the end, `<log>.keep`, is removed in both
/// spellings, then [`shift_moves`] are renamed, each where its source
/// exists.
pub fn shift_plan(log: &str, keep: u32) -> (r: (Vec<String>, Vec<(String, String)>))
    ensures
        r.0@.len() == 2,
        r.0@[0]@ == generation_path(log@, keep as nat),
        r.0@[1]@ == generation_path(log@, keep as nat) + ".gz"@,
        move_views(r.1@) == shift_moves(log@, keep as nat),
{
    let last = generation(log, keep);
    let last_gz = compressed(last.as_str());
    let mut moves: Vec<(String, String)> = Vec::new();
    let mut n: u32 = keep;
    while n > 1
        invariant
            n <= keep,
            move_views(moves@) + shift_moves(log@, n as nat) == shift_moves(log@, keep as nat),
        decreases n,
    {
        let from = generation(log, n - 1);
        let to = generation(log, n);
        let from_gz = compressed(from.as_str());
        let to_gz = compressed(to.as_str());
        let ghost before = move_views(moves@);
        moves.push((from, to));
        moves.push((from_gz, to_gz));
        assert(move_views(moves@) =~= before + seq![
            (generation_path(log@, (n - 1) as nat), generation_path(log@, n as nat)),
            (generation_path(log@, (n - 1) as nat) + ".gz"@, generation_path(log@, n as nat) + ".gz"@),
        ]);
        n -= 1;
    }
    assert(move_views(moves@) + Seq::<(Seq<char>, Seq<char>)>::empty() =~= move_views(moves@));
    (vec![last, last_gz], moves)
}


/// A rotated generation the directory cap may remove: when it was last
/// modified, in seconds and nanoseconds, its file name, and its size.
pub struct Candidate {
    pub secs: u64,
    pub nanos: u32,
    pub name: String,
    pub size: u64,
}

/// Oldest first, and by name among files of the same age.
pub open spec fn older(a: Candidate, b: Candidate) -> bool {
    a.secs < b.secs || (a.secs == b.secs && (a.nanos < b.nanos || (a.nanos == b.nanos
        && crate::text::lex_lt(a.name@, b.name@))))
}

fn is_older(a: &Candidate, b: &Candidate) -> (r: bool)
    ensures
        r == older(*a, *b),
{
    a.secs < b.secs || (a.secs == b.secs && (a.nanos < b.nanos || (a.nanos == b.nanos && crate::text::str_less(
        a.name.as_str(),
        b.name.as_str(),
    ))))
}

proof fn lemma_older_transitive(a: Candidate, b: Candidate, c: Candidate)
    requires
        older(a, b),
        older(b, c),
    ensures
        older(a, c),
{
    if a.secs == b.secs && b.secs == c.secs && a.nanos == b.nanos && b.nanos == c.nanos {
        crate::text::lemma_lex_transitive(a.name@, b.name@, c.name@, 0);
    }
}

proof fn lemma_older_total(a: Candidate, b: Candidate)
    requires
        a.name@ != b.name@,
    ensures
        older(a, b) || older(b, a),
{
    crate::text::lemma_lex_trichotomy(a.name@, b.name@);
}

/// `order` lists every candidate once, oldest first.
pub open spec fn oldest_first(c: Seq<Candidate>, order: Seq<usize>) -> bool {
    &&& order.len() == c.len()
    &&& forall|k: int| 0 <= k < order.len() ==> (#[trigger] order[k]) < c.len()
    &&& forall|i: int| 0 <= i < c.len() ==> #[trigger] order.contains(i as usize)
    &&& forall|p: int, q: int|
        #![trigger order[p], order[q]]
        0 <= p < q < order.len() ==> older(c[order[p] as int], c[order[q] as int])
}

/// The order the directory cap removes rotated generations in: oldest
/// first. The names are those of files in one directory, so no two agree.
pub fn prune_order(c: &Vec<Candidate>) -> (order: Vec<usize>)
    requires
        forall|i: int, j: int| 0 <= i < j < c@.len() ==> c@[i].name@ != c@[j].name@,
    ensures
        oldest_first(c@, order@),
{
    let mut order: Vec<usize> = Vec::new();
    let mut i: usize = 0;
    while i < c.len()
        invariant
            i <= c.len(),
            order@.len() == i,
            forall|i2: int, j2: int| 0 <= i2 < j2 < c@.len() ==> c@[i2].name@ != c@[j2].name@,
            forall|k: int| 0 <= k < order.len() ==> (#[trigger] order@[k]) < i,
            forall|j: int| 0 <= j < i ==> #[trigger] order@.contains(j as usize),
            forall|p: int, q: int|
                #![trigger order@[p], order@[q]]
                0 <= p < q < order.len() ==> older(c@[order@[p] as int], c@[order@[q] as int]),
        decreases c.len() - i,
    {
        let mut pos: usize = 0;
        while pos < order.len() && !is_older(&c[i], &c[order[pos]])
            invariant
                pos <= order.len(),
                i < c.len(),
                order@.len() == i,
                forall|k: int| 0 <= k < order.len() ==> (#[trigger] order@[k]) < i,
                forall|k: int| 0 <= k < pos ==> older(c@[order@[k] as int], c@[i as int]),
                forall|i2: int, j2: int| 0 <= i2 < j2 < c@.len() ==> c@[i2].name@ != c@[j2].name@,
                forall|j: int| 0 <= j < i ==> #[trigger] order@.contains(j as usize),
                forall|p: int, q: int|
                    #![trigger order@[p], order@[q]]
                    0 <= p < q < order.len() ==> older(c@[order@[p] as int], c@[order@[q] as int]),
            decreases order.len() - pos,
        {
            proof {
                lemma_older_total(c@[order@[pos as int] as int], c@[i as int]);
            }
            pos += 1;
        }
        let ghost before = order@;
        proof {
            assert forall|p: int, q: int| 0 <= p < q < before.len() + 1 implies older(
                c@[before.insert(pos as int, i)[p] as int],
                c@[before.insert(pos as int, i)[q] as int],
            ) by {
                if q == pos {
                } else if p == pos {
                    if q - 1 > pos {
                        assert(before[pos as int] == order@[pos as int] && before[q - 1] == order@[q - 1]);
                        lemma_older_transitive(
                            c@[i as int],
                            c@[before[pos as int] as int],
                            c@[before[q - 1] as int],
                        );
                    }
                } else if p < pos && q > pos {
                    assert(before[p] == order@[p] && before[q - 1] == order@[q - 1]);
                }
            }
        }
        order.insert(pos, i);
        assert(order@ == before.insert(pos as int, i));
        proof {
            assert forall|j: int| 0 <= j < i + 1 implies #[trigger] order@.contains(j as usize) by {
                if j < i {
                    assert(before.contains(j as usize));
                    let k = choose|k: int| 0 <= k < before.len() && before[k] == j as usize;
                    if k < pos {
                        assert(order@[k] == j as usize);
                    } else {
                        assert(order@[k + 1] == j as usize);
                    }
                } else {
                    assert(order@[pos as int] == i);
                }
            }
        }
        i += 1;
    }
    order
}

/// How far the directory cap has got: how much it must free, and how much
/// the removals so far have freed.
pub struct Pruning {
    over: u64,
    freed: u64,
}

impl Pruning {
    pub closed spec fn excess(&self) -> u64 {
        self.over
    }

    pub closed spec fn removed_bytes(&self) -> u64 {
        self.freed
    }

    /// The start of a sweep of a directory holding `total` bytes against a
    /// cap of `cap`: none when there is no cap (`u64::MAX`) or the directory
    /// is within it, and otherwise nothing freed yet of the excess.
    pub fn start(total: u64, cap: u64) -> (r: Option<Pruning>)
        ensures
            r is Some <==> cap != u64::MAX && total > cap,
            r matches Some(pr) ==> pr.excess() == total - cap && pr.removed_bytes() == 0,
    {
        if cap == u64::MAX || total <= cap {
            return None;
        }
        Some(Pruning { over: total - cap, freed: 0 })
    }

    /// Whether another generation is to go: the excess is not freed yet.
    pub fn wants_more(&self) -> (r: bool)
        ensures
            r == (self.removed_bytes() < self.excess()),
    {
        self.freed < self.over
    }

    /// A generation of `size` bytes was removed.
    pub fn removed(&mut self, size: u64)
        ensures
            final(self).excess() == old(self).excess(),
            final(self).removed_bytes() == (if old(self).removed_bytes() + size > u64::MAX {
                u64::MAX
            } else {
                (old(self).removed_bytes() + size) as u64
            }),
    {
        self.freed = self.freed.saturating_add(size);
    }

    /// Once the generations have run out: what the directory of `total`
    /// bytes still holds, when the removals did not free the excess.
    pub fn still_holds(&self, total: u64) -> (r: Option<u64>)
        ensures
            r is Some <==> self.removed_bytes() < self.excess(),
            r matches Some(h) ==> h == (if total >= self.removed_bytes() {
                (total - self.removed_bytes()) as u64
            } else {
                0u64
            }),
    {
        if self.freed >= self.over {
            return None;
        }
        Some(total.saturating_sub(self.freed))
    }
}

/// What the cap says when it removed a generation.
pub open spec fn pruned_text(path: Seq<char>, size: u64) -> Seq<char> {
    "Pruned "@ + path + " ("@ + human_text(size) + ")"@
}

/// [`pruned_text`].
pub fn pruned_line(path: &str, size: u64) -> (r: String)
    ensures
        r@ == pruned_text(path@, size),
{
    let mut r = "Pruned ".to_owned();
    push_str(&mut r, path);
    push_str(&mut r, " (");
    let h = human(size);
    push_str(&mut r, h.as_str());
    push_str(&mut r, ")");
    r
}

/// What the cap says when there is nothing left it may remove and the
/// directory is still over: the current logs alone are.
pub open spec fn still_over_text(dir: Seq<char>, holds: u64, cap: u64) -> Seq<char> {
    dir + " holds "@ + human_text(holds) + " against a cap of "@ + human_text(cap)
        + " and there are no rotated logs left to remove; the current logs alone are over the limit"@
}

/// [`still_over_text`].
pub fn still_over_line(dir: &str, holds: u64, cap: u64) -> (r: String)
    ensures
        r@ == still_over_text(dir@, holds, cap),
{
    let mut r = dir.to_owned();
    push_str(&mut r, " holds ");
    let h = human(holds);
    push_str(&mut r, h.as_str());
    push_str(&mut r, " against a cap of ");
    let c = human(cap);
    push_str(&mut r, c.as_str());
    push_str(&mut r, " and there are no rotated logs left to remove; the current logs alone are over the limit");
    r
}

} // verus!
