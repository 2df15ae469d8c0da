//! cgroup v2 resource control: the slice every service runs inside, and the
//! limits that belong to it.
//!
//! The layout is one level deep:
//!
//! ```text
//! /sys/fs/cgroup/                  cgroup2 root, mounted by init
//! /sys/fs/cgroup/raven.slice/      every supervised service, and nothing else
//! /sys/fs/cgroup/raven.slice/dbus/ one directory per service, named for it
//! ```
//!
//! This module decides what goes where: which directory a service gets, which
//! attribute files receive which values, which controllers still need
//! delegating, and what the kernel's counter files say. Touching the
//! filesystem is the program's part.
use vstd::prelude::*;

use crate::config::{ResourceLimits, ServiceConfig};
use crate::text::{
    has_token, lines, parse_trimmed_u64, push_signed, signed_text, split_lines, split_ws, tokens, views,
    join, join_path, push_decimal, push_str, decimal_text, parse_u64, parse_u64_in,
    chars_of, contains_char, decimal, decimal_value, digits_end, is_word, lemma_digits_end_bounds,
    lower_all, lowered, skip_digits, slice_of, trim, trimmed, all_digits, is_ws, is_digit, lower,
    lemma_lead_to, lemma_trail_to, lemma_digits_to, lead, trail,
};

verus! {

/// Where the cgroup2 hierarchy lives.
pub const DEFAULT_ROOT: &'static str = "/sys/fs/cgroup";

/// The directory under the cgroup2 root that holds one child per service.
pub const SLICE_NAME: &'static str = "raven.slice";

/// The narrowest and widest values the kernel accepts for `cpu.weight` and
/// `io.weight`.
pub const WEIGHT_MIN: u32 = 1;
pub const WEIGHT_MAX: u32 = 10000;

/// `1024^k` for the size suffixes.
pub const KIB: u64 = 1024;
pub const MIB: u64 = 1048576;
pub const GIB: u64 = 1073741824;
pub const TIB: u64 = 1099511627776;

/// Whether a service's name can be a directory inside the slice: not empty,
/// no slash, and no leading dot.
pub open spec fn usable_name(name: Seq<char>) -> bool {
    name.len() > 0 && !name.contains('/') && name[0] != '.'
}

pub fn name_is_usable(name: &str) -> (r: bool)
    ensures
        r == usable_name(name@),
{
    let v = chars_of(name);
    v.len() > 0 && !contains_char(name, '/') && v[0] != '.'
}

/// The multiplier a size suffix stands for, matched after lowercasing.
pub open spec fn size_unit(suffix: Seq<char>) -> Option<u64> {
    if suffix == Seq::<char>::empty() || suffix == "b"@ {
        Some(1)
    } else if suffix == "k"@ || suffix == "kb"@ || suffix == "kib"@ {
        Some(KIB)
    } else if suffix == "m"@ || suffix == "mb"@ || suffix == "mib"@ {
        Some(MIB)
    } else if suffix == "g"@ || suffix == "gb"@ || suffix == "gib"@ {
        Some(GIB)
    } else if suffix == "t"@ || suffix == "tb"@ || suffix == "tib"@ {
        Some(TIB)
    } else {
        None
    }
}

/// What `text` means as a size: `max`, `unlimited` and `infinity` (in any
/// case) are `u64::MAX`; otherwise digits, then an optional binary suffix,
/// with a product that fits.
pub open spec fn size_of(text: Seq<char>) -> Option<u64> {
    let t = trim(text);
    let l = lower_all(t);
    let e = digits_end(l, 0);
    let digits = l.subrange(0, e);
    let suffix = trim(l.subrange(e, l.len() as int));
    if t.len() == 0 {
        None
    } else if l == "max"@ || l == "unlimited"@ || l == "infinity"@ {
        Some(u64::MAX)
    } else if e == 0 || decimal(digits) > u64::MAX {
        None
    } else {
        match size_unit(suffix) {
            None => None,
            Some(unit) => if decimal(digits) * unit <= u64::MAX {
                Some((decimal(digits) * unit) as u64)
            } else {
                None
            },
        }
    }
}

/// Whether every character of `w` is whitespace.
pub open spec fn blank(w: Seq<char>) -> bool {
    forall|k: int| 0 <= k < w.len() ==> is_ws(#[trigger] w[k])
}

/// Every suffix is lower-case letters.
proof fn lemma_unit_letters(u: Seq<char>)
    requires
        size_unit(u) is Some,
    ensures
        forall|k: int| 0 <= k < u.len() ==> 'a' <= #[trigger] u[k] <= 'z',
{
    reveal_strlit("b");
    reveal_strlit("k");
    reveal_strlit("kb");
    reveal_strlit("kib");
    reveal_strlit("m");
    reveal_strlit("mb");
    reveal_strlit("mib");
    reveal_strlit("g");
    reveal_strlit("gb");
    reveal_strlit("gib");
    reveal_strlit("t");
    reveal_strlit("tb");
    reveal_strlit("tib");
}

/// A size written as digits and a suffix, with whitespace before, between
/// and after, is the digits' value times the suffix's multiple, whatever
/// the suffix's case, or no size at all when that does not fit in 64 bits.
pub proof fn lemma_size_written(w1: Seq<char>, d: Seq<char>, w2: Seq<char>, s: Seq<char>, w3: Seq<char>)
    requires
        blank(w1),
        blank(w2),
        blank(w3),
        d.len() > 0,
        all_digits(d),
        size_unit(lower_all(s)) is Some,
    ensures
        size_of(w1 + d + w2 + s + w3) == ({
            let n = decimal(d) * size_unit(lower_all(s))->0;
            if n <= u64::MAX {
                Some(n as u64)
            } else {
                None::<u64>
            }
        }),
{
    let u = lower_all(s);
    lemma_unit_letters(u);
    assert forall|k: int| 0 <= k < s.len() implies !is_ws(#[trigger] s[k]) && !is_digit(s[k]) by {
        assert(u[k] == lower(s[k]));
    }
    let t0 = w1 + d + w2 + s + w3;
    let a = w1.len() as int;
    let dl = d.len() as int;
    let core_end = if s.len() > 0 { a + dl + w2.len() + s.len() } else { a + dl };
    assert forall|k: int| 0 <= k < a implies is_ws(#[trigger] t0[k]) by {
        assert(t0[k] == w1[k]);
    }
    assert(t0[a] == d[0]);
    lemma_lead_to(t0, 0, a);
    assert forall|m: int| core_end <= m < t0.len() implies is_ws(#[trigger] t0[m]) by {
        if m < a + dl + w2.len() {
            assert(t0[m] == w2[m - a - dl]);
        } else {
            assert(t0[m] == w3[m - a - dl - w2.len() - s.len()]);
        }
    }
    if s.len() > 0 {
        assert(t0[core_end - 1] == s[s.len() - 1]);
    } else {
        assert(t0[core_end - 1] == d[dl - 1]);
    }
    lemma_trail_to(t0, a, t0.len() as int, core_end);
    let core = if s.len() > 0 { d + w2 + s } else { d };
    assert(trim(t0) =~= core);
    assert forall|k: int| 0 <= k < w2.len() implies lower(#[trigger] w2[k]) == w2[k] by {}
    assert forall|k: int| 0 <= k < dl implies lower(#[trigger] d[k]) == d[k] by {}
    let l = lower_all(core);
    let rest = if s.len() > 0 { w2 + u } else { Seq::<char>::empty() };
    assert(l =~= d + rest);
    if s.len() > 0 {
        assert(l[dl] == if w2.len() > 0 { w2[0] } else { u[0] });
    }
    lemma_digits_to(l, 0, dl);
    assert(l.subrange(0, dl) =~= d);
    assert(l.subrange(dl, l.len() as int) =~= rest);
    if s.len() > 0 {
        let b = w2.len() as int;
        assert(rest[b] == u[0]);
        lemma_lead_to(rest, 0, b);
        assert(rest[rest.len() - 1] == u[u.len() - 1]);
        lemma_trail_to(rest, b, rest.len() as int, rest.len() as int);
        assert(trim(rest) =~= u);
    } else {
        assert(u =~= Seq::<char>::empty());
        assert(trim(rest) =~= u);
    }
    reveal_strlit("max");
    reveal_strlit("unlimited");
    reveal_strlit("infinity");
    assert(l[0] == d[0]);
    assert(l != "max"@ && l != "unlimited"@ && l != "infinity"@);
}

/// `max`, `unlimited` and `infinity`, in any case and with whitespace
/// around them, are the largest size there is.
pub proof fn lemma_size_unlimited(text: Seq<char>)
    requires
        lower_all(trim(text)) == "max"@ || lower_all(trim(text)) == "unlimited"@ || lower_all(trim(text))
            == "infinity"@,
    ensures
        size_of(text) == Some(u64::MAX),
{
    reveal_strlit("max");
    reveal_strlit("unlimited");
    reveal_strlit("infinity");
    assert(trim(text).len() != 0);
}

proof fn lemma_lower_keeps_class(c: char)
    ensures
        is_ws(lower(c)) == is_ws(c),
        is_digit(lower(c)) == is_digit(c),
{
}

proof fn lemma_lead_lower(x: Seq<char>, i: int)
    requires
        0 <= i <= x.len(),
    ensures
        lead(lower_all(x), i) == lead(x, i),
    decreases x.len() - i,
{
    if i < x.len() {
        lemma_lower_keeps_class(x[i]);
        assert(lower_all(x)[i] == lower(x[i]));
        lemma_lead_lower(x, i + 1);
    }
}

proof fn lemma_trail_lower(x: Seq<char>, lo: int, j: int)
    requires
        0 <= lo <= j <= x.len(),
    ensures
        trail(lower_all(x), lo, j) == trail(x, lo, j),
    decreases j - lo,
{
    if lo < j {
        lemma_lower_keeps_class(x[j - 1]);
        assert(lower_all(x)[j - 1] == lower(x[j - 1]));
        lemma_trail_lower(x, lo, j - 1);
    }
}

/// Every size is one of the two forms above: `max`, `unlimited` or
/// `infinity`, or digits and a known suffix with whitespace around them.
/// Anything else (an unknown suffix, a fraction, a sign, a number too large)
/// is no size at all.
pub proof fn lemma_size_forms(text: Seq<char>)
    requires
        size_of(text) is Some,
    ensures
        (lower_all(trim(text)) == "max"@ || lower_all(trim(text)) == "unlimited"@ || lower_all(trim(text))
            == "infinity"@) || exists|w1: Seq<char>, d: Seq<char>, w2: Seq<char>, s: Seq<char>, w3: Seq<char>|
            {
                &&& text == w1 + d + w2 + s + w3
                &&& blank(w1) && blank(w2) && blank(w3)
                &&& d.len() > 0 && all_digits(d)
                &&& size_unit(lower_all(s)) is Some
            },
{
    let t = trim(text);
    let l = lower_all(t);
    if !(l == "max"@ || l == "unlimited"@ || l == "infinity"@) {
        let a = lead(text, 0);
        crate::text::lemma_lead_bounds(text, 0);
        let b = trail(text, a, text.len() as int);
        crate::text::lemma_trail_bounds(text, a, text.len() as int);
        let e = digits_end(l, 0);
        lemma_digits_end_bounds(l, 0);
        let d = t.subrange(0, e);
        assert forall|k: int| 0 <= k < d.len() implies is_digit(#[trigger] d[k]) by {
            assert(l[k] == lower(t[k]));
            lemma_lower_keeps_class(t[k]);
        }
        let rt = t.subrange(e, t.len() as int);
        let rl = l.subrange(e, l.len() as int);
        assert(rl =~= lower_all(rt));
        lemma_lead_lower(rt, 0);
        crate::text::lemma_lead_bounds(rt, 0);
        let c = lead(rt, 0);
        lemma_trail_lower(rt, c, rt.len() as int);
        if rt.len() > 0 {
            assert(rt.last() == t.last());
            assert(t.last() == text[b - 1]);
            lemma_trail_to(rt, c, rt.len() as int, rt.len() as int);
        } else {
            lemma_trail_to(rt, c, rt.len() as int, rt.len() as int);
        }
        let w1 = text.subrange(0, a);
        let w2 = rt.subrange(0, c);
        let s = rt.subrange(c, rt.len() as int);
        let w3 = text.subrange(b, text.len() as int);
        assert(trim(rl) =~= lower_all(s));
        assert(text =~= w1 + d + w2 + s + w3);
        assert forall|k: int| 0 <= k < w1.len() implies is_ws(#[trigger] w1[k]) by {
            assert(w1[k] == text[k]);
        }
        assert forall|k: int| 0 <= k < w2.len() implies is_ws(#[trigger] w2[k]) by {
            assert(w2[k] == rt[k]);
        }
        assert forall|k: int| 0 <= k < w3.len() implies is_ws(#[trigger] w3[k]) by {
            assert(w3[k] == text[b + k]);
        }
        assert(blank(w1) && blank(w2) && blank(w3));
        assert(d.len() > 0 && all_digits(d));
    }
}

/// Parse "512", "64K", "2G" or "max" into a byte count.
///
/// Binary multiples throughout, suffixes matched case-insensitively with or
/// without `b`/`ib`, and a size that overflows is no size at all.
pub fn parse_size(text: &str) -> (r: Option<u64>)
    ensures
        r == size_of(text@),
{
    let v = chars_of(text);
    let t = trimmed(&v);
    if t.len() == 0 {
        return None;
    }
    let l = lowered(&t);
    if is_word(&l, "max") || is_word(&l, "unlimited") || is_word(&l, "infinity") {
        return Some(u64::MAX);
    }
    let e = skip_digits(&l, 0);
    proof {
        lemma_digits_end_bounds(l@, 0);
    }
    let number = if e == 0 {
        None
    } else {
        decimal_value(&l, 0, e)
    };
    let rest = slice_of(&l, e, l.len());
    let suffix = trimmed(&rest);
    let unit: u64 = if suffix.len() == 0 || is_word(&suffix, "b") {
        assert(suffix.len() == 0 ==> suffix@ =~= Seq::<char>::empty());
        1
    } else if is_word(&suffix, "k") || is_word(&suffix, "kb") || is_word(&suffix, "kib") {
        KIB
    } else if is_word(&suffix, "m") || is_word(&suffix, "mb") || is_word(&suffix, "mib") {
        MIB
    } else if is_word(&suffix, "g") || is_word(&suffix, "gb") || is_word(&suffix, "gib") {
        GIB
    } else if is_word(&suffix, "t") || is_word(&suffix, "tb") || is_word(&suffix, "tib") {
        TIB
    } else {
        return None;
    };
    match number {
        None => None,
        Some(n) => n.checked_mul(unit),
    }
}


/// The directory a service named `name` gets under the cgroup2 root `root`.
pub open spec fn service_dir(root: Seq<char>, name: Seq<char>) -> Seq<char> {
    join(join(root, SLICE_NAME@), name)
}

/// One service's cgroup: the directory, and the name it was made for.
pub struct Cgroup {
    path: String,
    name: String,
}

/// One value for one attribute file of a cgroup.
pub struct AttrWrite {
    pub file: String,
    pub value: String,
}

/// What [`Cgroup::apply`] asks of the filesystem, and what it has to say
/// about the definition.
pub struct Limits {
    pub writes: Vec<AttrWrite>,
    pub warnings: Vec<String>,
}

/// `weight` brought into `WEIGHT_MIN..=WEIGHT_MAX`.
pub open spec fn clamped(weight: u32) -> u32 {
    if weight < WEIGHT_MIN {
        WEIGHT_MIN
    } else if weight > WEIGHT_MAX {
        WEIGHT_MAX
    } else {
        weight
    }
}

pub open spec fn write_of(w: AttrWrite) -> (Seq<char>, Seq<char>) {
    (w.file@, w.value@)
}

/// The attribute writes a definition asks for, in the order they are made.
pub open spec fn limit_writes(config: ServiceConfig) -> Seq<(Seq<char>, Seq<char>)> {
    let memory = match config.memory_max {
        Some(text) => match size_of(text@) {
            Some(bytes) => if bytes == u64::MAX {
                seq![("memory.max"@, "max"@)]
            } else {
                seq![("memory.max"@, decimal_text(bytes as nat))]
            },
            None => Seq::empty(),
        },
        None => Seq::empty(),
    };
    let cpu = match config.cpu_weight {
        Some(w) => seq![("cpu.weight"@, decimal_text(clamped(w) as nat))],
        None => Seq::empty(),
    };
    let io = match config.io_weight {
        Some(w) => seq![("io.weight"@, decimal_text(clamped(w) as nat))],
        None => Seq::empty(),
    };
    memory + cpu + io
}

/// What the first of `writes` to `file` writes there, if any does.
pub open spec fn written(writes: Seq<(Seq<char>, Seq<char>)>, file: Seq<char>) -> Option<Seq<char>>
    decreases writes.len(),
{
    if writes.len() == 0 {
        None
    } else if writes[0].0 == file {
        Some(writes[0].1)
    } else {
        written(writes.drop_first(), file)
    }
}

/// A definition's limits touch only the three files it has fields for, each
/// at most once: `memory.max` holds the size, or `max` for no limit, and is
/// not touched when the field is unset or not a size; the weights are
/// written clamped into range; an unset field leaves its file alone.
pub proof fn lemma_limits_touch_what_is_set(config: ServiceConfig)
    ensures
        limit_writes(config).len() <= 3,
        forall|k: int|
            0 <= k < limit_writes(config).len() ==> {
                let f = #[trigger] limit_writes(config)[k].0;
                f == "memory.max"@ || f == "cpu.weight"@ || f == "io.weight"@
            },
        written(limit_writes(config), "memory.max"@) == match config.memory_max {
            Some(text) => match size_of(text@) {
                Some(bytes) => Some(if bytes == u64::MAX { "max"@ } else { decimal_text(bytes as nat) }),
                None => None,
            },
            None => None,
        },
        written(limit_writes(config), "cpu.weight"@) == match config.cpu_weight {
            Some(w) => Some(decimal_text(clamped(w) as nat)),
            None => None,
        },
        written(limit_writes(config), "io.weight"@) == match config.io_weight {
            Some(w) => Some(decimal_text(clamped(w) as nat)),
            None => None,
        },
{
    reveal_strlit("memory.max");
    reveal_strlit("cpu.weight");
    reveal_strlit("io.weight");
    assert("memory.max"@ != "cpu.weight"@ && "memory.max"@ != "io.weight"@ && "cpu.weight"@ != "io.weight"@) by {
        assert("memory.max"@[0] != "cpu.weight"@[0]);
        assert("memory.max"@[0] != "io.weight"@[0]);
        assert("cpu.weight"@[0] != "io.weight"@[0]);
    }
    reveal_with_fuel(written, 4);
}

/// The complaint about a `memory_max` that is not a size.
pub open spec fn bad_size_warning(name: Seq<char>, text: Seq<char>) -> Seq<char> {
    name + ": memory_max = \""@ + text + "\" is not a size; expected 512M, 2G or max"@
}

/// The complaint about a weight outside the kernel's range.
pub open spec fn weight_warning(name: Seq<char>, field: Seq<char>, weight: u32) -> Seq<char> {
    name + ": "@ + field + " = "@ + decimal_text(weight as nat) + " is outside 1..10000; using "@
        + decimal_text(clamped(weight) as nat)
}

/// What a definition has to be told, in the order it is said.
pub open spec fn limit_warnings(name: Seq<char>, config: ServiceConfig) -> Seq<Seq<char>> {
    let memory = match config.memory_max {
        Some(text) => if size_of(text@) is None {
            seq![bad_size_warning(name, text@)]
        } else {
            Seq::empty()
        },
        None => Seq::empty(),
    };
    let cpu = match config.cpu_weight {
        Some(w) => if clamped(w) != w {
            seq![weight_warning(name, "cpu_weight"@, w)]
        } else {
            Seq::empty()
        },
        None => Seq::empty(),
    };
    let io = match config.io_weight {
        Some(w) => if clamped(w) != w {
            seq![weight_warning(name, "io_weight"@, w)]
        } else {
            Seq::empty()
        },
        None => Seq::empty(),
    };
    memory + cpu + io
}

pub fn clamp_weight(weight: u32) -> (r: u32)
    ensures
        r == clamped(weight),
{
    if weight < WEIGHT_MIN {
        WEIGHT_MIN
    } else if weight > WEIGHT_MAX {
        WEIGHT_MAX
    } else {
        weight
    }
}

fn decimal_string(n: u64) -> (out: String)
    ensures
        out@ == decimal_text(n as nat),
{
    let mut out = String::new();
    push_decimal(&mut out, n);
    assert(Seq::<char>::empty() + decimal_text(n as nat) =~= decimal_text(n as nat));
    out
}

fn weight_complaint(name: &str, field: &str, weight: u32) -> (out: String)
    ensures
        out@ == weight_warning(name@, field@, weight),
{
    let mut out = name.to_owned();
    push_str(&mut out, ": ");
    push_str(&mut out, field);
    push_str(&mut out, " = ");
    push_decimal(&mut out, weight as u64);
    push_str(&mut out, " is outside 1..10000; using ");
    push_decimal(&mut out, clamp_weight(weight) as u64);
    out
}

impl Cgroup {
    pub closed spec fn dir(&self) -> Seq<char> {
        self.path@
    }

    pub closed spec fn service(&self) -> Seq<char> {
        self.name@
    }

    /// The cgroup a service named `name` has under `root`: `None` when the
    /// name cannot be a directory inside the slice, or when `root` is no
    /// usable cgroup2 tree (`cgroup2`, what the probe that sets the slice up
    /// found). Either way the service runs without resource control.
    pub fn for_service_in(root: &str, name: &str, cgroup2: bool) -> (r: Option<Cgroup>)
        ensures
            r is Some <==> usable_name(name@) && cgroup2,
            r matches Some(cg) ==> cg.dir() == service_dir(root@, name@) && cg.service() == name@,
    {
        if !name_is_usable(name) {
            return None;
        }
        if !cgroup2 {
            return None;
        }
        let slice = join_path(root, SLICE_NAME);
        let path = join_path(slice.as_str(), name);
        Some(Cgroup { path, name: name.to_owned() })
    }

    /// [`Cgroup::for_service_in`] under the machine's cgroup2 root.
    pub fn for_service(name: &str, cgroup2: bool) -> (r: Option<Cgroup>)
        ensures
            r is Some <==> usable_name(name@) && cgroup2,
            r matches Some(cg) ==> cg.dir() == service_dir(DEFAULT_ROOT@, name@) && cg.service()
                == name@,
    {
        Cgroup::for_service_in(DEFAULT_ROOT, name, cgroup2)
    }

    /// The cgroup `name` already has: one only when the name is usable and
    /// its directory is there (`present`). Never one that would have to be
    /// created.
    pub fn existing_in(root: &str, name: &str, present: bool) -> (r: Option<Cgroup>)
        ensures
            r is Some <==> usable_name(name@) && present,
            r matches Some(cg) ==> cg.dir() == service_dir(root@, name@) && cg.service() == name@,
    {
        if !present {
            return None;
        }
        Cgroup::for_service_in(root, name, true)
    }

    /// [`Cgroup::existing_in`] under the machine's cgroup2 root.
    pub fn existing(name: &str, present: bool) -> (r: Option<Cgroup>)
        ensures
            r is Some <==> usable_name(name@) && present,
            r matches Some(cg) ==> cg.dir() == service_dir(DEFAULT_ROOT@, name@) && cg.service()
                == name@,
    {
        Cgroup::existing_in(DEFAULT_ROOT, name, present)
    }

    /// The directory this cgroup is.
    pub fn path(&self) -> (r: &str)
        ensures
            r@ == self.dir(),
    {
        self.path.as_str()
    }

    /// The service this cgroup belongs to, for messages.
    pub fn name(&self) -> (r: &str)
        ensures
            r@ == self.service(),
    {
        self.name.as_str()
    }

    /// The limits that belong to the cgroup rather than to the process:
    /// `memory.max`, `cpu.weight` and `io.weight`, each written only when the
    /// definition sets it, and a weight brought into the kernel's range.
    /// A value that cannot be used costs that one setting and a warning.
    pub fn apply(&self, config: &ServiceConfig) -> (r: Limits)
        ensures
            r.writes@.map_values(|w: AttrWrite| write_of(w)) == limit_writes(*config),
            r.warnings@.map_values(|w: String| w@) == limit_warnings(self.service(), *config),
    {
        let mut writes: Vec<AttrWrite> = Vec::new();
        let mut warnings: Vec<String> = Vec::new();
        match &config.memory_max {
            Some(text) => match parse_size(text.as_str()) {
                Some(bytes) => {
                    let value = if bytes == u64::MAX {
                        "max".to_owned()
                    } else {
                        decimal_string(bytes)
                    };
                    writes.push(AttrWrite { file: "memory.max".to_owned(), value });
                },
                None => {
                    let mut w = self.name.clone();
                    push_str(&mut w, ": memory_max = \"");
                    push_str(&mut w, text.as_str());
                    push_str(&mut w, "\" is not a size; expected 512M, 2G or max");
                    warnings.push(w);
                },
            },
            None => {},
        }
        if let Some(weight) = config.cpu_weight {
            let clamped = clamp_weight(weight);
            if clamped != weight {
                warnings.push(weight_complaint(self.name.as_str(), "cpu_weight", weight));
            }
            writes.push(AttrWrite { file: "cpu.weight".to_owned(), value: decimal_string(clamped as u64) });
        }
        if let Some(weight) = config.io_weight {
            let clamped = clamp_weight(weight);
            if clamped != weight {
                warnings.push(weight_complaint(self.name.as_str(), "io_weight", weight));
            }
            writes.push(AttrWrite { file: "io.weight".to_owned(), value: decimal_string(clamped as u64) });
        }
        assert(writes@.map_values(|w: AttrWrite| write_of(w)) =~= limit_writes(*config));
        assert(warnings@.map_values(|w: String| w@) =~= limit_warnings(self.service(), *config));
        Limits { writes, warnings }
    }
}


impl Cgroup {
    /// Current charged memory, from the text of `memory.current` (`None`
    /// when the file could not be read).
    pub fn memory_current(&self, contents: Option<&str>) -> (r: Option<u64>)
        ensures
            r == counter_of(contents),
    {
        read_counter(contents)
    }

    /// How many processes the service has right now, from the text of
    /// `pids.current`.
    pub fn pids_current(&self, contents: Option<&str>) -> (r: Option<u64>)
        ensures
            r == counter_of(contents),
    {
        read_counter(contents)
    }

    /// The CPU time this cgroup has accumulated, from the text of
    /// `cpu.stat`.
    pub fn cpu_stat(&self, contents: Option<&str>) -> (r: Option<CpuStat>)
        ensures
            r == (match contents {
                None => None,
                Some(text) => Some(stat_of(lines(text@))),
            }),
    {
        match contents {
            None => None,
            Some(text) => Some(parse_cpu_stat(text)),
        }
    }

    /// The file a process writes its own pid into to join this cgroup.
    pub fn procs(&self) -> (r: String)
        ensures
            r@ == join(self.dir(), "cgroup.procs"@),
    {
        join_path(self.path.as_str(), "cgroup.procs")
    }
}

/// What a counter file holding `contents` says.
pub open spec fn counter_of(contents: Option<&str>) -> Option<u64> {
    match contents {
        None => None,
        Some(text) => parse_u64(trim(text@)),
    }
}

fn read_counter(contents: Option<&str>) -> (r: Option<u64>)
    ensures
        r == counter_of(contents),
{
    match contents {
        None => None,
        Some(text) => parse_trimmed_u64(text),
    }
}

/// The three numbers `cpu.stat` has that a supervisor can use.
#[derive(Clone, Copy, PartialEq, Eq, Structural, Debug)]
pub struct CpuStat {
    /// Total CPU time, microseconds.
    pub usage_usec: u64,
    /// Of which spent in user space.
    pub user_usec: u64,
    /// Of which spent in the kernel on this cgroup's behalf.
    pub system_usec: u64,
}

impl Default for CpuStat {
    fn default() -> (r: Self)
        ensures
            r == (CpuStat { usage_usec: 0, user_usec: 0, system_usec: 0 }),
    {
        CpuStat { usage_usec: 0, user_usec: 0, system_usec: 0 }
    }
}

/// One line of `cpu.stat` applied to what the lines before it said: a key
/// and a number, the later line winning.
pub open spec fn stat_line(stat: CpuStat, line: Seq<char>) -> CpuStat {
    let t = tokens(line);
    if t.len() < 2 {
        stat
    } else {
        match parse_u64(t[1]) {
            None => stat,
            Some(value) => if t[0] == "usage_usec"@ {
                CpuStat { usage_usec: value, ..stat }
            } else if t[0] == "user_usec"@ {
                CpuStat { user_usec: value, ..stat }
            } else if t[0] == "system_usec"@ {
                CpuStat { system_usec: value, ..stat }
            } else {
                stat
            },
        }
    }
}

/// What a whole `cpu.stat` says, line by line from zero.
pub open spec fn stat_of(ls: Seq<Seq<char>>) -> CpuStat
    decreases ls.len(),
{
    if ls.len() == 0 {
        CpuStat { usage_usec: 0, user_usec: 0, system_usec: 0 }
    } else {
        stat_line(stat_of(ls.drop_last()), ls.last())
    }
}

fn parse_cpu_stat(text: &str) -> (r: CpuStat)
    ensures
        r == stat_of(lines(text@)),
{
    let v = chars_of(text);
    let ls = split_lines(&v);
    let mut stat = CpuStat::default();
    let mut i: usize = 0;
    while i < ls.len()
        invariant
            i <= ls.len(),
            views(ls@) == lines(text@),
            stat == stat_of(views(ls@).subrange(0, i as int)),
        decreases ls.len() - i,
    {
        let t = split_ws(&ls[i]);
        assert(views(ls@).subrange(0, i + 1).drop_last() =~= views(ls@).subrange(0, i as int));
        if t.len() >= 2 {
            assert(t@[1]@.subrange(0, t@[1].len() as int) =~= t@[1]@);
            match parse_u64_in(&t[1], 0, t[1].len()) {
                None => {},
                Some(value) => {
                    if is_word_vec(&t[0], "usage_usec") {
                        stat.usage_usec = value;
                    } else if is_word_vec(&t[0], "user_usec") {
                        stat.user_usec = value;
                    } else if is_word_vec(&t[0], "system_usec") {
                        stat.system_usec = value;
                    }
                },
            }
        }
        i += 1;
    }
    assert(views(ls@).subrange(0, ls.len() as int) =~= views(ls@));
    stat
}

fn is_word_vec(v: &Vec<char>, word: &str) -> (r: bool)
    ensures
        r == (v@ == word@),
{
    crate::text::is_word(v, word)
}

/// The controllers init wants inside the slice, in the order they are asked
/// for.
pub open spec fn wanted_controllers() -> Seq<Seq<char>> {
    seq!["memory"@, "cpu"@, "io"@, "pids"@]
}

/// The controllers still to enable in a directory whose
/// `cgroup.controllers` reads `available` and whose `cgroup.subtree_control`
/// reads `enabled`: each wanted one the kernel has and that is not already on,
/// written one at a time so that one missing controller costs only itself.
pub open spec fn delegations(available: Seq<char>, enabled: Seq<char>) -> Seq<Seq<char>> {
    wanted_controllers().filter(
        |c: Seq<char>| tokens(available).contains(c) && !tokens(enabled).contains(c),
    )
}

/// [`delegations`] as values, each to be written as `+<controller>`.
pub fn controllers_to_enable(available: &str, enabled: &str) -> (r: Vec<String>)
    ensures
        r@.map_values(|c: String| c@) == delegations(available@, enabled@),
{
    let av = split_ws(&chars_of(available));
    let en = split_ws(&chars_of(enabled));
    let names: [&'static str; 4] = ["memory", "cpu", "io", "pids"];
    let mut out: Vec<String> = Vec::new();
    let ghost want = wanted_controllers();
    let ghost keep = |c: Seq<char>| tokens(available@).contains(c) && !tokens(enabled@).contains(c);
    assert(names@.map_values(|n: &str| n@) =~= want) by {
        reveal_strlit("memory");
        reveal_strlit("cpu");
        reveal_strlit("io");
        reveal_strlit("pids");
    }
    proof {
        reveal(Seq::filter);
        assert(want.subrange(0, 0).filter(keep) =~= Seq::<Seq<char>>::empty());
    }
    let mut i: usize = 0;
    while i < 4
        invariant
            i <= 4,
            names@.map_values(|n: &str| n@) == want,
            want == wanted_controllers(),
            views(av@) == tokens(available@),
            views(en@) == tokens(enabled@),
            keep == (|c: Seq<char>| tokens(available@).contains(c) && !tokens(enabled@).contains(c)),
            out@.map_values(|c: String| c@) == want.subrange(0, i as int).filter(keep),
        decreases 4 - i,
    {
        let name = names[i];
        assert(want.subrange(0, i + 1).drop_last() =~= want.subrange(0, i as int));
        assert(want[i as int] == name@);
        if has_token(&av, name) && !has_token(&en, name) {
            out.push(name.to_owned());
        }
        proof {
            reveal(Seq::filter);
        }
        assert(out@.map_values(|c: String| c@) =~= want.subrange(0, i + 1).filter(keep));
        i += 1;
    }
    assert(want.subrange(0, 4) =~= want);
    out
}


/// The per-process limits a definition can set, by `setrlimit` resource.
#[derive(Clone, Copy, PartialEq, Eq, Structural, Debug)]
pub enum Rlimit {
    Nofile,
    Nproc,
    Memlock,
    Core,
}

/// The complaint about a size limit that is not a size.
pub open spec fn bad_limit_warning(service: Seq<char>, field: Seq<char>, text: Seq<char>) -> Seq<
    char,
> {
    service + ": limits."@ + field + " = \""@ + text + "\" is not a size; expected 64M, 0 or unlimited"@
}

/// A size limit, if it is set and is a size.
pub open spec fn size_limit(r: Rlimit, text: Option<String>) -> Seq<(Rlimit, u64)> {
    match text {
        Some(t) => match size_of(t@) {
            Some(bytes) => seq![(r, bytes)],
            None => Seq::empty(),
        },
        None => Seq::empty(),
    }
}

/// A count limit, if it is set.
pub open spec fn count_limit(r: Rlimit, n: Option<u64>) -> Seq<(Rlimit, u64)> {
    match n {
        Some(n) => seq![(r, n)],
        None => Seq::empty(),
    }
}

/// The `setrlimit` calls a `[services.limits]` table asks for, soft and hard
/// alike, in the order they are made.
pub open spec fn rlimit_settings(limits: ResourceLimits) -> Seq<(Rlimit, u64)> {
    count_limit(Rlimit::Nofile, limits.nofile) + count_limit(Rlimit::Nproc, limits.nproc)
        + size_limit(Rlimit::Memlock, limits.memlock) + size_limit(Rlimit::Core, limits.core)
}

pub open spec fn size_complaint(service: Seq<char>, field: Seq<char>, text: Option<String>) -> Seq<
    Seq<char>,
> {
    match text {
        Some(t) => if size_of(t@) is None {
            seq![bad_limit_warning(service, field, t@)]
        } else {
            Seq::empty()
        },
        None => Seq::empty(),
    }
}

/// What a `[services.limits]` table has to be told.
pub open spec fn rlimit_warnings(service: Seq<char>, limits: ResourceLimits) -> Seq<Seq<char>> {
    size_complaint(service, "memlock"@, limits.memlock) + size_complaint(service, "core"@, limits.core)
}

/// Turn a service's `[services.limits]` table into `setrlimit` arguments and
/// the warnings for the sizes that could not be read.
pub fn rlimits_for(service: &str, limits: &ResourceLimits) -> (r: (Vec<(Rlimit, u64)>, Vec<String>))
    ensures
        r.0@ == rlimit_settings(*limits),
        r.1@.map_values(|w: String| w@) == rlimit_warnings(service@, *limits),
{
    let mut out: Vec<(Rlimit, u64)> = Vec::new();
    let mut warnings: Vec<String> = Vec::new();
    if let Some(n) = limits.nofile {
        out.push((Rlimit::Nofile, n));
    }
    if let Some(n) = limits.nproc {
        out.push((Rlimit::Nproc, n));
    }
    let ghost counts = out@;
    size_setting(service, "memlock", &limits.memlock, Rlimit::Memlock, &mut out, &mut warnings);
    let ghost after_memlock = out@;
    let ghost warned = warnings@;
    size_setting(service, "core", &limits.core, Rlimit::Core, &mut out, &mut warnings);
    assert(out@ =~= rlimit_settings(*limits));
    assert(warnings@.map_values(|w: String| w@) =~= rlimit_warnings(service@, *limits));
    (out, warnings)
}

fn size_setting(
    service: &str,
    field: &str,
    text: &Option<String>,
    resource: Rlimit,
    out: &mut Vec<(Rlimit, u64)>,
    warnings: &mut Vec<String>,
)
    ensures
        final(out)@ == old(out)@ + size_limit(resource, *text),
        final(warnings)@.map_values(|w: String| w@) == old(warnings)@.map_values(|w: String| w@)
            + size_complaint(service@, field@, *text),
{
    match text {
        Some(t) => match parse_size(t.as_str()) {
            Some(bytes) => {
                out.push((resource, bytes));
                assert(final(out)@ =~= old(out)@ + size_limit(resource, *text));
                assert(warnings@.map_values(|w: String| w@) =~= old(warnings)@.map_values(|w: String| w@)
                    + size_complaint(service@, field@, *text));
            },
            None => {
                let mut w = service.to_owned();
                push_str(&mut w, ": limits.");
                push_str(&mut w, field);
                push_str(&mut w, " = \"");
                push_str(&mut w, t.as_str());
                push_str(&mut w, "\" is not a size; expected 64M, 0 or unlimited");
                warnings.push(w);
                assert(out@ =~= old(out)@ + size_limit(resource, *text));
                assert(warnings@.map_values(|w: String| w@) =~= old(warnings)@.map_values(|w: String| w@)
                    + size_complaint(service@, field@, *text));
            },
        },
        None => {
            assert(out@ =~= old(out)@ + size_limit(resource, *text));
            assert(warnings@.map_values(|w: String| w@) =~= old(warnings)@.map_values(|w: String| w@)
                + size_complaint(service@, field@, *text));
        },
    }
}

/// Everything that has to be done to the service process itself between
/// `fork` and `exec`, worked out beforehand.
pub struct ChildResources {
    /// This service's `cgroup.procs`, or `None` for a service with no usable
    /// cgroup.
    pub procs: Option<String>,
    /// The exact text to write to `/proc/self/oom_score_adj`, if the service
    /// asked for a value other than the inherited zero.
    pub oom_score_adj: Option<String>,
    /// The nice value to ask for, if it is not the default.
    pub nice: Option<i32>,
    /// `setrlimit` arguments, resource by resource.
    pub rlimits: Vec<(Rlimit, u64)>,
}

impl ChildResources {
    /// Work out, in the parent, everything the child will need, and what the
    /// definition has to be told.
    pub fn prepare(config: &ServiceConfig, cgroup: Option<&Cgroup>) -> (r: (ChildResources, Vec<String>))
        ensures
            r.0.procs matches Some(p) ==> cgroup matches Some(cg) && p@ == join(cg.dir(), "cgroup.procs"@),
            r.0.procs is None <==> cgroup is None,
            r.0.oom_score_adj matches Some(t) ==> t@ == signed_text(config.oom_score_adj as int) + "\n"@,
            r.0.oom_score_adj is None <==> config.oom_score_adj == 0,
            r.0.nice == (if config.nice == 0 { None } else { Some(config.nice as i32) }),
            r.0.rlimits@ == rlimit_settings(config.limits),
            r.1@.map_values(|w: String| w@) == rlimit_warnings(config.name@, config.limits),
    {
        let procs = match cgroup {
            Some(cg) => Some(cg.procs()),
            None => None,
        };
        let oom_score_adj = if config.oom_score_adj == 0 {
            None
        } else {
            let mut t = String::new();
            push_signed(&mut t, config.oom_score_adj as i64);
            push_str(&mut t, "\n");
            assert(Seq::<char>::empty() + signed_text(config.oom_score_adj as int) =~= signed_text(config.oom_score_adj as int));
            Some(t)
        };
        let nice = if config.nice == 0 {
            None
        } else {
            Some(config.nice as i32)
        };
        let (rlimits, warnings) = rlimits_for(config.name.as_str(), &config.limits);
        (ChildResources { procs, oom_score_adj, nice, rlimits }, warnings)
    }

    /// True when there is nothing to do in the child.
    pub fn is_empty(&self) -> (r: bool)
        ensures
            r == (self.procs is None && self.oom_score_adj is None && self.nice is None
                && self.rlimits@.len() == 0),
    {
        self.procs.is_none() && self.oom_score_adj.is_none() && self.nice.is_none()
            && self.rlimits.len() == 0
    }
}

} // verus!
