//! Removable media: which block devices are mounted, where, with what
//! options, and what the kernel's mount tables and uevents say.
//!
//! Walking sysfs, calling mount(2) and listening on the uevent socket are the
//! program's part.
use vstd::prelude::*;

use vstd::utf8::{decode_utf8, valid_utf8};

use crate::demand::{lemma_nul_from_bounds, nul_from, pair_of};
use crate::quantity::{as_double, double_value, point1, push_point1, round_div, round_half_even};
use crate::text::{
    chars_of, decimal_text, lead, push_char, push_decimal, push_str, slice_of, trim, trimmed,
    to_string,
};

verus! {

/// Where removable volumes appear.
pub const MEDIA_ROOT: &'static str = "/media";

/// One file per volume this daemon mounted, on a tmpfs.
pub const STATE_DIR: &'static str = "/run/raven-mount";

/// Filesystems that are a container for something else rather than something
/// to mount.
pub const NOT_MOUNTABLE: [&'static str; 7] = [
    "swap",
    "crypto_LUKS",
    "LVM2_member",
    "linux_raid_member",
    "zfs_member",
    "bcache",
    "DM_snapshot_cow",
];

/// mount(2) flags, with the kernel's bit values.
#[derive(Clone, Copy, PartialEq, Eq, Structural, Debug)]
pub struct MountFlags {
    pub bits: u64,
}

pub const MS_RDONLY: u64 = 1;
pub const MS_NOSUID: u64 = 2;
pub const MS_NODEV: u64 = 4;
pub const MS_NOEXEC: u64 = 8;
pub const MS_SYNCHRONOUS: u64 = 16;
pub const MS_REMOUNT: u64 = 32;
pub const MS_DIRSYNC: u64 = 128;
pub const MS_NOATIME: u64 = 1024;
pub const MS_NODIRATIME: u64 = 2048;
pub const MS_BIND: u64 = 4096;
pub const MS_RELATIME: u64 = 2097152;
pub const MS_STRICTATIME: u64 = 16777216;

impl MountFlags {
    pub fn empty() -> (r: MountFlags)
        ensures
            r.bits == 0,
    {
        MountFlags { bits: 0 }
    }

    /// Whether every bit of `mask` is set.
    pub fn contains(self, mask: u64) -> (r: bool)
        ensures
            r == (self.bits & mask == mask),
    {
        self.bits & mask == mask
    }
}

/// A block device far enough identified to decide what to do with it.
#[derive(Clone)]
pub struct Volume {
    /// Kernel name, as in /sys/class/block: `sdb1`, `mmcblk0p1`, `sr0`.
    pub kname: String,
    pub dev: String,
    /// The whole-disk device this sits on; equal to `kname` for a whole disk.
    pub disk: String,
    pub fstype: Option<String>,
    pub label: Option<String>,
    pub uuid: Option<String>,
    /// Size in bytes.
    pub size: u64,
    pub removable: bool,
    /// Where it is mounted now, whoever mounted it.
    pub mounted_at: Option<String>,
}

/// The name to show a person: the label with the device, or the device.
pub open spec fn display_of(v: Volume) -> Seq<char> {
    match v.label {
        Some(l) => l@ + " ("@ + v.kname@ + ")"@,
        None => v.kname@,
    }
}

pub open spec fn not_mountable(fstype: Seq<char>) -> bool {
    exists|i: int| 0 <= i < 7 && NOT_MOUNTABLE@[i]@ == fstype
}

/// Whether a volume should be mounted on arrival: removable, not already
/// mounted, not on a disk the running system uses, and holding a filesystem
/// rather than a container.
pub open spec fn candidate(v: Volume, protected: Seq<Seq<char>>) -> bool {
    &&& v.mounted_at is None
    &&& v.removable
    &&& !protected.contains(v.disk@)
    &&& v.fstype matches Some(t) && t@.len() > 0 && !not_mountable(t@)
}

pub fn is_not_mountable(fstype: &str) -> (r: bool)
    ensures
        r == not_mountable(fstype@),
{
    let f = chars_of(fstype);
    let mut i: usize = 0;
    while i < 7
        invariant
            i <= 7,
            f@ == fstype@,
            forall|k: int| 0 <= k < i ==> NOT_MOUNTABLE@[k]@ != fstype@,
        decreases 7 - i,
    {
        if crate::text::same(&chars_of(NOT_MOUNTABLE[i]), &f) {
            return true;
        }
        i += 1;
    }
    false
}

impl Volume {
    pub fn display(&self) -> (r: String)
        ensures
            r@ == display_of(*self),
    {
        match &self.label {
            Some(l) => {
                let mut r = l.clone();
                push_str(&mut r, " (");
                push_str(&mut r, self.kname.as_str());
                push_str(&mut r, ")");
                r
            },
            None => self.kname.clone(),
        }
    }

    pub fn is_candidate(&self, protected: &Vec<String>) -> (r: bool)
        ensures
            r == candidate(*self, protected@.map_values(|p: String| p@)),
    {
        if self.mounted_at.is_some() || !self.removable {
            return false;
        }
        let disk = chars_of(self.disk.as_str());
        let mut i: usize = 0;
        while i < protected.len()
            invariant
                i <= protected.len(),
                disk@ == self.disk@,
                forall|k: int| 0 <= k < i ==> (#[trigger] protected@[k])@ != self.disk@,
            decreases protected.len() - i,
        {
            if crate::text::same(&chars_of(protected[i].as_str()), &disk) {
                assert(protected@.map_values(|p: String| p@)[i as int] == self.disk@);
                return false;
            }
            i += 1;
        }
        assert(!protected@.map_values(|p: String| p@).contains(self.disk@));
        match &self.fstype {
            None => false,
            Some(t) => !t.as_str().is_empty() && !is_not_mountable(t.as_str()),
        }
    }
}

/// A byte count with the largest binary unit up to T that leaves at least
/// one, to one decimal; plain bytes below a KiB.
pub open spec fn size_text(bytes: u64) -> Seq<char> {
    let f = as_double(bytes as nat);
    if f < 1024 {
        decimal_text(bytes as nat) + "B"@
    } else if f < 1048576 {
        point1(round_div(f * 10, 1024)) + "K"@
    } else if f < 1073741824 {
        point1(round_div(f * 10, 1048576)) + "M"@
    } else if f < 1099511627776 {
        point1(round_div(f * 10, 1073741824)) + "G"@
    } else {
        point1(round_div(f * 10, 1099511627776)) + "T"@
    }
}

pub fn human(bytes: u64) -> (r: String)
    ensures
        r@ == size_text(bytes),
{
    let f = double_value(bytes);
    let mut r = String::new();
    if f < 1024 {
        push_decimal(&mut r, bytes);
        push_str(&mut r, "B");
    } else if f < 1048576 {
        push_point1(&mut r, round_half_even(f * 10, 1024));
        push_str(&mut r, "K");
    } else if f < 1073741824 {
        push_point1(&mut r, round_half_even(f * 10, 1048576));
        push_str(&mut r, "M");
    } else if f < 1099511627776 {
        push_point1(&mut r, round_half_even(f * 10, 1073741824));
        push_str(&mut r, "G");
    } else {
        push_point1(&mut r, round_half_even(f * 10, 1099511627776));
        push_str(&mut r, "T");
    }
    assert(Seq::<char>::empty() + size_text(bytes) =~= size_text(bytes));
    r
}

/// A character a mount label may keep as it is.
pub open spec fn label_char(c: char) -> bool {
    ('a' <= c && c <= 'z') || ('A' <= c && c <= 'Z') || ('0' <= c && c <= '9') || c == '-' || c
        == '_' || c == '.' || c == '+'
}

pub open spec fn edge_char(c: char) -> bool {
    c == '_' || c == '.'
}

pub open spec fn cleaned(s: Seq<char>) -> Seq<char> {
    s.map_values(|c: char| if label_char(c) { c } else { '_' })
}

/// The first index at or after `i` that is not `_` or `.`.
pub open spec fn edge_lead(s: Seq<char>, i: int) -> int
    decreases s.len() - i,
{
    if 0 <= i < s.len() && edge_char(s[i]) {
        edge_lead(s, i + 1)
    } else {
        i
    }
}

/// Walking back from `j`, no further than `lo`, past `_` and `.`.
pub open spec fn edge_trail(s: Seq<char>, lo: int, j: int) -> int
    decreases j - lo,
{
    if lo < j && j <= s.len() && edge_char(s[j - 1]) {
        edge_trail(s, lo, j - 1)
    } else {
        j
    }
}

/// A volume label made into a safe single path component: anything but
/// letters, digits and `-_.+` becomes `_`, `_` and `.` are taken off both
/// ends so nothing can climb out of /media or hide, and at most 64 characters
/// are kept; `None` when nothing is left.
pub open spec fn sanitized(label: Seq<char>) -> Option<Seq<char>> {
    let c = cleaned(trim(label));
    let a = edge_lead(c, 0);
    let b = edge_trail(c, a, c.len() as int);
    let kept = c.subrange(a, b);
    if kept.len() == 0 {
        None
    } else if kept.len() > 64 {
        Some(kept.subrange(0, 64))
    } else {
        Some(kept)
    }
}

proof fn lemma_edge_lead(s: Seq<char>, i: int)
    requires
        0 <= i <= s.len(),
    ensures
        i <= edge_lead(s, i) <= s.len(),
    decreases s.len() - i,
{
    if i < s.len() && edge_char(s[i]) {
        lemma_edge_lead(s, i + 1);
    }
}

proof fn lemma_edge_trail(s: Seq<char>, lo: int, j: int)
    requires
        0 <= lo <= j <= s.len(),
    ensures
        lo <= edge_trail(s, lo, j) <= j,
    decreases j - lo,
{
    if lo < j && edge_char(s[j - 1]) {
        lemma_edge_trail(s, lo, j - 1);
    }
}

proof fn lemma_edge_lead_stops(s: Seq<char>, i: int)
    requires
        0 <= i <= s.len(),
    ensures
        edge_lead(s, i) < s.len() ==> !edge_char(s[edge_lead(s, i)]),
    decreases s.len() - i,
{
    if i < s.len() && edge_char(s[i]) {
        lemma_edge_lead_stops(s, i + 1);
    }
}

/// A sanitized label is one path component that cannot climb out of
/// /media or hide: one to 64 characters, each a letter, a digit or one of
/// `-_.+` (so never `/`), and never starting with `.` or `_`.
pub proof fn lemma_sanitized_is_one_component(label: Seq<char>)
    ensures
        sanitized(label) matches Some(s) ==> {
            &&& 0 < s.len() <= 64
            &&& forall|k: int| 0 <= k < s.len() ==> label_char(#[trigger] s[k])
            &&& s[0] != '.' && s[0] != '_'
        },
{
    let c = cleaned(trim(label));
    lemma_edge_lead(c, 0);
    lemma_edge_lead_stops(c, 0);
    let a = edge_lead(c, 0);
    lemma_edge_trail(c, a, c.len() as int);
    let b = edge_trail(c, a, c.len() as int);
    let kept = c.subrange(a, b);
    assert forall|k: int| 0 <= k < c.len() implies label_char(#[trigger] c[k]) by {
        let ch = trim(label)[k];
        assert(c[k] == if label_char(ch) { ch } else { '_' });
    }
    if kept.len() > 0 {
        assert(kept[0] == c[a]);
        assert(!edge_char(c[a]));
        assert forall|k: int| 0 <= k < kept.len() implies label_char(#[trigger] kept[k]) by {
            assert(kept[k] == c[a + k]);
        }
        if kept.len() > 64 {
            let t = kept.subrange(0, 64);
            assert forall|k: int| 0 <= k < t.len() implies label_char(#[trigger] t[k]) by {
                assert(t[k] == kept[k]);
            }
            assert(t[0] == kept[0]);
        }
    }
}

pub fn sanitize(label: &str) -> (r: Option<String>)
    ensures
        match r {
            None => sanitized(label@) is None,
            Some(s) => sanitized(label@) == Some(s@),
        },
{
    let t = trimmed(&chars_of(label));
    let mut c: Vec<char> = Vec::new();
    let mut i: usize = 0;
    while i < t.len()
        invariant
            i <= t.len(),
            c@ == cleaned(t@.subrange(0, i as int)),
        decreases t.len() - i,
    {
        let ch = t[i];
        let keep = ('a' <= ch && ch <= 'z') || ('A' <= ch && ch <= 'Z') || ('0' <= ch && ch <= '9')
            || ch == '-' || ch == '_' || ch == '.' || ch == '+';
        c.push(if keep { ch } else { '_' });
        assert(cleaned(t@.subrange(0, i + 1)) =~= cleaned(t@.subrange(0, i as int)).push(
            if label_char(ch) { ch } else { '_' },
        ));
        i += 1;
    }
    assert(t@.subrange(0, t.len() as int) =~= t@);
    let mut a: usize = 0;
    while a < c.len() && (c[a] == '_' || c[a] == '.')
        invariant
            a <= c.len(),
            edge_lead(c@, a as int) == edge_lead(c@, 0),
        decreases c.len() - a,
    {
        a += 1;
    }
    let mut b: usize = c.len();
    while b > a && (c[b - 1] == '_' || c[b - 1] == '.')
        invariant
            a <= b <= c.len(),
            edge_trail(c@, a as int, b as int) == edge_trail(c@, a as int, c.len() as int),
        decreases b - a,
    {
        b -= 1;
    }
    if b == a {
        return None;
    }
    let end = if b - a > 64 {
        a + 64
    } else {
        b
    };
    assert(c@.subrange(a as int, b as int).subrange(0, 64) =~= c@.subrange(a as int, a + 64) || b - a <= 64);
    Some(crate::text::string_of(&c, a, end))
}

/// A UUID's first eight characters once its dashes are gone.
pub open spec fn uuid_short(u: Seq<char>) -> Seq<char> {
    let f = u.filter(|c: char| c != '-');
    if f.len() > 8 {
        f.subrange(0, 8)
    } else {
        f
    }
}

/// What a volume's mountpoint is called: its label made safe, or failing
/// that its filesystem type and the start of its UUID, or failing that its
/// kernel name.
pub open spec fn base_name(v: Volume) -> Seq<char> {
    let by_label = match v.label {
        Some(l) => sanitized(l@),
        None => None,
    };
    match by_label {
        Some(b) => b,
        None => match v.uuid {
            Some(u) => {
                let kind = match v.fstype {
                    Some(t) => t@,
                    None => "disk"@,
                };
                match sanitized(kind + "-"@ + uuid_short(u@)) {
                    Some(b) => b,
                    None => v.kname@,
                }
            },
            None => v.kname@,
        },
    }
}

fn short_uuid(u: &str) -> (r: String)
    ensures
        r@ == uuid_short(u@),
{
    let v = chars_of(u);
    let mut f: Vec<char> = Vec::new();
    let mut i: usize = 0;
    while i < v.len()
        invariant
            i <= v.len(),
            f@ == v@.subrange(0, i as int).filter(|c: char| c != '-'),
        decreases v.len() - i,
    {
        proof {
            reveal(Seq::filter);
            assert(v@.subrange(0, i + 1).drop_last() =~= v@.subrange(0, i as int));
        }
        if v[i] != '-' {
            f.push(v[i]);
        }
        assert(f@ =~= v@.subrange(0, i + 1).filter(|c: char| c != '-'));
        i += 1;
    }
    assert(v@.subrange(0, v.len() as int) =~= v@);
    if f.len() > 8 {
        crate::text::string_of(&f, 0, 8)
    } else {
        crate::text::string_of(&f, 0, f.len())
    }
}

/// [`base_name`].
pub fn mountpoint_base(v: &Volume) -> (r: String)
    ensures
        r@ == base_name(*v),
{
    if let Some(l) = &v.label {
        if let Some(b) = sanitize(l.as_str()) {
            return b;
        }
    }
    match &v.uuid {
        Some(u) => {
            let mut text = match &v.fstype {
                Some(t) => t.clone(),
                None => "disk".to_owned(),
            };
            proof {
                reveal_strlit("disk");
            }
            push_str(&mut text, "-");
            let short = short_uuid(u.as_str());
            push_str(&mut text, short.as_str());
            match sanitize(text.as_str()) {
                Some(b) => b,
                None => v.kname.clone(),
            }
        },
        None => v.kname.clone(),
    }
}

/// The name tried on the `attempt`th try, from zero: the base, then the base
/// with `-2`, `-3` and so on.
pub open spec fn mountpoint_try(base: Seq<char>, attempt: u32) -> Seq<char> {
    if attempt == 0 {
        base
    } else {
        base + "-"@ + decimal_text(attempt as nat + 1)
    }
}

/// [`mountpoint_try`].
pub fn mountpoint_name(base: &str, attempt: u32) -> (r: String)
    requires
        attempt < u32::MAX,
    ensures
        r@ == mountpoint_try(base@, attempt),
{
    let mut r = base.to_owned();
    if attempt > 0 {
        push_str(&mut r, "-");
        push_decimal(&mut r, attempt as u64 + 1);
    }
    r
}

pub open spec fn is_octal(c: char) -> bool {
    '0' <= c && c <= '7'
}

/// `u32::from_str_radix(digits, 8)` on exactly three characters, as the
/// value of the character it names.
pub open spec fn octal3(d: Seq<char>) -> Option<u32> {
    if d.len() != 3 {
        None
    } else if d[0] == '+' {
        None
    } else if is_octal(d[0]) && is_octal(d[1]) && is_octal(d[2]) {
        Some(
            ((d[0] as u32 - '0' as u32) * 64 + (d[1] as u32 - '0' as u32) * 8 + (d[2] as u32 - '0' as u32)) as u32,
        )
    } else {
        None
    }
}

/// `+` followed by two octal digits also parses, to a number below 64.
pub open spec fn octal3_signed(d: Seq<char>) -> Option<u32> {
    if d.len() == 3 && d[0] == '+' && is_octal(d[1]) && is_octal(d[2]) {
        Some(((d[1] as u32 - '0' as u32) * 8 + (d[2] as u32 - '0' as u32)) as u32)
    } else {
        octal3(d)
    }
}

/// The escapes of a /proc/self/mountinfo field decoded from index `i` on: a
/// backslash and three octal digits is one character; a backslash followed by
/// anything else is kept as it is.
pub open spec fn unescape_from(s: Seq<char>, i: int) -> Seq<char>
    decreases s.len() - i,
{
    if i < 0 || i >= s.len() {
        Seq::empty()
    } else if s[i] != '\\' {
        seq![s[i]] + unescape_from(s, i + 1)
    } else {
        let end = if i + 4 <= s.len() {
            i + 4
        } else {
            s.len() as int
        };
        match octal3_signed(s.subrange(i + 1, end)) {
            Some(v) => seq![v as char] + unescape_from(s, end),
            None => seq![s[i]] + unescape_from(s, i + 1),
        }
    }
}

fn octal_at(v: &Vec<char>, i: usize) -> (r: Option<char>)
    requires
        i < v.len(),
    ensures
        match r {
            Some(c) => octal3_signed(v@.subrange(i + 1, if i + 4 <= v.len() { i + 4 } else { v.len() as int })) matches Some(n) && c == n as char,
            None => octal3_signed(v@.subrange(i + 1, if i + 4 <= v.len() { i + 4 } else { v.len() as int })) is None,
        },
{
    if v.len() - i < 4 {
        assert(v@.subrange(i + 1, v.len() as int).len() != 3);
        return None;
    }
    let a = v[i + 1];
    let b = v[i + 2];
    let c = v[i + 3];
    let oa = '0' <= a && a <= '7';
    let ob = '0' <= b && b <= '7';
    let oc = '0' <= c && c <= '7';
    if a == '+' && ob && oc {
        let n: u8 = ((b as u8) - 48) * 8 + ((c as u8) - 48);
        return Some(n as char);
    }
    if oa && ob && oc {
        let n: u32 = ((a as u32) - 48) * 64 + ((b as u32) - 48) * 8 + ((c as u32) - 48);
        assert(n < 512);
        let x: u16 = n as u16;
        return Some(char_of(x));
    }
    None
}

/// The character with a code below 512.
fn char_of(n: u16) -> (c: char)
    requires
        n < 512,
    ensures
        c == (n as u32) as char,
{
    if n < 256 {
        (n as u8) as char
    } else {
        let hi: u8 = (n - 256) as u8;
        latin_extended(hi)
    }
}

/// The character `U+0100 + n`.
#[verifier::external_body]
fn latin_extended(n: u8) -> (c: char)
    ensures
        c == ((256 + n as u32) as u32) as char,
{
    char::from_u32(256 + n as u32).unwrap_or('\u{100}')
}

pub fn unescape_mount(field: &str) -> (r: String)
    ensures
        r@ == unescape_from(field@, 0),
{
    let v = chars_of(field);
    let mut out = String::new();
    let mut i: usize = 0;
    while i < v.len()
        invariant
            i <= v.len(),
            out@ + unescape_from(v@, i as int) == unescape_from(v@, 0),
        decreases v.len() - i,
    {
        let ghost before = out@;
        if v[i] != '\\' {
            push_char(&mut out, v[i]);
            assert(before + unescape_from(v@, i as int) =~= out@ + unescape_from(v@, i + 1));
            i += 1;
        } else {
            match octal_at(&v, i) {
                Some(c) => {
                    push_char(&mut out, c);
                    assert(v.len() - i >= 4);
                    assert(before + unescape_from(v@, i as int) =~= out@ + unescape_from(v@, i + 4));
                    i += 4;
                },
                None => {
                    push_char(&mut out, '\\');
                    assert(before + unescape_from(v@, i as int) =~= out@ + unescape_from(v@, i + 1));
                    i += 1;
                },
            }
        }
    }
    assert(out@ + Seq::<char>::empty() =~= out@);
    out
}


/// The data string a removable filesystem is mounted with, giving the
/// session's user ownership where the filesystem stores none of its own.
pub open spec fn options_data(fstype: Seq<char>, uid: u32, gid: u32) -> Seq<char> {
    let ids = "uid="@ + decimal_text(uid as nat) + ",gid="@ + decimal_text(gid as nat);
    let owned = ids + ",fmask=0133,dmask=0022"@;
    if fstype == "vfat"@ || fstype == "msdos"@ {
        owned + ",utf8=1,flush"@
    } else if fstype == "exfat"@ {
        owned + ",iocharset=utf8"@
    } else if fstype == "ntfs3"@ || fstype == "ntfs"@ {
        owned + ",windows_names,nls=utf8"@
    } else if fstype == "hfsplus"@ || fstype == "hfs"@ {
        ids + ",nls=utf8"@
    } else if fstype == "iso9660"@ || fstype == "udf"@ {
        ids + ",iocharset=utf8"@
    } else {
        Seq::empty()
    }
}

/// The flags: never setuid, device nodes or access times, and read-only for
/// the optical formats.
pub open spec fn options_flags(fstype: Seq<char>) -> u64 {
    let base = MS_NOSUID | MS_NODEV | MS_NOATIME;
    if fstype == "iso9660"@ || fstype == "udf"@ {
        base | MS_RDONLY
    } else {
        base
    }
}

fn ids_text(uid: u32, gid: u32) -> (r: String)
    ensures
        r@ == "uid="@ + decimal_text(uid as nat) + ",gid="@ + decimal_text(gid as nat),
{
    let mut r = "uid=".to_owned();
    push_decimal(&mut r, uid as u64);
    push_str(&mut r, ",gid=");
    push_decimal(&mut r, gid as u64);
    r
}

/// How a removable filesystem of type `fstype` is mounted for `uid`/`gid`.
pub fn options(fstype: &str, uid: u32, gid: u32) -> (r: (MountFlags, String))
    ensures
        r.0.bits == options_flags(fstype@),
        r.1@ == options_data(fstype@, uid, gid),
{
    let f = chars_of(fstype);
    let base = MS_NOSUID | MS_NODEV | MS_NOATIME;
    let ids = ids_text(uid, gid);
    let mut owned = ids.clone();
    push_str(&mut owned, ",fmask=0133,dmask=0022");
    let optical = crate::text::is_word(&f, "iso9660") || crate::text::is_word(&f, "udf");
    let flags = MountFlags { bits: if optical { base | MS_RDONLY } else { base } };
    if crate::text::is_word(&f, "vfat") || crate::text::is_word(&f, "msdos") {
        push_str(&mut owned, ",utf8=1,flush");
        (flags, owned)
    } else if crate::text::is_word(&f, "exfat") {
        push_str(&mut owned, ",iocharset=utf8");
        (flags, owned)
    } else if crate::text::is_word(&f, "ntfs3") || crate::text::is_word(&f, "ntfs") {
        push_str(&mut owned, ",windows_names,nls=utf8");
        (flags, owned)
    } else if crate::text::is_word(&f, "hfsplus") || crate::text::is_word(&f, "hfs") {
        let mut d = ids;
        push_str(&mut d, ",nls=utf8");
        (flags, d)
    } else if optical {
        let mut d = ids;
        push_str(&mut d, ",iocharset=utf8");
        (flags, d)
    } else {
        (flags, String::new())
    }
}

/// The ladder of attempts a mount gives ground on: the full options, then
/// only the ids, then none, then the same three read-only -- with an
/// attempt equal to the one before it left out.
pub open spec fn ladder(fstype: Seq<char>, uid: u32, gid: u32) -> Seq<(u64, Seq<char>)> {
    let flags = options_flags(fstype);
    let data = options_data(fstype, uid, gid);
    let minimal = if data.len() == 0 {
        Seq::<char>::empty()
    } else {
        "uid="@ + decimal_text(uid as nat) + ",gid="@ + decimal_text(gid as nat)
    };
    dedup(seq![
        (flags, data),
        (flags, minimal),
        (flags, Seq::<char>::empty()),
        (flags | MS_RDONLY, data),
        (flags | MS_RDONLY, minimal),
        (flags | MS_RDONLY, Seq::<char>::empty()),
    ])
}

/// `Vec::dedup`: each run of equal neighbours kept once.
pub open spec fn dedup(s: Seq<(u64, Seq<char>)>) -> Seq<(u64, Seq<char>)>
    decreases s.len(),
{
    if s.len() <= 1 {
        s
    } else if dedup(s.drop_last()).last() == s.last() {
        dedup(s.drop_last())
    } else {
        dedup(s.drop_last()).push(s.last())
    }
}

proof fn lemma_dedup_nonempty(s: Seq<(u64, Seq<char>)>)
    requires
        s.len() >= 1,
    ensures
        dedup(s).len() >= 1,
        dedup(s).last() == s.last() || dedup(s.drop_last()).last() == s.last(),
    decreases s.len(),
{
    if s.len() > 1 {
        lemma_dedup_nonempty(s.drop_last());
    }
}

pub open spec fn attempt_views(v: Seq<(MountFlags, String)>) -> Seq<(u64, Seq<char>)> {
    v.map_values(|a: (MountFlags, String)| (a.0.bits, a.1@))
}

/// The attempts [`ladder`] describes, in order.
pub fn mount_attempts(fstype: &str, uid: u32, gid: u32) -> (r: Vec<(MountFlags, String)>)
    ensures
        attempt_views(r@) == ladder(fstype@, uid, gid),
{
    let (flags, data) = options(fstype, uid, gid);
    let minimal = if data.as_str().is_empty() {
        String::new()
    } else {
        ids_text(uid, gid)
    };
    let ro = MountFlags { bits: flags.bits | MS_RDONLY };
    let all: Vec<(MountFlags, String)> = vec![
        (flags, data.clone()),
        (flags, minimal.clone()),
        (flags, String::new()),
        (ro, data),
        (ro, minimal),
        (ro, String::new()),
    ];
    let ghost full = attempt_views(all@);
    assert(full =~= seq![
        (options_flags(fstype@), options_data(fstype@, uid, gid)),
        (options_flags(fstype@), if options_data(fstype@, uid, gid).len() == 0 {
            Seq::<char>::empty()
        } else {
            "uid="@ + decimal_text(uid as nat) + ",gid="@ + decimal_text(gid as nat)
        }),
        (options_flags(fstype@), Seq::<char>::empty()),
        (options_flags(fstype@) | MS_RDONLY, options_data(fstype@, uid, gid)),
        (options_flags(fstype@) | MS_RDONLY, if options_data(fstype@, uid, gid).len() == 0 {
            Seq::<char>::empty()
        } else {
            "uid="@ + decimal_text(uid as nat) + ",gid="@ + decimal_text(gid as nat)
        }),
        (options_flags(fstype@) | MS_RDONLY, Seq::<char>::empty()),
    ]);
    let mut out: Vec<(MountFlags, String)> = Vec::new();
    let mut i: usize = 0;
    while i < all.len()
        invariant
            i <= all.len(),
            full == attempt_views(all@),
            attempt_views(out@) == dedup(full.subrange(0, i as int)),
        decreases all.len() - i,
    {
        let ghost before = attempt_views(out@);
        assert(full.subrange(0, i + 1).drop_last() =~= full.subrange(0, i as int));
        assert(full.subrange(0, i + 1).last() == (all@[i as int].0.bits, all@[i as int].1@));
        if i == 0 {
            out.push((all[0].0, all[0].1.clone()));
            assert(attempt_views(out@) =~= full.subrange(0, 1));
        } else {
            proof {
                lemma_dedup_nonempty(full.subrange(0, i as int));
            }
            let n = out.len();
            let same = out[n - 1].0.bits == all[i].0.bits && crate::text::same(
                &chars_of(out[n - 1].1.as_str()),
                &chars_of(all[i].1.as_str()),
            );
            if !same {
                out.push((all[i].0, all[i].1.clone()));
                assert(attempt_views(out@) =~= before.push(full[i as int]));
            }
        }
        i += 1;
    }
    assert(full.subrange(0, all.len() as int) =~= full);
    out
}

/// The NUL-separated fields of a message from `i` on that are valid UTF-8,
/// empty ones included.
pub open spec fn text_fields_from(msg: Seq<u8>, i: int) -> Seq<Seq<char>>
    decreases msg.len() - i,
{
    if i < 0 || i > msg.len() {
        Seq::empty()
    } else {
        let k = nul_from(msg, i);
        let f = msg.subrange(i, k);
        let here = if valid_utf8(f) {
            seq![decode_utf8(f)]
        } else {
            Seq::empty()
        };
        proof {
            lemma_nul_from_bounds(msg, i);
        }
        if k >= msg.len() {
            here
        } else {
            here + text_fields_from(msg, k + 1)
        }
    }
}

fn text_fields(msg: &[u8]) -> (r: Vec<Vec<char>>)
    ensures
        crate::text::views(r@) == text_fields_from(msg@, 0),
{
    let mut out: Vec<Vec<char>> = Vec::new();
    let mut i: usize = 0;
    loop
        invariant_except_break
            crate::text::views(out@) + text_fields_from(msg@, i as int) == text_fields_from(msg@, 0),
        invariant
            i <= msg.len(),
        ensures
            crate::text::views(out@) == text_fields_from(msg@, 0),
        decreases msg.len() - i,
    {
        let mut k = i;
        while k < msg.len() && msg[k] != 0
            invariant
                i <= k <= msg.len(),
                nul_from(msg@, k as int) == nul_from(msg@, i as int),
            decreases msg.len() - k,
        {
            k += 1;
        }
        let piece = vstd::slice::slice_subrange(msg, i, k);
        let ghost before = crate::text::views(out@);
        let ghost f = msg@.subrange(i as int, k as int);
        match crate::demand::utf8(piece) {
            Some(s) => {
                out.push(chars_of(s));
                assert(crate::text::views(out@) =~= before + seq![decode_utf8(f)]);
            },
            None => {
                assert(crate::text::views(out@) =~= before + Seq::<Seq<char>>::empty());
            },
        }
        if k >= msg.len() {
            break;
        }
        assert(before + text_fields_from(msg@, i as int) =~= crate::text::views(out@) + text_fields_from(msg@, k + 1));
        i = k + 1;
    }
    out
}

/// What the kernel said about a block device.
pub struct BlockEvent {
    pub action: String,
    pub subsystem: String,
    pub kname: String,
}

/// Where the last `/` of `s` is, or -1.
pub open spec fn last_slash(s: Seq<char>, j: int) -> int
    decreases j,
{
    if j <= 0 || j > s.len() {
        -1
    } else if s[j - 1] == '/' {
        j - 1
    } else {
        last_slash(s, j - 1)
    }
}

/// `trim_start_matches("/dev/")`: every leading `/dev/` removed.
pub open spec fn strip_dev(s: Seq<char>) -> Seq<char>
    decreases s.len(),
{
    if crate::text::starts_with(s, "/dev/"@) && "/dev/"@.len() > 0 {
        strip_dev(s.subrange("/dev/"@.len() as int, s.len() as int))
    } else {
        s
    }
}

/// The subsystem and kernel name after the fields `fs`, starting from the
/// name the device path gave.
pub open spec fn block_fold(fs: Seq<Seq<char>>, kname: Seq<char>) -> (Seq<char>, Seq<char>)
    decreases fs.len(),
{
    if fs.len() == 0 {
        (Seq::empty(), kname)
    } else {
        let before = block_fold(fs.drop_last(), kname);
        match pair_of(fs.last()) {
            Some((k, v)) => if k == "SUBSYSTEM"@ {
                (v, before.1)
            } else if k == "DEVNAME"@ {
                (before.0, strip_dev(v))
            } else {
                before
            },
            None => before,
        }
    }
}

/// What a uevent says about a block device: its action, subsystem and
/// kernel name (the last component of the device path, unless `DEVNAME`
/// names it).
pub open spec fn block_event_of(msg: Seq<u8>) -> Option<(Seq<char>, Seq<char>, Seq<char>)> {
    let fs = text_fields_from(msg, 0);
    if fs.len() == 0 {
        None
    } else {
        let h = fs[0];
        let k = crate::text::find_from(h, '@', 0);
        if k >= h.len() {
            None
        } else {
            let path = h.subrange(k + 1, h.len() as int);
            let base = path.subrange(last_slash(path, path.len() as int) + 1, path.len() as int);
            let folded = block_fold(fs.drop_first(), base);
            Some((h.subrange(0, k), folded.0, folded.1))
        }
    }
}

proof fn lemma_last_slash(s: Seq<char>, j: int)
    requires
        0 <= j <= s.len(),
    ensures
        -1 <= last_slash(s, j) < j,
    decreases j,
{
    if j > 0 && s[j - 1] != '/' {
        lemma_last_slash(s, j - 1);
    }
}

fn strip_dev_prefix(v: &Vec<char>) -> (r: Vec<char>)
    ensures
        r@ == strip_dev(v@),
{
    let p = chars_of("/dev/");
    let mut cur = crate::text::slice_of(v, 0, v.len());
    assert(v@.subrange(0, v.len() as int) =~= v@);
    while crate::text::begins_with(&cur, "/dev/") && p.len() > 0
        invariant
            p@ == "/dev/"@,
            strip_dev(cur@) == strip_dev(v@),
        decreases cur.len(),
    {
        cur = crate::text::slice_of(&cur, p.len(), cur.len());
    }
    cur
}

pub fn parse_block_uevent(msg: &[u8]) -> (r: Option<BlockEvent>)
    ensures
        match r {
            None => block_event_of(msg@) is None,
            Some(e) => block_event_of(msg@) == Some((e.action@, e.subsystem@, e.kname@)),
        },
{
    let fs = text_fields(msg);
    if fs.len() == 0 {
        return None;
    }
    let k = crate::text::find_char(&fs[0], '@', 0);
    proof {
        crate::text::lemma_find_from_bounds(fs@[0]@, '@', 0);
    }
    if k >= fs[0].len() {
        return None;
    }
    let path = crate::text::slice_of(&fs[0], k + 1, fs[0].len());
    let mut j = path.len();
    while j > 0 && path[j - 1] != '/'
        invariant
            j <= path.len(),
            last_slash(path@, j as int) == last_slash(path@, path.len() as int),
        decreases j,
    {
        j -= 1;
    }
    proof {
        lemma_last_slash(path@, path.len() as int);
    }
    let start = if j == 0 {
        0
    } else {
        j
    };
    let mut kname = crate::text::slice_of(&path, start, path.len());
    let mut subsystem: Vec<char> = Vec::new();
    let ghost rest = crate::text::views(fs@).drop_first();
    let ghost base = kname@;
    let mut i: usize = 1;
    assert(rest.subrange(0, 0) =~= Seq::<Seq<char>>::empty());
    while i < fs.len()
        invariant
            1 <= i <= fs.len(),
            rest == crate::text::views(fs@).drop_first(),
            (subsystem@, kname@) == block_fold(rest.subrange(0, i - 1), base),
        decreases fs.len() - i,
    {
        assert(rest.subrange(0, i as int).drop_last() =~= rest.subrange(0, i - 1));
        assert(rest.subrange(0, i as int).last() == fs@[i as int]@);
        let eq = crate::text::find_char(&fs[i], '=', 0);
        proof {
            crate::text::lemma_find_from_bounds(fs@[i as int]@, '=', 0);
        }
        if eq < fs[i].len() {
            let key = crate::text::slice_of(&fs[i], 0, eq);
            let value = crate::text::slice_of(&fs[i], eq + 1, fs[i].len());
            if crate::text::is_word(&key, "SUBSYSTEM") {
                subsystem = value;
            } else if crate::text::is_word(&key, "DEVNAME") {
                kname = strip_dev_prefix(&value);
            }
        }
        i += 1;
    }
    assert(rest.subrange(0, fs.len() - 1) =~= rest);
    Some(BlockEvent {
        action: crate::text::string_of(&fs[0], 0, k),
        subsystem: to_string(&subsystem),
        kname: to_string(&kname),
    })
}

/// What the watcher does about one block event.
#[derive(Clone, PartialEq, Eq, Debug)]
pub enum Reaction {
    /// Mount it if it is a candidate.
    Arrival(String),
    /// Only say what happened: `--automount` was not given.
    Report(String),
    /// Detach it if it was ours.
    Departure(String),
    /// Nothing to do.
    Ignore,
}

/// Block devices only: `add` and `change` are an arrival (or a report when
/// not automounting), `remove` a departure, anything else nothing.
pub open spec fn reaction_to(action: Seq<char>, subsystem: Seq<char>, automount: bool) -> u8 {
    if subsystem != "block"@ {
        0
    } else if action == "add"@ || action == "change"@ {
        if automount {
            1
        } else {
            2
        }
    } else if action == "remove"@ {
        3
    } else {
        0
    }
}

pub fn react(event: &BlockEvent, automount: bool) -> (r: Reaction)
    ensures
        reaction_to(event.action@, event.subsystem@, automount) == 0 ==> r == Reaction::Ignore,
        reaction_to(event.action@, event.subsystem@, automount) == 1 ==> (r matches Reaction::Arrival(k) && k@ == event.kname@),
        reaction_to(event.action@, event.subsystem@, automount) == 2 ==> (r matches Reaction::Report(k) && k@ == event.kname@),
        reaction_to(event.action@, event.subsystem@, automount) == 3 ==> (r matches Reaction::Departure(k) && k@ == event.kname@),
{
    let sub = chars_of(event.subsystem.as_str());
    if !crate::text::is_word(&sub, "block") {
        return Reaction::Ignore;
    }
    let a = chars_of(event.action.as_str());
    if crate::text::is_word(&a, "add") || crate::text::is_word(&a, "change") {
        if automount {
            Reaction::Arrival(event.kname.clone())
        } else {
            Reaction::Report(event.kname.clone())
        }
    } else if crate::text::is_word(&a, "remove") {
        Reaction::Departure(event.kname.clone())
    } else {
        Reaction::Ignore
    }
}


/// A block device that appears, or changes (how a card reader announces a
/// card and an optical drive a disc), is an arrival when automounting and
/// only reported otherwise; one that goes is a departure; every other event,
/// and every event of another subsystem, is ignored. Adding and changing are
/// answered alike.
pub proof fn lemma_block_events(action: Seq<char>, subsystem: Seq<char>, automount: bool)
    ensures
        subsystem != "block"@ ==> reaction_to(action, subsystem, automount) == 0,
        reaction_to("change"@, "block"@, automount) == reaction_to("add"@, "block"@, automount),
        (action == "add"@ || action == "change"@) ==> reaction_to(action, "block"@, automount) == (if automount {
            1u8
        } else {
            2u8
        }),
        reaction_to("remove"@, "block"@, automount) == 3,
        (action != "add"@ && action != "change"@ && action != "remove"@) ==> reaction_to(action, "block"@, automount) == 0,
{
    reveal_strlit("add");
    reveal_strlit("change");
    reveal_strlit("remove");
    let r: Seq<char> = "remove"@;
    assert(r != "add"@ && r != "change"@) by {
        assert(r.len() != "add"@.len());
        assert(r[0] != "change"@[0]);
    }
}
} // verus!
