//! PID 1's own decisions: which filesystems shutdown must remount and in what
//! order, how mount options split into flags and data, whether a re-exec
//! starts a service, and which complaints about the logs reach the console.
use vstd::prelude::*;

use crate::config::ServiceConfig;
use crate::mount::{
    MountFlags, MS_BIND, MS_DIRSYNC, MS_NOATIME, MS_NODEV, MS_NODIRATIME, MS_NOEXEC, MS_NOSUID,
    MS_RDONLY, MS_RELATIME, MS_REMOUNT, MS_STRICTATIME, MS_SYNCHRONOUS,
};
use crate::service::{Service, ServiceState};
use crate::text::{chars_of, is_digit, is_word, push_char, push_str, string_views, to_string, views};

verus! {

/// Filesystems that hold no dirty data and vanish with the reboot: shutdown
/// neither unmounts nor remounts them.
pub const VIRTUAL_FSTYPES: [&'static str; 21] = [
    "proc",
    "sysfs",
    "devtmpfs",
    "devpts",
    "tmpfs",
    "ramfs",
    "cgroup",
    "cgroup2",
    "securityfs",
    "debugfs",
    "tracefs",
    "configfs",
    "fusectl",
    "bpf",
    "nsfs",
    "mqueue",
    "hugetlbfs",
    "pstore",
    "efivarfs",
    "autofs",
    "binfmt_misc",
];

/// The filesystems mounted so the kernel can be interrogated: type, target
/// and data. Root-only, and never unmounted by shutdown.
pub const INTROSPECTION_FILESYSTEMS: [(&'static str, &'static str, &'static str); 2] = [
    ("securityfs", "/sys/kernel/security", ""),
    ("debugfs", "/sys/kernel/debug", "mode=0700"),
];

pub open spec fn is_virtual(fstype: Seq<char>) -> bool {
    exists|i: int| 0 <= i < 21 && VIRTUAL_FSTYPES@[i]@ == fstype
}

pub fn virtual_fstype(fstype: &str) -> (r: bool)
    ensures
        r == is_virtual(fstype@),
{
    let f = chars_of(fstype);
    let mut i: usize = 0;
    while i < 21
        invariant
            i <= 21,
            f@ == fstype@,
            forall|k: int| 0 <= k < i ==> VIRTUAL_FSTYPES@[k]@ != fstype@,
        decreases 21 - i,
    {
        if crate::text::same(&chars_of(VIRTUAL_FSTYPES[i]), &f) {
            return true;
        }
        i += 1;
    }
    false
}

pub type MountEntry = (Seq<char>, Seq<char>);

pub open spec fn entry_views(v: Seq<(String, String)>) -> Seq<MountEntry> {
    v.map_values(|m: (String, String)| (m.0@, m.1@))
}

/// `sorted` with `m` placed after every entry whose mount point is at least
/// as long: the step of a stable sort, longest first.
pub open spec fn insert_by_depth(sorted: Seq<MountEntry>, m: MountEntry) -> Seq<MountEntry>
    decreases sorted.len(),
{
    if sorted.len() == 0 {
        seq![m]
    } else if sorted.last().0.len() >= m.0.len() {
        sorted.push(m)
    } else {
        insert_by_depth(sorted.drop_last(), m).push(sorted.last())
    }
}

/// A stable sort by mount point length, longest first.
pub open spec fn deepest_first(s: Seq<MountEntry>) -> Seq<MountEntry>
    decreases s.len(),
{
    if s.len() == 0 {
        s
    } else {
        insert_by_depth(deepest_first(s.drop_last()), s.last())
    }
}

/// The real filesystems of a mount list, deepest first.
pub open spec fn real_mounts(mounts: Seq<MountEntry>) -> Seq<MountEntry> {
    deepest_first(mounts.filter(|m: MountEntry| !is_virtual(m.1)))
}

pub open spec fn descending(s: Seq<MountEntry>) -> bool {
    forall|i: int, j: int| 0 <= i < j < s.len() ==> s[i].0.len() >= s[j].0.len()
}

proof fn lemma_insert_by_depth(sorted: Seq<MountEntry>, m: MountEntry)
    requires
        descending(sorted),
    ensures
        descending(insert_by_depth(sorted, m)),
        insert_by_depth(sorted, m).len() == sorted.len() + 1,
        insert_by_depth(sorted, m).to_multiset() == sorted.to_multiset().insert(m),
    decreases sorted.len(),
{
    broadcast use vstd::seq_lib::group_to_multiset_ensures;
    if sorted.len() == 0 {
        assert(seq![m] =~= Seq::<MountEntry>::empty().push(m));
    } else if sorted.last().0.len() >= m.0.len() {
    } else {
        let rest = sorted.drop_last();
        assert(descending(rest));
        lemma_insert_by_depth(rest, m);
        let ins = insert_by_depth(rest, m);
        assert(forall|k: int| 0 <= k < ins.len() ==> ins.to_multiset().count(ins[k]) > 0);
        assert forall|i: int, j: int| 0 <= i < j < ins.len() + 1 implies (#[trigger] ins.push(
            sorted.last(),
        )[i]).0.len() >= (#[trigger] ins.push(sorted.last())[j]).0.len() by {
            if j == ins.len() {
                let e = ins[i];
                assert(ins.to_multiset().count(e) > 0);
                assert(rest.to_multiset().insert(m).count(e) > 0);
                if e == m {
                } else {
                    assert(rest.to_multiset().count(e) > 0);
                    assert(rest.contains(e));
                    let k = choose|k: int| 0 <= k < rest.len() && rest[k] == e;
                    assert(sorted[k] == e);
                    assert(sorted[k].0.len() >= sorted[sorted.len() - 1].0.len());
                }
            }
        }
        assert(sorted =~= rest.push(sorted.last()));
    }
}

proof fn lemma_deepest_first(s: Seq<MountEntry>)
    ensures
        descending(deepest_first(s)),
        deepest_first(s).to_multiset() == s.to_multiset(),
    decreases s.len(),
{
    broadcast use vstd::seq_lib::group_to_multiset_ensures;
    if s.len() > 0 {
        lemma_deepest_first(s.drop_last());
        lemma_insert_by_depth(deepest_first(s.drop_last()), s.last());
        assert(s =~= s.drop_last().push(s.last()));
    }
}

/// Shutdown's order is deepest first: a nested mount always comes before the
/// mount it sits inside, and nothing is gained or lost but the virtual
/// filesystems.
pub proof fn lemma_real_mounts_deepest_first(mounts: Seq<MountEntry>)
    ensures
        descending(real_mounts(mounts)),
        real_mounts(mounts).to_multiset() == mounts.filter(|m: MountEntry| !is_virtual(m.1)).to_multiset(),
{
    lemma_deepest_first(mounts.filter(|m: MountEntry| !is_virtual(m.1)));
}

/// Where [`insert_by_depth`] puts `m`: after the last entry at least as long.
pub open spec fn depth_slot(sorted: Seq<MountEntry>, m: MountEntry) -> int
    decreases sorted.len(),
{
    if sorted.len() == 0 {
        0
    } else if sorted.last().0.len() >= m.0.len() {
        sorted.len() as int
    } else {
        depth_slot(sorted.drop_last(), m)
    }
}

proof fn lemma_depth_slot(sorted: Seq<MountEntry>, m: MountEntry)
    ensures
        0 <= depth_slot(sorted, m) <= sorted.len(),
        insert_by_depth(sorted, m) == sorted.insert(depth_slot(sorted, m), m),
        forall|j: int| depth_slot(sorted, m) <= j < sorted.len() ==> (#[trigger] sorted[j]).0.len() < m.0.len(),
    decreases sorted.len(),
{
    if sorted.len() == 0 {
        assert(seq![m] =~= sorted.insert(0, m));
    } else if sorted.last().0.len() >= m.0.len() {
        assert(sorted.push(m) =~= sorted.insert(sorted.len() as int, m));
    } else {
        let rest = sorted.drop_last();
        lemma_depth_slot(rest, m);
        let q = depth_slot(rest, m);
        assert(rest.insert(q, m).push(sorted.last()) =~= sorted.insert(q, m));
        assert forall|j: int| q <= j < sorted.len() implies (#[trigger] sorted[j]).0.len() < m.0.len() by {
            if j < rest.len() {
                assert(sorted[j] == rest[j]);
            }
        }
    }
}

/// The sort is stable: mounts of the same depth keep the order they were
/// listed in. `from[k]` is where the `k`th of the sorted list was listed.
pub proof fn lemma_deepest_first_stable(s: Seq<MountEntry>) -> (from: Seq<int>)
    ensures
        from.len() == deepest_first(s).len(),
        forall|k: int| 0 <= k < from.len() ==> 0 <= #[trigger] from[k] < s.len() && deepest_first(s)[k] == s[from[k]],
        forall|k: int, l: int|
            0 <= k < l < from.len() && (#[trigger] deepest_first(s)[k]).0.len() == (#[trigger] deepest_first(s)[l]).0.len()
                ==> from[k] < from[l],
    decreases s.len(),
{
    if s.len() == 0 {
        Seq::empty()
    } else {
        let pre = s.drop_last();
        let m = s.last();
        let sorted = deepest_first(pre);
        let f0 = lemma_deepest_first_stable(pre);
        lemma_depth_slot(sorted, m);
        let q = depth_slot(sorted, m);
        let t = sorted.insert(q, m);
        assert(deepest_first(s) == t);
        let from = f0.insert(q, s.len() - 1);
        assert forall|k: int| 0 <= k < from.len() implies 0 <= #[trigger] from[k] < s.len() && t[k] == s[from[k]] by {
            if k < q {
                assert(from[k] == f0[k] && t[k] == sorted[k]);
                assert(s[f0[k]] == pre[f0[k]]);
            } else if k > q {
                assert(from[k] == f0[k - 1] && t[k] == sorted[k - 1]);
                assert(s[f0[k - 1]] == pre[f0[k - 1]]);
            }
        }
        assert forall|k: int, l: int|
            0 <= k < l < from.len() && (#[trigger] t[k]).0.len() == (#[trigger] t[l]).0.len() implies from[k] < from[l] by {
            if k == q {
                assert(t[l] == sorted[l - 1]);
            } else if l == q {
                assert(from[k] == f0[k]);
            } else if l < q {
                assert(from[k] == f0[k] && from[l] == f0[l] && t[k] == sorted[k] && t[l] == sorted[l]);
            } else if k < q {
                assert(from[k] == f0[k] && from[l] == f0[l - 1] && t[k] == sorted[k] && t[l] == sorted[l - 1]);
            } else {
                assert(from[k] == f0[k - 1] && from[l] == f0[l - 1] && t[k] == sorted[k - 1] && t[l] == sorted[l - 1]);
            }
        }
        from
    }
}

fn insert_entry(sorted: &mut Vec<(String, String)>, m: (String, String))
    ensures
        entry_views(final(sorted)@) == insert_by_depth(entry_views(old(sorted)@), (m.0@, m.1@)),
{
    let len = chars_of(m.0.as_str()).len();
    let mut k = sorted.len();
    proof {
        let e = entry_views(sorted@);
        assert(e.subrange(0, k as int) =~= e);
        assert(insert_by_depth(e, (m.0@, m.1@)) + e.subrange(k as int, k as int) =~= insert_by_depth(e, (m.0@, m.1@)));
    }
    while k > 0 && chars_of(sorted[k - 1].0.as_str()).len() < len
        invariant
            k <= sorted.len(),
            sorted@ == old(sorted)@,
            len == m.0@.len(),
            insert_by_depth(entry_views(sorted@), (m.0@, m.1@)) == insert_by_depth(
                entry_views(sorted@).subrange(0, k as int),
                (m.0@, m.1@),
            ) + entry_views(sorted@).subrange(k as int, sorted.len() as int),
        decreases k,
    {
        let ghost e = entry_views(sorted@);
        proof {
            assert(e.subrange(0, k as int).drop_last() =~= e.subrange(0, k - 1));
            assert(e.subrange(0, k as int).last() == e[k - 1]);
            assert(insert_by_depth(e.subrange(0, k as int), (m.0@, m.1@)) == insert_by_depth(
                e.subrange(0, k - 1),
                (m.0@, m.1@),
            ).push(e[k - 1]));
            assert(insert_by_depth(e.subrange(0, k - 1), (m.0@, m.1@)).push(e[k - 1]) + e.subrange(k as int, sorted.len() as int)
                =~= insert_by_depth(e.subrange(0, k - 1), (m.0@, m.1@)) + e.subrange(k - 1, sorted.len() as int));
        }
        k -= 1;
    }
    let ghost e = entry_views(sorted@);
    proof {
        if k > 0 {
            assert(e.subrange(0, k as int).drop_last() =~= e.subrange(0, k - 1));
            assert(e.subrange(0, k as int).last() == e[k - 1]);
        }
        assert(insert_by_depth(e.subrange(0, k as int), (m.0@, m.1@)) =~= e.subrange(0, k as int).push((m.0@, m.1@)));
    }
    sorted.insert(k, m);
    assert(entry_views(sorted@) =~= e.subrange(0, k as int).push((m.0@, m.1@)) + e.subrange(k as int, e.len() as int));
}

/// Real filesystems from a mount list, deepest first, so that a nested mount
/// goes before the one it sits inside.
pub fn real_mounts_deepest_first(mounts: Vec<(String, String)>) -> (r: Vec<(String, String)>)
    ensures
        entry_views(r@) == real_mounts(entry_views(mounts@)),
        descending(entry_views(r@)),
{
    let ghost keep = |m: MountEntry| !is_virtual(m.1);
    let ghost all = entry_views(mounts@);
    let mut out: Vec<(String, String)> = Vec::new();
    let mut i: usize = 0;
    proof {
        reveal(Seq::filter);
        assert(all.subrange(0, 0).filter(keep) =~= Seq::<MountEntry>::empty());
    }
    while i < mounts.len()
        invariant
            i <= mounts.len(),
            all == entry_views(mounts@),
            keep == (|m: MountEntry| !is_virtual(m.1)),
            entry_views(out@) == deepest_first(all.subrange(0, i as int).filter(keep)),
        decreases mounts.len() - i,
    {
        proof {
            reveal(Seq::filter);
            assert(all.subrange(0, i + 1).drop_last() =~= all.subrange(0, i as int));
            assert(all.subrange(0, i + 1).last() == all[i as int]);
        }
        if !virtual_fstype(mounts[i].1.as_str()) {
            let m = (mounts[i].0.clone(), mounts[i].1.clone());
            insert_entry(&mut out, m);
            assert(all.subrange(0, i + 1).filter(keep) == all.subrange(0, i as int).filter(keep).push(all[i as int]));
            assert(all.subrange(0, i + 1).filter(keep).drop_last() =~= all.subrange(0, i as int).filter(keep));
        }
        i += 1;
    }
    assert(all.subrange(0, mounts.len() as int) =~= all);
    proof {
        lemma_real_mounts_deepest_first(all);
    }
    out
}


/// The introspection filesystems are among those shutdown leaves alone, live
/// under the kernel's own tree, and debugfs is root-only.
pub proof fn lemma_introspection_filesystems()
    ensures
        is_virtual(INTROSPECTION_FILESYSTEMS@[0].0@),
        is_virtual(INTROSPECTION_FILESYSTEMS@[1].0@),
        INTROSPECTION_FILESYSTEMS@[1].0@ == "debugfs"@,
        INTROSPECTION_FILESYSTEMS@[1].2@ == "mode=0700"@,
{
    assert(VIRTUAL_FSTYPES@[8]@ == INTROSPECTION_FILESYSTEMS@[0].0@);
    assert(VIRTUAL_FSTYPES@[9]@ == INTROSPECTION_FILESYSTEMS@[1].0@);
}

/// How many distinct complaints the console latch remembers.
pub const COMPLAINTS_REMEMBERED: usize = 32;

/// What two complaints have to share to count as the same one: every run of
/// digits collapsed to a `#`.
pub open spec fn complaint_key(s: Seq<char>) -> Seq<char>
    decreases s.len(),
{
    if s.len() == 0 {
        Seq::empty()
    } else {
        let k = complaint_key(s.drop_last());
        if is_digit(s.last()) {
            if s.len() > 1 && is_digit(s[s.len() - 2]) {
                k
            } else {
                k.push('#')
            }
        } else {
            k.push(s.last())
        }
    }
}

/// What letting `line` through does to the remembered keys `said`: whether it is
/// said, and what is remembered after -- the oldest dropped once the latch
/// is full.
pub open spec fn latch_step(said: Seq<Seq<char>>, line: Seq<char>) -> (bool, Seq<Seq<char>>) {
    let key = complaint_key(line);
    if said.contains(key) {
        (false, said)
    } else if said.len() >= COMPLAINTS_REMEMBERED {
        (true, said.drop_first().push(key))
    } else {
        (true, said.push(key))
    }
}

/// The "have we already said this" half of the log complaints.
pub struct ComplaintLatch {
    /// Canonical forms of the complaints already said, oldest first.
    pub said: Vec<String>,
}

impl ComplaintLatch {
    pub fn new() -> (r: ComplaintLatch)
        ensures
            r.said@.len() == 0,
    {
        ComplaintLatch { said: Vec::new() }
    }

    /// The canonical form of a complaint.
    pub fn key(line: &str) -> (r: String)
        ensures
            r@ == complaint_key(line@),
    {
        let v = chars_of(line);
        let mut key = String::new();
        let mut in_number = false;
        let mut i: usize = 0;
        while i < v.len()
            invariant
                i <= v.len(),
                key@ == complaint_key(v@.subrange(0, i as int)),
                in_number == (i > 0 && is_digit(v@[i - 1])),
            decreases v.len() - i,
        {
            let ch = v[i];
            assert(v@.subrange(0, i + 1).drop_last() =~= v@.subrange(0, i as int));
            if '0' <= ch && ch <= '9' {
                if !in_number {
                    push_char(&mut key, '#');
                    in_number = true;
                }
            } else {
                in_number = false;
                push_char(&mut key, ch);
            }
            i += 1;
        }
        assert(v@.subrange(0, v.len() as int) =~= v@);
        key
    }

    /// Whether `line` should be said: not if a complaint with the same key
    /// already was. Remembers at most [`COMPLAINTS_REMEMBERED`], the oldest
    /// going first.
    pub fn admits(&mut self, line: &str) -> (r: bool)
        ensures
            (r, string_views(final(self).said@)) == latch_step(string_views(old(self).said@), line@),
    {
        let key = ComplaintLatch::key(line);
        let k = chars_of(key.as_str());
        let mut i: usize = 0;
        while i < self.said.len()
            invariant
                i <= self.said.len(),
                self.said@ == old(self).said@,
                k@ == complaint_key(line@),
                forall|j: int| 0 <= j < i ==> (#[trigger] self.said@[j])@ != k@,
            decreases self.said.len() - i,
        {
            if crate::text::same(&chars_of(self.said[i].as_str()), &k) {
                assert(string_views(self.said@)[i as int] == k@);
                return false;
            }
            i += 1;
        }
        assert(!string_views(self.said@).contains(k@)) by {
            if string_views(self.said@).contains(k@) {
                let j = choose|j: int| 0 <= j < self.said@.len() && string_views(self.said@)[j] == k@;
                assert(self.said@[j]@ == k@);
            }
        }
        let ghost before = string_views(self.said@);
        if self.said.len() >= COMPLAINTS_REMEMBERED {
            self.said.remove(0);
            assert(string_views(self.said@) =~= before.drop_first());
        }
        let ghost mid = string_views(self.said@);
        self.said.push(key);
        assert(string_views(self.said@) =~= mid.push(complaint_key(line@)));
        true
    }
}

/// The latch's memory is bounded.
pub proof fn lemma_latch_bounded(said: Seq<Seq<char>>, line: Seq<char>)
    requires
        said.len() <= COMPLAINTS_REMEMBERED,
    ensures
        latch_step(said, line).1.len() <= COMPLAINTS_REMEMBERED,
{
}

/// A complaint just said is not said again, however its numbers have moved.
pub proof fn lemma_said_once(said: Seq<Seq<char>>, line: Seq<char>, again: Seq<char>)
    requires
        complaint_key(again) == complaint_key(line),
    ensures
        !latch_step(latch_step(said, line).1, again).0,
{
    let after = latch_step(said, line).1;
    let key = complaint_key(line);
    if !said.contains(key) {
        assert(after[after.len() - 1] == key);
    }
}

/// Whether a re-exec should start this service, given what the hand-off
/// left of it: a definition the previous image did not have is started; one
/// that is running, stopped by request or between states is not; and one
/// that already had its run this boot is not started again if it is a
/// one-shot or asked not to be restarted.
pub open spec fn start_after_reexec(config: ServiceConfig, adopted: Option<Service>) -> bool {
    match adopted {
        None => true,
        Some(svc) => {
            &&& svc.pid is None
            &&& !svc.manually_stopped
            &&& svc.state == ServiceState::Stopped
            &&& !(svc.first_started_mono is Some && (svc.config.service_type
                == crate::config::ServiceType::Oneshot || !config.restart))
        },
    }
}

pub fn wants_start_after_reexec(config: &ServiceConfig, adopted: Option<&Service>) -> (r: bool)
    ensures
        r == start_after_reexec(
            *config,
            match adopted {
                Some(s) => Some(*s),
                None => None,
            },
        ),
{
    let svc = match adopted {
        None => {
            return true;
        },
        Some(svc) => svc,
    };
    if svc.is_running() || svc.is_manually_stopped() || svc.state() != ServiceState::Stopped {
        return false;
    }
    if svc.first_started_at().is_some() && (svc.is_oneshot() || !config.restart) {
        return false;
    }
    true
}

/// The flag one fstab option word sets, or `None` for a word that is
/// filesystem data; `Some(0)` for a word that is the default anyway.
pub open spec fn option_flag(w: Seq<char>) -> Option<u64> {
    if w.len() == 0 || w == "defaults"@ || w == "rw"@ || w == "auto"@ || w == "exec"@ || w
        == "suid"@ || w == "dev"@ || w == "async"@ || w == "atime"@ || w == "diratime"@ || w
        == "nofail"@ {
        Some(0)
    } else if w == "ro"@ {
        Some(MS_RDONLY)
    } else if w == "noexec"@ {
        Some(MS_NOEXEC)
    } else if w == "nosuid"@ {
        Some(MS_NOSUID)
    } else if w == "nodev"@ {
        Some(MS_NODEV)
    } else if w == "noatime"@ {
        Some(MS_NOATIME)
    } else if w == "nodiratime"@ {
        Some(MS_NODIRATIME)
    } else if w == "relatime"@ {
        Some(MS_RELATIME)
    } else if w == "strictatime"@ {
        Some(MS_STRICTATIME)
    } else if w == "sync"@ {
        Some(MS_SYNCHRONOUS)
    } else if w == "dirsync"@ {
        Some(MS_DIRSYNC)
    } else if w == "remount"@ {
        Some(MS_REMOUNT)
    } else if w == "bind"@ {
        Some(MS_BIND)
    } else {
        None
    }
}

/// `split(',')`: the pieces between commas, from index `i` on.
pub open spec fn comma_pieces(s: Seq<char>, i: int) -> Seq<Seq<char>>
    decreases s.len() - i,
{
    if i < 0 || i > s.len() {
        Seq::empty()
    } else {
        let k = crate::text::find_from(s, ',', i);
        proof {
            if i < s.len() {
                crate::text::lemma_find_from_bounds(s, ',', i);
            }
        }
        if k >= s.len() {
            seq![s.subrange(i, s.len() as int)]
        } else {
            seq![s.subrange(i, k)] + comma_pieces(s, k + 1)
        }
    }
}

/// The flags and the data words of the option pieces `ps` (each trimmed).
pub open spec fn options_fold(ps: Seq<Seq<char>>) -> (u64, Seq<Seq<char>>)
    decreases ps.len(),
{
    if ps.len() == 0 {
        (0, Seq::empty())
    } else {
        let before = options_fold(ps.drop_last());
        let w = crate::text::trim(ps.last());
        match option_flag(w) {
            Some(f) => (before.0 | f, before.1),
            None => (before.0, before.1.push(w)),
        }
    }
}

/// An fstab option list split into mount(2) flags and the data string of
/// whatever is left, joined with commas.
pub open spec fn mount_options_of(options: Seq<char>) -> (u64, Seq<char>) {
    let f = options_fold(comma_pieces(options, 0));
    (f.0, crate::text::joined(f.1, ","@))
}

fn flag_of(w: &Vec<char>) -> (r: Option<u64>)
    ensures
        r == option_flag(w@),
{
    if w.len() == 0 || is_word(w, "defaults") || is_word(w, "rw") || is_word(w, "auto") || is_word(
        w,
        "exec",
    ) || is_word(w, "suid") || is_word(w, "dev") || is_word(w, "async") || is_word(w, "atime")
        || is_word(w, "diratime") || is_word(w, "nofail") {
        assert(w.len() == 0 ==> w@ =~= Seq::<char>::empty());
        Some(0)
    } else if is_word(w, "ro") {
        Some(MS_RDONLY)
    } else if is_word(w, "noexec") {
        Some(MS_NOEXEC)
    } else if is_word(w, "nosuid") {
        Some(MS_NOSUID)
    } else if is_word(w, "nodev") {
        Some(MS_NODEV)
    } else if is_word(w, "noatime") {
        Some(MS_NOATIME)
    } else if is_word(w, "nodiratime") {
        Some(MS_NODIRATIME)
    } else if is_word(w, "relatime") {
        Some(MS_RELATIME)
    } else if is_word(w, "strictatime") {
        Some(MS_STRICTATIME)
    } else if is_word(w, "sync") {
        Some(MS_SYNCHRONOUS)
    } else if is_word(w, "dirsync") {
        Some(MS_DIRSYNC)
    } else if is_word(w, "remount") {
        Some(MS_REMOUNT)
    } else if is_word(w, "bind") {
        Some(MS_BIND)
    } else {
        None
    }
}

/// The pieces of `v` between commas.
pub fn split_commas(v: &Vec<char>) -> (r: Vec<Vec<char>>)
    ensures
        views(r@) == comma_pieces(v@, 0),
{
    let mut out: Vec<Vec<char>> = Vec::new();
    let mut i: usize = 0;
    loop
        invariant_except_break
            views(out@) + comma_pieces(v@, i as int) == comma_pieces(v@, 0),
        invariant
            i <= v.len(),
        ensures
            views(out@) == comma_pieces(v@, 0),
        decreases v.len() - i,
    {
        let k = crate::text::find_char(v, ',', i);
        proof {
            crate::text::lemma_find_from_bounds(v@, ',', i as int);
        }
        let ghost before = views(out@);
        if k >= v.len() {
            out.push(crate::text::slice_of(v, i, v.len()));
            assert(views(out@) =~= before + comma_pieces(v@, i as int));
            break;
        }
        out.push(crate::text::slice_of(v, i, k));
        assert(before + comma_pieces(v@, i as int) =~= views(out@) + comma_pieces(v@, k + 1));
        i = k + 1;
    }
    out
}

/// Split a comma-separated fstab option list into mount(2) flags and the
/// filesystem-specific data string that carries whatever is left.
pub fn parse_mount_options(options: &str) -> (r: (MountFlags, String))
    ensures
        (r.0.bits, r.1@) == mount_options_of(options@),
{
    let pieces = split_commas(&chars_of(options));
    let ghost ps = views(pieces@);
    let mut flags: u64 = 0;
    let mut data: Vec<Vec<char>> = Vec::new();
    let mut i: usize = 0;
    while i < pieces.len()
        invariant
            i <= pieces.len(),
            ps == views(pieces@),
            (flags, views(data@)) == options_fold(ps.subrange(0, i as int)),
        decreases pieces.len() - i,
    {
        assert(ps.subrange(0, i + 1).drop_last() =~= ps.subrange(0, i as int));
        assert(ps.subrange(0, i + 1).last() == pieces@[i as int]@);
        let w = crate::text::trimmed(&pieces[i]);
        match flag_of(&w) {
            Some(f) => {
                flags = flags | f;
            },
            None => {
                let ghost before = views(data@);
                data.push(w);
                assert(views(data@) =~= before.push(crate::text::trim(pieces@[i as int]@)));
            },
        }
        i += 1;
    }
    assert(ps.subrange(0, pieces.len() as int) =~= ps);
    let joined = crate::text::join_with(&data, ",");
    (MountFlags { bits: flags }, to_string(&joined))
}


/// The one word `/run/raven-init.cmd` can hold, which works when the socket
/// does not.
#[derive(Clone, Copy, PartialEq, Eq, Structural, Debug)]
pub enum FileCommand {
    Poweroff,
    Reboot,
    Suspend,
    Hibernate,
    /// Anything else, which is logged and ignored.
    Unknown,
}

/// What the command file's text asks for, read with surrounding whitespace
/// trimmed: `poweroff` or `halt`, `reboot`, `suspend` or `sleep`,
/// `hibernate`.
pub open spec fn file_command(text: Seq<char>) -> FileCommand {
    let w = crate::text::trim(text);
    if w == "poweroff"@ || w == "halt"@ {
        FileCommand::Poweroff
    } else if w == "reboot"@ {
        FileCommand::Reboot
    } else if w == "suspend"@ || w == "sleep"@ {
        FileCommand::Suspend
    } else if w == "hibernate"@ {
        FileCommand::Hibernate
    } else {
        FileCommand::Unknown
    }
}

/// [`file_command`].
pub fn read_command(text: &str) -> (r: FileCommand)
    ensures
        r == file_command(text@),
{
    let w = crate::text::trimmed(&chars_of(text));
    if is_word(&w, "poweroff") || is_word(&w, "halt") {
        FileCommand::Poweroff
    } else if is_word(&w, "reboot") {
        FileCommand::Reboot
    } else if is_word(&w, "suspend") || is_word(&w, "sleep") {
        FileCommand::Suspend
    } else if is_word(&w, "hibernate") {
        FileCommand::Hibernate
    } else {
        FileCommand::Unknown
    }
}

/// How long the main loop sleeps with nothing pending, and with time-driven
/// work, in milliseconds.
pub const IDLE_MS: u64 = 2000;
pub const BUSY_MS: u64 = 100;

/// How long the main loop may sleep: briefly while there is time-driven work
/// or nothing can wake it when a child dies, long otherwise; and never past
/// a restart falling due, though never less than the short tick.
pub open spec fn sleep_ms(child_wakeup: bool, quick: bool, retry_in: Option<u64>) -> u64 {
    let base = if !child_wakeup || quick {
        BUSY_MS
    } else {
        IDLE_MS
    };
    match retry_in {
        Some(until) => {
            let floor = if until > BUSY_MS {
                until
            } else {
                BUSY_MS
            };
            if floor < base {
                floor
            } else {
                base
            }
        },
        None => base,
    }
}

/// [`sleep_ms`], as the poll timeout: clamped to what a poll can take,
/// rather than wrapped.
pub fn poll_timeout(child_wakeup: bool, quick: bool, retry_in: Option<u64>) -> (r: u16)
    ensures
        r as u64 == if sleep_ms(child_wakeup, quick, retry_in) > 65535 {
            65535
        } else {
            sleep_ms(child_wakeup, quick, retry_in)
        },
{
    let base: u64 = if !child_wakeup || quick {
        BUSY_MS
    } else {
        IDLE_MS
    };
    let wait: u64 = match retry_in {
        Some(until) => {
            let floor: u64 = if until > BUSY_MS {
                until
            } else {
                BUSY_MS
            };
            if floor < base {
                floor
            } else {
                base
            }
        },
        None => base,
    };
    if wait > 65535 {
        65535
    } else {
        wait as u16
    }
}

/// Whether the boot should wait for seatd's socket: something that needs a
/// seat is running, a session or the login daemon's greeter, and so is seatd.
pub fn needs_seat(started: &Vec<String>) -> (r: bool)
    ensures
        r == ((string_views(started@).contains("wayland-session"@) || string_views(started@).contains("ravend"@))
            && string_views(started@).contains("seatd"@)),
{
    (crate::control::listed(started, "wayland-session") || crate::control::listed(started, "ravend"))
        && crate::control::listed(started, "seatd")
}

/// Whether a line of a start's reply belongs on the console as a warning:
/// it says something did not work.
pub fn is_trouble(line: &str) -> (r: bool)
    ensures
        r == (crate::text::starts_with(line@, "error:"@) || crate::text::starts_with(line@, "warning:"@)),
{
    let v = chars_of(line);
    crate::text::begins_with(&v, "error:") || crate::text::begins_with(&v, "warning:")
}


/// Where an fstab source names its device: a path as it stands, a link
/// under `/dev/disk` that udev makes for a UUID or a label, or nothing this
/// can resolve without a scan.
pub enum FstabSource {
    Path(String),
    Link(String),
    Unresolvable,
}

pub open spec fn source_link(dir: Seq<char>, value: Seq<char>) -> Seq<char> {
    dir + "/"@ + value
}

/// What [`fstab_source`] decides for `spec`.
pub open spec fn fstab_source_is(spec: Seq<char>, r: FstabSource) -> bool {
    if crate::text::starts_with(spec, "/"@) {
        r matches FstabSource::Path(p) && p@ == spec
    } else if crate::text::starts_with(spec, "UUID="@) {
        r matches FstabSource::Link(l) && l@ == source_link("/dev/disk/by-uuid"@, spec.subrange(5, spec.len() as int))
    } else if crate::text::starts_with(spec, "PARTUUID="@) {
        r matches FstabSource::Link(l) && l@ == source_link("/dev/disk/by-partuuid"@, spec.subrange(9, spec.len() as int))
    } else if crate::text::starts_with(spec, "LABEL="@) {
        r matches FstabSource::Link(l) && l@ == source_link("/dev/disk/by-label"@, spec.subrange(6, spec.len() as int))
    } else if crate::text::starts_with(spec, "PARTLABEL="@) {
        r matches FstabSource::Link(l) && l@ == source_link("/dev/disk/by-partlabel"@, spec.subrange(10, spec.len() as int))
    } else {
        r is Unresolvable
    }
}

fn link_under(dir: &str, v: &Vec<char>, from: usize) -> (r: FstabSource)
    requires
        from <= v.len(),
    ensures
        r matches FstabSource::Link(l) && l@ == source_link(dir@, v@.subrange(from as int, v.len() as int)),
{
    let mut l = dir.to_owned();
    push_str(&mut l, "/");
    let rest = crate::text::string_of(v, from, v.len());
    push_str(&mut l, rest.as_str());
    FstabSource::Link(l)
}

/// Where the device an fstab line names is to be found: [`fstab_source_is`].
pub fn fstab_source(spec: &str) -> (r: FstabSource)
    ensures
        fstab_source_is(spec@, r),
{
    let v = chars_of(spec);
    proof {
        reveal_strlit("UUID=");
        reveal_strlit("PARTUUID=");
        reveal_strlit("LABEL=");
        reveal_strlit("PARTLABEL=");
    }
    if crate::text::begins_with(&v, "/") {
        FstabSource::Path(spec.to_owned())
    } else if crate::text::begins_with(&v, "UUID=") {
        link_under("/dev/disk/by-uuid", &v, 5)
    } else if crate::text::begins_with(&v, "PARTUUID=") {
        link_under("/dev/disk/by-partuuid", &v, 9)
    } else if crate::text::begins_with(&v, "LABEL=") {
        link_under("/dev/disk/by-label", &v, 6)
    } else if crate::text::begins_with(&v, "PARTLABEL=") {
        link_under("/dev/disk/by-partlabel", &v, 10)
    } else {
        FstabSource::Unresolvable
    }
}

/// One `options MODULE KEY=VALUE` assignment from modprobe.d.
pub struct ModuleOption {
    /// The module as the kernel spells it, with `_` where the file had `-`.
    pub module: String,
    pub key: String,
    pub value: String,
}

pub open spec fn kernel_spelling(m: Seq<char>) -> Seq<char> {
    m.map_values(|c: char| if c == '-' {
        '_'
    } else {
        c
    })
}

/// The assignments among `words`, each split at its first `=`.
pub open spec fn assignments(module: Seq<char>, words: Seq<Seq<char>>) -> Seq<(Seq<char>, Seq<char>, Seq<char>)>
    decreases words.len(),
{
    if words.len() == 0 {
        Seq::empty()
    } else {
        assignments(module, words.drop_last()) + match crate::demand::pair_of(words.last()) {
            Some((k, v)) => seq![(kernel_spelling(module), k, v)],
            None => Seq::empty(),
        }
    }
}

/// The assignments of one line: nothing unless it is an `options` line
/// naming a module.
pub open spec fn line_options(line: Seq<char>) -> Seq<(Seq<char>, Seq<char>, Seq<char>)> {
    let w = crate::text::tokens(line);
    if w.len() >= 2 && w[0] == "options"@ {
        assignments(w[1], w.subrange(2, w.len() as int))
    } else {
        Seq::empty()
    }
}

/// The assignments of a modprobe.d file, line by line.
pub open spec fn file_options(lines: Seq<Seq<char>>) -> Seq<(Seq<char>, Seq<char>, Seq<char>)>
    decreases lines.len(),
{
    if lines.len() == 0 {
        Seq::empty()
    } else {
        file_options(lines.drop_last()) + line_options(lines.last())
    }
}

pub open spec fn option_views(v: Seq<ModuleOption>) -> Seq<(Seq<char>, Seq<char>, Seq<char>)> {
    v.map_values(|o: ModuleOption| (o.module@, o.key@, o.value@))
}

fn kernel_name(v: &Vec<char>) -> (r: String)
    ensures
        r@ == kernel_spelling(v@),
{
    let mut r = String::new();
    let mut i: usize = 0;
    while i < v.len()
        invariant
            i <= v.len(),
            r@ == kernel_spelling(v@.subrange(0, i as int)),
        decreases v.len() - i,
    {
        push_char(&mut r, if v[i] == '-' {
            '_'
        } else {
            v[i]
        });
        assert(kernel_spelling(v@.subrange(0, i + 1)) =~= kernel_spelling(v@.subrange(0, i as int)).push(
            if v@[i as int] == '-' {
                '_'
            } else {
                v@[i as int]
            },
        ));
        i += 1;
    }
    assert(v@.subrange(0, i as int) =~= v@);
    r
}

/// What a modprobe.d file asks of modules: every `options` line's
/// `KEY=VALUE` words, in order, for the module it names.
pub fn module_options(text: &str) -> (r: Vec<ModuleOption>)
    ensures
        option_views(r@) == file_options(crate::text::lines(text@)),
{
    let lines = crate::text::split_lines(&chars_of(text));
    let mut out: Vec<ModuleOption> = Vec::new();
    let mut i: usize = 0;
    while i < lines.len()
        invariant
            i <= lines.len(),
            views(lines@) == crate::text::lines(text@),
            option_views(out@) == file_options(views(lines@).subrange(0, i as int)),
        decreases lines.len() - i,
    {
        let ghost before = option_views(out@);
        assert(views(lines@).subrange(0, i + 1).drop_last() =~= views(lines@).subrange(0, i as int));
        assert(views(lines@).subrange(0, i + 1).last() == lines@[i as int]@);
        let w = crate::text::split_ws(&lines[i]);
        if w.len() >= 2 && is_word(&w[0], "options") {
            let module = kernel_name(&w[1]);
            let ghost ws = views(w@).subrange(2, w.len() as int);
            let mut j: usize = 2;
            while j < w.len()
                invariant
                    2 <= j <= w.len(),
                    ws == views(w@).subrange(2, w.len() as int),
                    module@ == kernel_spelling(w@[1]@),
                    option_views(out@) == before + assignments(w@[1]@, ws.subrange(0, j - 2)),
                decreases w.len() - j,
            {
                let ghost mid = option_views(out@);
                assert(ws.subrange(0, j - 1).drop_last() =~= ws.subrange(0, j - 2));
                assert(ws.subrange(0, j - 1).last() == w@[j as int]@);
                match crate::demand::split_pair(&w[j]) {
                    Some(kv) => {
                        out.push(ModuleOption { module: module.clone(), key: kv.0, value: kv.1 });
                        assert(option_views(out@) =~= mid + seq![(kernel_spelling(w@[1]@), out@.last().key@, out@.last().value@)]);
                    },
                    None => {
                        assert(option_views(out@) =~= mid + Seq::<(Seq<char>, Seq<char>, Seq<char>)>::empty());
                    },
                }
                j += 1;
            }
            assert(ws.subrange(0, w.len() - 2) =~= ws);
        } else {
            assert(option_views(out@) =~= before + Seq::<(Seq<char>, Seq<char>, Seq<char>)>::empty());
        }
        i += 1;
    }
    assert(views(lines@).subrange(0, lines.len() as int) =~= views(lines@));
    out
}

} // verus!
