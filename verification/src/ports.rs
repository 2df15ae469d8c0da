//! What the port listing reads out of the kernel's own words: role files,
//! EDID blocks, route-netlink link messages and uevent broadcasts. The
//! listing walks sysfs and the sockets; this is what it makes of what it
//! read.
use vstd::prelude::*;
use vstd::utf8::{decode_utf8, valid_utf8};

use crate::demand::{lemma_nul_from_bounds, nul_from};
use crate::text::{
    chars_of, find_char, find_from, lemma_find_from_bounds, pad_right, push_padded, push_str, string_of,
    string_views, tokens, views,
};

verus! {

/// `s` with every leading `[` and `]` taken off.
pub open spec fn strip_front(s: Seq<char>) -> Seq<char>
    decreases s.len(),
{
    if s.len() > 0 && (s[0] == '[' || s[0] == ']') {
        strip_front(s.drop_first())
    } else {
        s
    }
}

/// `s` with every trailing `[` and `]` taken off.
pub open spec fn strip_back(s: Seq<char>) -> Seq<char>
    decreases s.len(),
{
    if s.len() > 0 && (s.last() == '[' || s.last() == ']') {
        strip_back(s.drop_last())
    } else {
        s
    }
}

/// The first word that opens with `[`.
pub open spec fn first_bracketed(words: Seq<Seq<char>>) -> Option<Seq<char>>
    decreases words.len(),
{
    if words.len() == 0 {
        None
    } else if words[0].len() > 0 && words[0][0] == '[' {
        Some(words[0])
    } else {
        first_bracketed(words.drop_first())
    }
}

/// The current role out of a role file such as `[host] device`: the
/// bracketed word, without its brackets; a file with only one role is
/// that role as it stands.
pub open spec fn current_role(roles: Seq<char>) -> Seq<char> {
    match first_bracketed(tokens(roles)) {
        Some(w) => strip_back(strip_front(w)),
        None => roles,
    }
}

/// [`current_role`].
pub fn bracketed(roles: &str) -> (r: String)
    ensures
        r@ == current_role(roles@),
{
    let words = crate::text::split_ws(&chars_of(roles));
    let mut i: usize = 0;
    assert(views(words@).subrange(0, words.len() as int) =~= views(words@));
    while i < words.len()
        invariant
            i <= words.len(),
            views(words@) == tokens(roles@),
            first_bracketed(views(words@).subrange(i as int, words.len() as int)) == first_bracketed(tokens(roles@)),
        decreases words.len() - i,
    {
        let ghost rest = views(words@).subrange(i as int, words.len() as int);
        assert(rest.drop_first() =~= views(words@).subrange(i + 1, words.len() as int));
        assert(rest[0] == words@[i as int]@);
        let w = &words[i];
        if w.len() > 0 && w[0] == '[' {
            let mut a: usize = 0;
            assert(w@.subrange(0, w.len() as int) =~= w@);
            while a < w.len() && (w[a] == '[' || w[a] == ']')
                invariant
                    a <= w.len(),
                    strip_front(w@.subrange(a as int, w.len() as int)) == strip_front(w@),
                decreases w.len() - a,
            {
                assert(w@.subrange(a as int, w.len() as int).drop_first() =~= w@.subrange(a + 1, w.len() as int));
                a += 1;
            }
            assert(w@.subrange(0, w.len() as int) =~= w@);
            let mut b: usize = w.len();
            while b > a && (w[b - 1] == '[' || w[b - 1] == ']')
                invariant
                    a <= b <= w.len(),
                    strip_front(w@) == w@.subrange(a as int, w.len() as int),
                    strip_back(w@.subrange(a as int, b as int)) == strip_back(strip_front(w@)),
                decreases b,
            {
                assert(w@.subrange(a as int, b as int).drop_last() =~= w@.subrange(a as int, b - 1));
                b -= 1;
            }
            return string_of(w, a, b);
        }
        i += 1;
    }
    roles.to_owned()
}

/// A panel's physical size in millimetres from its EDID base block, whose
/// bytes 21 and 22 are the width and height in centimetres; nothing when
/// the block is short or the panel gives a zero, as projectors do.
pub open spec fn edid_size_of(edid: Seq<u8>) -> Option<(u32, u32)> {
    if edid.len() < 23 {
        None
    } else {
        let w = edid[21] as u32 * 10;
        let h = edid[22] as u32 * 10;
        if w > 0 && h > 0 {
            Some((w as u32, h as u32))
        } else {
            None
        }
    }
}

/// [`edid_size_of`].
pub fn edid_size(edid: &[u8]) -> (r: Option<(u32, u32)>)
    ensures
        r == edid_size_of(edid@),
{
    if edid.len() < 23 {
        return None;
    }
    let w: u32 = edid[21] as u32 * 10;
    let h: u32 = edid[22] as u32 * 10;
    if w > 0 && h > 0 {
        Some((w, h))
    } else {
        None
    }
}

/// `String::from_utf8_lossy` of a byte string: its text, with each invalid
/// sequence replaced. Named, because which sequences count as one and are
/// replaced by one character is not written out here.
pub uninterp spec fn lossy_text(bytes: Seq<u8>) -> Seq<char>;

/// `String::from_utf8_lossy`. What is claimed of it: valid UTF-8 comes out
/// as the text it encodes, the result is [`lossy_text`] of the bytes, and
/// it is empty exactly when the bytes are. How an invalid sequence is
/// replaced is left unsaid.
#[verifier::external_body]
fn from_utf8_lossy(bytes: &[u8]) -> (r: String)
    ensures
        r@ == lossy_text(bytes@),
        valid_utf8(bytes@) ==> r@ == decode_utf8(bytes@),
        r@.len() == 0 <==> bytes@.len() == 0,
{
    String::from_utf8_lossy(bytes).into_owned()
}

/// A little-endian 16-bit field.
pub open spec fn le16(b: Seq<u8>, at: int) -> int {
    b[at] as int + 256 * b[at + 1] as int
}

/// A little-endian 32-bit field.
pub open spec fn le32(b: Seq<u8>, at: int) -> int {
    b[at] as int + 256 * b[at + 1] as int + 65536 * b[at + 2] as int + 16777216 * b[at + 3] as int
}

/// `x` rounded up to a multiple of four: netlink's alignment.
pub open spec fn align4(x: int) -> int {
    ((x + 3) / 4) * 4
}

pub proof fn lemma_align4(x: int)
    requires
        x >= 0,
    ensures
        x <= align4(x) <= x + 3,
{
    assert(x <= ((x + 3) / 4) * 4 <= x + 3) by (nonlinear_arith)
        requires
            x >= 0,
    ;
}

/// A netlink message header and a link message's fixed part are sixteen
/// bytes each.
pub const HEADER_LEN: usize = 16;

/// The link's name among the attributes from `at` to `end`: the last
/// `IFLA_IFNAME` one, up to its first zero byte, and empty when an
/// attribute is malformed or the name has no terminating zero.
pub open spec fn link_name(buf: Seq<u8>, at: int, end: int, name: Seq<char>) -> Seq<char>
    decreases end + 4 - at,
{
    if at < 0 || at + 4 > end || end > buf.len() {
        name
    } else {
        let rta_len = le16(buf, at);
        let rta_type = le16(buf, at + 2);
        if rta_len < 4 || at + rta_len > end {
            name
        } else {
            let next = if rta_type == 3 {
                let k = nul_from(buf.subrange(at + 4, at + rta_len), 0);
                if k < rta_len - 4 {
                    lossy_text(buf.subrange(at + 4, at + 4 + k))
                } else {
                    Seq::empty()
                }
            } else {
                name
            };
            proof {
                lemma_align4(rta_len);
            }
            link_name(buf, at + align4(rta_len), end, next)
        }
    }
}

/// The `RTM_NEWLINK` messages in a buffer from `offset` on, as the link's
/// index, its name, and whether it is running; each header's own length
/// bounds it, and a malformed one ends the buffer.
pub open spec fn links_from(buf: Seq<u8>, offset: int) -> Seq<(i32, Seq<char>, bool)>
    decreases buf.len() + 4 - offset,
{
    if offset < 0 || offset + 16 > buf.len() {
        Seq::empty()
    } else {
        let len = le32(buf, offset);
        if len < 16 || offset + len > buf.len() {
            Seq::empty()
        } else {
            let here = if le16(buf, offset + 4) == 16 && len >= 32 {
                let index = le32(buf, offset + 20);
                let flags = le32(buf, offset + 24);
                let name = link_name(buf, offset + 32, offset + len, Seq::empty());
                if name.len() > 0 {
                    seq![((if index >= 0x80000000 { index - 0x100000000 } else { index }) as i32, name, (flags / 64) % 2 == 1)]
                } else {
                    Seq::empty()
                }
            } else {
                Seq::empty()
            };
            proof {
                lemma_align4(len);
            }
            here + links_from(buf, offset + align4(len))
        }
    }
}

pub open spec fn link_views(v: Seq<(i32, String, bool)>) -> Seq<(i32, Seq<char>, bool)> {
    v.map_values(|l: (i32, String, bool)| (l.0, l.1@, l.2))
}

fn read16(buf: &[u8], at: usize) -> (r: usize)
    requires
        at + 2 <= buf@.len(),
    ensures
        r as int == le16(buf@, at as int),
        r < 65536,
{
    buf[at] as usize + 256 * (buf[at + 1] as usize)
}

fn read32(buf: &[u8], at: usize) -> (r: u64)
    requires
        at + 4 <= buf@.len(),
    ensures
        r as int == le32(buf@, at as int),
        r < 0x100000000,
{
    buf[at] as u64 + 256 * (buf[at + 1] as u64) + 65536 * (buf[at + 2] as u64) + 16777216 * (buf[at + 3] as u64)
}

fn name_in(buf: &[u8], start: usize, end: usize) -> (r: String)
    requires
        start <= end <= buf@.len(),
    ensures
        ({
            let k = nul_from(buf@.subrange(start as int, end as int), 0);
            r@ == if k < end - start {
                lossy_text(buf@.subrange(start as int, start + k))
            } else {
                Seq::<char>::empty()
            }
        }),
{
    let ghost piece = buf@.subrange(start as int, end as int);
    let mut k: usize = start;
    proof {
        lemma_nul_from_bounds(piece, 0);
    }
    while k < end && buf[k] != 0
        invariant
            start <= k <= end <= buf@.len(),
            piece == buf@.subrange(start as int, end as int),
            nul_from(piece, (k - start) as int) == nul_from(piece, 0),
        decreases end - k,
    {
        k += 1;
    }
    if k < end {
        from_utf8_lossy(vstd::slice::slice_subrange(buf, start, k))
    } else {
        String::new()
    }
}

/// The link's name from the attributes between `at` and `end`.
fn name_of_link(buf: &[u8], start: usize, end: usize) -> (r: String)
    requires
        end <= buf@.len(),
        start <= end,
    ensures
        r@ == link_name(buf@, start as int, end as int, Seq::empty()),
{
    let mut name = String::new();
    let mut at: usize = start;
    loop
        invariant_except_break
            end <= buf@.len(),
            start <= at,
            link_name(buf@, at as int, end as int, name@) == link_name(buf@, start as int, end as int, Seq::empty()),
        ensures
            name@ == link_name(buf@, start as int, end as int, Seq::empty()),
        decreases end + 4 - at,
    {
        if at > end || end - at < 4 {
            break;
        }
        let rta_len = read16(buf, at);
        let rta_type = read16(buf, at + 2);
        if rta_len < 4 || rta_len > end - at {
            break;
        }
        if rta_type == 3 {
            name = name_in(buf, at + 4, at + rta_len);
        }
        let step = ((rta_len + 3) / 4) * 4;
        proof {
            lemma_align4(rta_len as int);
        }
        if step > end - at {
            assert(step == align4(rta_len as int));
            assert(link_name(buf@, (at + step) as int, end as int, name@) == name@);
            break;
        }
        at = at + step;
    }
    name
}

/// The `RTM_NEWLINK` messages of a route-netlink buffer, in the byte order
/// of the machines this runs on: little-endian.
pub fn link_messages(buf: &[u8]) -> (r: Vec<(i32, String, bool)>)
    ensures
        link_views(r@) == links_from(buf@, 0),
{
    let mut out: Vec<(i32, String, bool)> = Vec::new();
    let mut offset: usize = 0;
    loop
        invariant_except_break
            offset <= buf@.len(),
            link_views(out@) + links_from(buf@, offset as int) == links_from(buf@, 0),
        ensures
            link_views(out@) == links_from(buf@, 0),
        decreases buf@.len() - offset,
    {
        if buf.len() - offset < 16 {
            assert(link_views(out@) + Seq::<(i32, Seq<char>, bool)>::empty() =~= link_views(out@));
            break;
        }
        let len = read32(buf, offset);
        if len < 16 || len > (buf.len() - offset) as u64 {
            assert(link_views(out@) + Seq::<(i32, Seq<char>, bool)>::empty() =~= link_views(out@));
            break;
        }
        let len = len as usize;
        let ghost before = link_views(out@);
        let ghost here: Seq<(i32, Seq<char>, bool)> = if le16(buf@, offset + 4) == 16 && len >= 32 {
            let index = le32(buf@, offset + 20);
            let flags = le32(buf@, offset + 24);
            let name = link_name(buf@, offset + 32, offset + len, Seq::empty());
            if name.len() > 0 {
                seq![((if index >= 0x80000000 { index - 0x100000000 } else { index }) as i32, name, (flags / 64) % 2 == 1)]
            } else {
                Seq::empty()
            }
        } else {
            Seq::empty()
        };
        if read16(buf, offset + 4) == 16 && len >= 32 {
            let index = read32(buf, offset + 20);
            let flags = read32(buf, offset + 24);
            let name = name_of_link(buf, offset + 32, offset + len);
            let idx: i32 = if index >= 0x80000000 {
                (index as i64 - 0x100000000) as i32
            } else {
                index as i32
            };
            if chars_of(name.as_str()).len() > 0 {
                let running = (flags / 64) % 2 == 1;
                out.push((idx, name, running));
                assert(link_views(out@) =~= before + here);
            } else {
                assert(link_views(out@) =~= before + here);
            }
        } else {
            assert(link_views(out@) =~= before + here);
        }
        let step: u64 = ((len as u64 + 3) / 4) * 4;
        proof {
            lemma_align4(len as int);
        }
        assert(links_from(buf@, offset as int) == here + links_from(buf@, offset + step));
        if step > (buf.len() - offset) as u64 {
            assert(links_from(buf@, offset + step) == Seq::<(i32, Seq<char>, bool)>::empty());
            assert(link_views(out@) =~= before + here + links_from(buf@, offset + step));
            break;
        }
        offset = offset + step as usize;
        assert(link_views(out@) + links_from(buf@, offset as int) =~= before + (here + links_from(buf@, offset as int)));
    }
    out
}


/// The NUL-separated fields of a message from index `i` on that are valid
/// UTF-8, empty ones included.
pub open spec fn all_fields_from(msg: Seq<u8>, i: int) -> Seq<Seq<char>>
    decreases msg.len() - i,
{
    if i < 0 || i > msg.len() {
        Seq::empty()
    } else {
        let k = nul_from(msg, i);
        let f = msg.subrange(i, k);
        let here = if valid_utf8(f) {
            seq![decode_utf8(f)]
        } else {
            Seq::empty()
        };
        proof {
            lemma_nul_from_bounds(msg, i);
        }
        if k >= msg.len() {
            here
        } else {
            here + all_fields_from(msg, k + 1)
        }
    }
}

fn raw_fields(msg: &[u8]) -> (r: Vec<Vec<char>>)
    ensures
        views(r@) == all_fields_from(msg@, 0),
{
    let mut out: Vec<Vec<char>> = Vec::new();
    let mut i: usize = 0;
    loop
        invariant_except_break
            views(out@) + all_fields_from(msg@, i as int) == all_fields_from(msg@, 0),
        invariant
            i <= msg.len(),
        ensures
            views(out@) == all_fields_from(msg@, 0),
        decreases msg.len() - i,
    {
        let mut k = i;
        while k < msg.len() && msg[k] != 0
            invariant
                i <= k <= msg.len(),
                nul_from(msg@, k as int) == nul_from(msg@, i as int),
            decreases msg.len() - k,
        {
            k += 1;
        }
        let piece = vstd::slice::slice_subrange(msg, i, k);
        let ghost before = views(out@);
        let ghost f = msg@.subrange(i as int, k as int);
        match crate::demand::utf8(piece) {
            Some(s) => {
                out.push(chars_of(s));
                assert(views(out@) =~= before + seq![decode_utf8(f)]);
            },
            None => {
                assert(views(out@) =~= before + Seq::<Seq<char>>::empty());
            },
        }
        if k >= msg.len() {
            assert(all_fields_from(msg@, i as int) == (if valid_utf8(f) {
                seq![decode_utf8(f)]
            } else {
                Seq::<Seq<char>>::empty()
            }));
            break;
        }
        assert(before + all_fields_from(msg@, i as int) =~= views(out@) + all_fields_from(msg@, k + 1));
        i = k + 1;
    }
    out
}

/// The value the last `key=` field among `fields` gives, or `v`.
pub open spec fn field_value(fields: Seq<Seq<char>>, key: Seq<char>, v: Seq<char>) -> Seq<char>
    decreases fields.len(),
{
    if fields.len() == 0 {
        v
    } else {
        let before = field_value(fields.drop_last(), key, v);
        match crate::demand::pair_of(fields.last()) {
            Some((k, val)) => if k == key {
                val
            } else {
                before
            },
            None => before,
        }
    }
}

fn value_of(fields: &Vec<Vec<char>>, from: usize, key: &str) -> (r: String)
    requires
        from <= fields.len(),
    ensures
        r@ == field_value(views(fields@).subrange(from as int, fields.len() as int), key@, Seq::empty()),
{
    let mut v = String::new();
    let mut i: usize = from;
    let ghost all = views(fields@).subrange(from as int, fields.len() as int);
    while i < fields.len()
        invariant
            from <= i <= fields.len(),
            all == views(fields@).subrange(from as int, fields.len() as int),
            v@ == field_value(all.subrange(0, i - from), key@, Seq::empty()),
        decreases fields.len() - i,
    {
        assert(all.subrange(0, i + 1 - from).drop_last() =~= all.subrange(0, i - from));
        assert(all.subrange(0, i + 1 - from).last() == fields@[i as int]@);
        match crate::demand::split_pair(&fields[i]) {
            Some(kv) => {
                if crate::text::same(&chars_of(kv.0.as_str()), &chars_of(key)) {
                    v = kv.1;
                }
            },
            None => {},
        }
        i += 1;
    }
    assert(all.subrange(0, fields.len() - from) =~= all);
    v
}

/// What follows the last `/` of a path; all of it when there is none.
pub open spec fn leaf(path: Seq<char>) -> Seq<char>
    decreases path.len(),
{
    if path.len() == 0 || path.last() == '/' {
        Seq::empty()
    } else {
        leaf(path.drop_last()).push(path.last())
    }
}

fn leaf_of(path: &Vec<char>) -> (r: Vec<char>)
    ensures
        r@ == leaf(path@),
{
    let mut k = path.len();
    assert(path@.subrange(0, k as int) =~= path@);
    assert(path@.subrange(k as int, path.len() as int) =~= Seq::<char>::empty());
    assert(leaf(path@) + Seq::<char>::empty() =~= leaf(path@));
    while k > 0 && path[k - 1] != '/'
        invariant
            k <= path.len(),
            leaf(path@) == leaf(path@.subrange(0, k as int)) + path@.subrange(k as int, path.len() as int),
        decreases k,
    {
        assert(path@.subrange(0, k as int).drop_last() =~= path@.subrange(0, k - 1));
        assert(leaf(path@.subrange(0, k as int)) == leaf(path@.subrange(0, k - 1)).push(path@[k - 1]));
        assert(path@.subrange(k - 1, path.len() as int) =~= seq![path@[k - 1]] + path@.subrange(k as int, path.len() as int));
        k -= 1;
    }
    assert(leaf(path@.subrange(0, k as int)) =~= Seq::<char>::empty());
    assert(path@.subrange(0, path.len() as int) =~= path@);
    crate::text::slice_of(path, k, path.len())
}

/// The line `raven-ports watch` prints for a uevent broadcast: the action,
/// the subsystem and what the event is about, with the product where the
/// event names one. Nothing for what is not a kernel uevent, for an event
/// with no subsystem, and for a USB interface, which arrive by the dozen
/// per plug and would bury the device's own line.
pub open spec fn uevent_text(msg: Seq<u8>) -> Option<Seq<char>> {
    let fs = all_fields_from(msg, 0);
    if fs.len() == 0 {
        None
    } else {
        let h = fs[0];
        let k = find_from(h, '@', 0);
        if k >= h.len() {
            None
        } else {
            let action = h.subrange(0, k);
            let devpath = h.subrange(k + 1, h.len() as int);
            let rest = fs.drop_first();
            let subsystem = field_value(rest, "SUBSYSTEM"@, Seq::empty());
            let devname = field_value(rest, "DEVNAME"@, Seq::empty());
            let interface = field_value(rest, "INTERFACE"@, Seq::empty());
            let product = field_value(rest, "PRODUCT"@, Seq::empty());
            if subsystem.len() == 0 || (subsystem == "usb"@ && leaf(devpath).contains(':')) {
                None
            } else {
                let what = if interface.len() > 0 {
                    interface
                } else if devname.len() > 0 {
                    devname
                } else {
                    leaf(devpath)
                };
                Some(pad_right(action, 7) + " "@ + pad_right(subsystem, 12) + " "@ + what + if product.len() == 0 {
                    Seq::empty()
                } else {
                    " ["@ + product + "]"@
                })
            }
        }
    }
}

/// [`uevent_text`].
pub fn uevent_line(msg: &[u8]) -> (r: Option<String>)
    ensures
        match r {
            Some(t) => uevent_text(msg@) == Some(t@),
            None => uevent_text(msg@) is None,
        },
{
    let fs = raw_fields(msg);
    if fs.len() == 0 {
        return None;
    }
    let h = &fs[0];
    let k = find_char(h, '@', 0);
    proof {
        lemma_find_from_bounds(h@, '@', 0);
    }
    if k >= h.len() {
        return None;
    }
    let action = string_of(h, 0, k);
    let devpath = crate::text::slice_of(h, k + 1, h.len());
    assert(views(fs@).drop_first() =~= views(fs@).subrange(1, fs.len() as int));
    let subsystem = value_of(&fs, 1, "SUBSYSTEM");
    let devname = value_of(&fs, 1, "DEVNAME");
    let interface = value_of(&fs, 1, "INTERFACE");
    let product = value_of(&fs, 1, "PRODUCT");
    let lf = leaf_of(&devpath);
    let sub_chars = chars_of(subsystem.as_str());
    if sub_chars.len() == 0 || (crate::text::is_word(&sub_chars, "usb") && crate::text::contains_char(
        to_str(&lf).as_str(),
        ':',
    )) {
        return None;
    }
    let what = if chars_of(interface.as_str()).len() > 0 {
        interface
    } else if chars_of(devname.as_str()).len() > 0 {
        devname
    } else {
        to_str(&lf)
    };
    let mut line = String::new();
    push_padded(&mut line, action.as_str(), 7);
    push_str(&mut line, " ");
    push_padded(&mut line, subsystem.as_str(), 12);
    push_str(&mut line, " ");
    push_str(&mut line, what.as_str());
    if chars_of(product.as_str()).len() > 0 {
        push_str(&mut line, " [");
        push_str(&mut line, product.as_str());
        push_str(&mut line, "]");
    }
    assert(line@ =~= uevent_text(msg@)->0);
    Some(line)
}

fn to_str(v: &Vec<char>) -> (r: String)
    ensures
        r@ == v@,
{
    crate::text::to_string(v)
}


/// What a sysfs attribute says: its text trimmed, or `fallback` when it
/// could not be read or says nothing.
pub open spec fn attribute_text(contents: Option<Seq<char>>, fallback: Seq<char>) -> Seq<char> {
    match contents {
        Some(t) => if crate::text::trim(t).len() > 0 {
            crate::text::trim(t)
        } else {
            fallback
        },
        None => fallback,
    }
}

/// [`attribute_text`] of what reading the attribute gave.
pub fn read_or(contents: Option<&str>, fallback: &str) -> (r: String)
    ensures
        r@ == attribute_text(
            match contents {
                Some(t) => Some(t@),
                None => None,
            },
            fallback@,
        ),
{
    match contents {
        Some(t) => {
            let v = crate::text::trimmed(&chars_of(t));
            if v.len() > 0 {
                to_str(&v)
            } else {
                fallback.to_owned()
            }
        },
        None => fallback.to_owned(),
    }
}

/// Whether a `/sys/class/typec` entry is a port rather than what is
/// plugged into one.
pub fn is_typec_port(name: &str) -> (r: bool)
    ensures
        r == (!(exists|i: int| crate::text::occurs_at(name@, "partner"@, i))
            && !(exists|i: int| crate::text::occurs_at(name@, "cable"@, i))),
{
    let v = chars_of(name);
    let p = crate::text::find_sub(&v, "partner");
    let c = crate::text::find_sub(&v, "cable");
    proof {
        reveal_strlit("partner");
        reveal_strlit("cable");
        crate::text::lemma_find_sub_found(name@, "partner"@, 0);
        crate::text::lemma_find_sub_found(name@, "cable"@, 0);
        if p >= v.len() {
            crate::text::lemma_find_sub_absent(name@, "partner"@, 0);
            assert forall|i: int| !crate::text::occurs_at(name@, "partner"@, i) by {
                if i >= 0 {
                    assert(!crate::text::occurs_at(name@, "partner"@, i));
                }
            }
        } else {
            assert(crate::text::occurs_at(name@, "partner"@, p as int));
        }
        if c >= v.len() {
            crate::text::lemma_find_sub_absent(name@, "cable"@, 0);
            assert forall|i: int| !crate::text::occurs_at(name@, "cable"@, i) by {
                if i >= 0 {
                    assert(!crate::text::occurs_at(name@, "cable"@, i));
                }
            }
        } else {
            assert(crate::text::occurs_at(name@, "cable"@, c as int));
        }
    }
    p >= v.len() && c >= v.len()
}

/// What an alternate mode's SVID is.
pub open spec fn svid_name(svid: Seq<char>) -> Seq<char> {
    if svid == "ff01"@ {
        "DisplayPort"@
    } else if svid == "8087"@ {
        "Thunderbolt"@
    } else if svid == "955"@ {
        "VirtualLink"@
    } else {
        "alt mode"@
    }
}

/// What is plugged into a USB-C port: its accessory mode and its
/// alternate modes, each as its SVID and whether it is active.
pub struct Partner {
    pub accessory: String,
    pub modes: Vec<(String, String)>,
}

pub open spec fn mode_texts(modes: Seq<(String, String)>) -> Seq<Seq<char>> {
    modes.map_values(|m: (String, String)| svid_name(m.0@) + " "@ + m.0@ + " ("@ + m.1@ + ")"@)
}

/// The line for a USB-C port: its current data and power roles, its power
/// delivery revision when it has one, and what is attached.
pub open spec fn typec_text(
    name: Seq<char>,
    data: Seq<char>,
    power: Seq<char>,
    pd: Seq<char>,
    partner: Option<(Seq<char>, Seq<Seq<char>>)>,
) -> Seq<char> {
    name + ": data "@ + current_role(data) + ", power "@ + current_role(power) + (if pd.len() > 0 && pd != "0.0"@ {
        ", PD "@ + pd
    } else {
        Seq::empty()
    }) + partner_text(partner)
}

pub open spec fn partner_text(partner: Option<(Seq<char>, Seq<Seq<char>>)>) -> Seq<char> {
    match partner {
        Some((accessory, modes)) => ", partner attached"@ + (if accessory != "none"@ {
            ", accessory "@ + accessory
        } else {
            Seq::empty()
        }) + if modes.len() > 0 {
            ": "@ + crate::text::joined(modes, ", "@)
        } else {
            Seq::empty()
        },
        None => ", nothing attached"@,
    }
}

fn mode_list(modes: &Vec<(String, String)>) -> (r: Vec<String>)
    ensures
        string_views(r@) == mode_texts(modes@),
{
    let mut texts: Vec<String> = Vec::new();
    let mut i: usize = 0;
    while i < modes.len()
        invariant
            i <= modes.len(),
            string_views(texts@) == mode_texts(modes@).subrange(0, i as int),
        decreases modes.len() - i,
    {
        let ghost before = string_views(texts@);
        let svid = modes[i].0.as_str();
        let sv = chars_of(svid);
        let what = if crate::text::is_word(&sv, "ff01") {
            "DisplayPort"
        } else if crate::text::is_word(&sv, "8087") {
            "Thunderbolt"
        } else if crate::text::is_word(&sv, "955") {
            "VirtualLink"
        } else {
            "alt mode"
        };
        let mut t = what.to_owned();
        push_str(&mut t, " ");
        push_str(&mut t, svid);
        push_str(&mut t, " (");
        push_str(&mut t, modes[i].1.as_str());
        push_str(&mut t, ")");
        texts.push(t);
        assert(string_views(texts@) =~= before.push(mode_texts(modes@)[i as int]));
        assert(mode_texts(modes@).subrange(0, i + 1) =~= mode_texts(modes@).subrange(0, i as int).push(
            mode_texts(modes@)[i as int],
        ));
        i += 1;
    }
    assert(mode_texts(modes@).subrange(0, i as int) =~= mode_texts(modes@));
    texts
}

fn push_partner(line: &mut String, partner: Option<&Partner>)
    ensures
        final(line)@ == old(line)@ + partner_text(
            match partner {
                Some(p) => Some((p.accessory@, mode_texts(p.modes@))),
                None => None,
            },
        ),
{
    let ghost head = line@;
    match partner {
        Some(pt) => {
            push_str(line, ", partner attached");
            if !crate::text::is_word(&chars_of(pt.accessory.as_str()), "none") {
                push_str(line, ", accessory ");
                push_str(line, pt.accessory.as_str());
            }
            let ghost mid = line@;
            if pt.modes.len() > 0 {
                let texts = mode_list(&pt.modes);
                push_str(line, ": ");
                crate::control::push_joined(line, &texts, ", ");
            }
            assert(line@ =~= head + partner_text(Some((pt.accessory@, mode_texts(pt.modes@)))));
        },
        None => {
            push_str(line, ", nothing attached");
        },
    }
}

/// [`typec_text`] of a port's role files, its power delivery revision and
/// its partner.
pub fn typec_line(name: &str, data: &str, power: &str, pd: &str, partner: Option<&Partner>) -> (r: String)
    ensures
        r@ == typec_text(
            name@,
            data@,
            power@,
            pd@,
            match partner {
                Some(p) => Some((p.accessory@, mode_texts(p.modes@))),
                None => None,
            },
        ),
{
    let mut line = name.to_owned();
    push_str(&mut line, ": data ");
    let d = bracketed(data);
    push_str(&mut line, d.as_str());
    push_str(&mut line, ", power ");
    let p = bracketed(power);
    push_str(&mut line, p.as_str());
    let pdv = chars_of(pd);
    if pdv.len() > 0 && !crate::text::is_word(&pdv, "0.0") {
        push_str(&mut line, ", PD ");
        push_str(&mut line, pd);
    }
    push_partner(&mut line, partner);
    line
}

} // verus!
