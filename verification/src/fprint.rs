//! The Elan match-on-chip fingerprint sensor: what its answers mean, the
//! shape of the commands that carry a name, and how a sensor is recognised.
//!
//! Talking to the device through usbfs is the program's part; this module
//! decides what each byte says.
use vstd::prelude::*;

use crate::text::{
    chars_of, decimal_text, is_ws, lemma_lead_bounds, lemma_trail_bounds, parse_u64, parse_u64_in,
    push_decimal, push_str, trim, trimmed,
};

verus! {

/// Elan's USB vendor id.
pub const ELAN_VENDOR: u16 = 0x04f3;

/// The product ids this driver claims.
pub const ELAN_PRODUCTS: [u16; 72] = [
    0x0c00, 0x0c01, 0x0c02, 0x0c03, 0x0c04, 0x0c05, 0x0c06, 0x0c07, 0x0c08,
    0x0c09, 0x0c0a, 0x0c0b, 0x0c0c, 0x0c0d, 0x0c0e, 0x0c0f, 0x0c10, 0x0c11,
    0x0c12, 0x0c13, 0x0c14, 0x0c15, 0x0c16, 0x0c17, 0x0c18, 0x0c19, 0x0c1a,
    0x0c1b, 0x0c1c, 0x0c1d, 0x0c1e, 0x0c1f, 0x0c20, 0x0c21, 0x0c22, 0x0c23,
    0x0c24, 0x0c25, 0x0c26, 0x0c27, 0x0c28, 0x0c29, 0x0c2a, 0x0c2b, 0x0c2c,
    0x0c2d, 0x0c2e, 0x0c2f, 0x0c30, 0x0c31, 0x0c32, 0x0c33, 0x0c3d, 0x0c42,
    0x0c4b, 0x0c4d, 0x0c4f, 0x0c58, 0x0c63, 0x0c6e, 0x0c71, 0x0c72, 0x0c7d,
    0x0c82, 0x0c88, 0x0c8c, 0x0c8d, 0x0c99, 0x0c9c, 0x0ca5, 0x0caf, 0x0cb0,
];

/// Bulk endpoints: out for every command, in for an immediate answer, and a
/// second in for an answer that waits for a finger.
pub const EP_CMD_OUT: u8 = 0x01;
pub const EP_CMD_IN: u8 = 0x83;
pub const EP_FINGER_IN: u8 = 0x84;

/// How long a command that is not waiting for a finger may take.
pub const CMD_TIMEOUT_MS: u32 = 5000;

/// The interface the sensor's endpoints live on.
pub const INTERFACE: u32 = 0;

/// The largest response any command asks for.
pub const MAX_RESPONSE: usize = 128;

/// The name stored with a finger: two bytes kept zero, a length, and up to 92
/// bytes of label.
pub const USER_DATA_LEN: usize = 95;
pub const MAX_NAME: usize = 92;
/// A command that carries a name, and where the name begins in it.
pub const NAMED_CMD_LEN: usize = 128;
pub const NAME_AT: usize = 5;

/// Slots the sensor holds.
pub const MAX_ENROLLED: u8 = 10;

/// Frames this firmware wants before a template is complete.
pub const ENROL_FRAMES: u8 = 9;

/// The sensor's answers.
pub const MSG_OK: u8 = 0x00;
pub const STATUS_CALIBRATED: u8 = 0x03;
pub const MSG_NO_MATCH: u8 = 0xfd;
pub const MSG_AREA_NOT_ENOUGH: u8 = 0xfe;
pub const MSG_DIRTY: u8 = 0xfb;
pub const MSG_TOO_HIGH: u8 = 0x41;
pub const MSG_TOO_LEFT: u8 = 0x42;
pub const MSG_TOO_LOW: u8 = 0x43;
pub const MSG_TOO_RIGHT: u8 = 0x44;

/// `_IOC` directions.
pub const IOC_NONE: u32 = 0;
pub const IOC_WRITE: u32 = 1;
pub const IOC_READ: u32 = 2;

/// `_IOC(dir, type, nr, size)` from `<asm/ioctl.h>`.
pub open spec fn ioc_number(dir: u32, ty: u32, nr: u32, size: u32) -> u32 {
    (dir << 30u32) | (size << 16u32) | (ty << 8u32) | nr
}

pub fn ioc(dir: u32, ty: u32, nr: u32, size: u32) -> (r: u32)
    ensures
        r == ioc_number(dir, ty, nr, size),
{
    (dir << 30u32) | (size << 16u32) | (ty << 8u32) | nr
}

/// The usbfs requests, as `<linux/usbdevice_fs.h>` numbers them on 64-bit
/// Linux.
pub const USBDEVFS_CLAIMINTERFACE: u32 = 0x8004550f;
pub const USBDEVFS_RELEASEINTERFACE: u32 = 0x80045510;
pub const USBDEVFS_SUBMITURB: u32 = 0x8038550a;
pub const USBDEVFS_DISCARDURB: u32 = 0x0000550b;
pub const USBDEVFS_REAPURBNDELAY: u32 = 0x4008550d;
pub const USBDEVFS_CLEAR_HALT: u32 = 0x80045515;

/// The request numbers are the `_IOC` arithmetic the kernel header spells
/// them with.
pub proof fn lemma_request_numbers()
    ensures
        USBDEVFS_CLAIMINTERFACE == ioc_number(IOC_READ, 0x55, 15, 4),
        USBDEVFS_RELEASEINTERFACE == ioc_number(IOC_READ, 0x55, 16, 4),
        USBDEVFS_SUBMITURB == ioc_number(IOC_READ, 0x55, 10, 56),
        USBDEVFS_DISCARDURB == ioc_number(IOC_NONE, 0x55, 11, 0),
        USBDEVFS_REAPURBNDELAY == ioc_number(IOC_WRITE, 0x55, 13, 8),
        USBDEVFS_CLEAR_HALT == ioc_number(IOC_READ, 0x55, 21, 4),
{
    assert(0x8004550fu32 == (2u32 << 30u32) | (4u32 << 16u32) | (0x55u32 << 8u32) | 15u32) by (bit_vector);
    assert(0x80045510u32 == (2u32 << 30u32) | (4u32 << 16u32) | (0x55u32 << 8u32) | 16u32) by (bit_vector);
    assert(0x8038550au32 == (2u32 << 30u32) | (56u32 << 16u32) | (0x55u32 << 8u32) | 10u32) by (bit_vector);
    assert(0x0000550bu32 == (0u32 << 30u32) | (0u32 << 16u32) | (0x55u32 << 8u32) | 11u32) by (bit_vector);
    assert(0x4008550du32 == (1u32 << 30u32) | (8u32 << 16u32) | (0x55u32 << 8u32) | 13u32) by (bit_vector);
    assert(0x80045515u32 == (2u32 << 30u32) | (4u32 << 16u32) | (0x55u32 << 8u32) | 21u32) by (bit_vector);
}

/// Why a reading was no good.
#[derive(Clone, Copy, PartialEq, Eq, Structural, Debug)]
pub enum Retry {
    /// Off centre; the correction is the same whichever way.
    Centre,
    /// Not enough finger on the sensor.
    Area,
    /// Wet, dry or dirty.
    Dirty,
    /// Something else the sensor did not explain.
    Unknown(u8),
}

/// The outcome of one presentation of a finger.
#[derive(Clone, Copy, PartialEq, Eq, Structural, Debug)]
pub enum Scan {
    /// Matched, and the sensor's index for the finger it matched.
    Match(u8),
    /// A clean reading of a finger the sensor does not hold.
    NoMatch,
    /// A frame the sensor accepted towards a template.
    Frame,
    /// Unusable; say which correction and ask again.
    Retry(Retry),
}

pub open spec fn retry_of(code: u8) -> Retry {
    if code == MSG_TOO_HIGH || code == MSG_TOO_LOW || code == MSG_TOO_LEFT || code == MSG_TOO_RIGHT {
        Retry::Centre
    } else if code == MSG_AREA_NOT_ENOUGH {
        Retry::Area
    } else if code == MSG_DIRTY {
        Retry::Dirty
    } else {
        Retry::Unknown(code)
    }
}

pub open spec fn advice_text(r: Retry) -> Seq<char> {
    match r {
        Retry::Centre => "move your finger to the middle of the sensor"@,
        Retry::Area => "cover more of the sensor"@,
        Retry::Dirty => "wipe the sensor and try again"@,
        Retry::Unknown(_) => "try again"@,
    }
}

impl Retry {
    /// What a code the sensor gave instead of a reading asks for.
    pub fn of(code: u8) -> (r: Retry)
        ensures
            r == retry_of(code),
    {
        if code == MSG_TOO_HIGH || code == MSG_TOO_LOW || code == MSG_TOO_LEFT || code == MSG_TOO_RIGHT {
            Retry::Centre
        } else if code == MSG_AREA_NOT_ENOUGH {
            Retry::Area
        } else if code == MSG_DIRTY {
            Retry::Dirty
        } else {
            Retry::Unknown(code)
        }
    }

    /// What to tell the person, in the imperative and without blaming them.
    pub fn advice(self) -> (r: &'static str)
        ensures
            r@ == advice_text(self),
    {
        match self {
            Retry::Centre => "move your finger to the middle of the sensor",
            Retry::Area => "cover more of the sensor",
            Retry::Dirty => "wipe the sensor and try again",
            Retry::Unknown(_) => "try again",
        }
    }
}

/// What the answer to a verify says: no match, the slot of a match, or why
/// the reading was no good.
pub open spec fn verify_scan(code: u8) -> Scan {
    if code == MSG_NO_MATCH {
        Scan::NoMatch
    } else if code < MAX_ENROLLED {
        Scan::Match(code)
    } else {
        Scan::Retry(retry_of(code))
    }
}

pub fn scan_of_verify(code: u8) -> (r: Scan)
    ensures
        r == verify_scan(code),
{
    if code == MSG_NO_MATCH {
        Scan::NoMatch
    } else if code < MAX_ENROLLED {
        Scan::Match(code)
    } else {
        Scan::Retry(Retry::of(code))
    }
}

/// What the answer to an enrolment frame says: `None` when the answer is not
/// to an enrolment frame at all.
pub open spec fn frame_scan(kind: u8, code: u8) -> Option<Scan> {
    if kind != 0x40 {
        None
    } else if code == MSG_OK {
        Some(Scan::Frame)
    } else {
        Some(Scan::Retry(retry_of(code)))
    }
}

pub fn scan_of_frame(kind: u8, code: u8) -> (r: Option<Scan>)
    ensures
        r == frame_scan(kind, code),
{
    if kind != 0x40 {
        None
    } else if code == MSG_OK {
        Some(Scan::Frame)
    } else {
        Some(Scan::Retry(Retry::of(code)))
    }
}

/// The command that takes one enrolment frame: the slot the template is for,
/// how many frames it takes, and which this is.
pub fn enrol_frame_command(slot: u8, frame: u8) -> (r: Vec<u8>)
    ensures
        r@ == seq![0x40u8, 0xffu8, 0x01u8, slot, ENROL_FRAMES, frame, 0x00u8],
{
    vec![0x40u8, 0xffu8, 0x01u8, slot, ENROL_FRAMES, frame, 0x00u8]
}

/// How many fingers the sensor says it holds, never more than it has slots.
pub fn enrolled_count(reported: u8) -> (r: u8)
    ensures
        r == (if reported < MAX_ENROLLED {
            reported
        } else {
            MAX_ENROLLED
        }),
{
    if reported < MAX_ENROLLED {
        reported
    } else {
        MAX_ENROLLED
    }
}

/// How much of a label is stored.
pub open spec fn stored_len(label: Seq<u8>) -> nat {
    if label.len() < MAX_NAME {
        label.len()
    } else {
        MAX_NAME as nat
    }
}

/// The name stored with a finger: two zero bytes, the length, the label
/// (truncated to 92 bytes rather than refused), and zeroes.
pub open spec fn user_data_of(label: Seq<u8>) -> Seq<u8> {
    let n = stored_len(label);
    seq![0u8, 0u8, n as u8] + label.subrange(0, n as int) + Seq::new(
        (USER_DATA_LEN - 3 - n) as nat,
        |i: int| 0u8,
    )
}

pub fn user_data(label: &[u8]) -> (r: Vec<u8>)
    ensures
        r@ == user_data_of(label@),
        r@.len() == USER_DATA_LEN,
{
    let len = if label.len() < MAX_NAME {
        label.len()
    } else {
        MAX_NAME
    };
    let mut out: Vec<u8> = Vec::new();
    out.push(0u8);
    out.push(0u8);
    out.push(len as u8);
    let mut i: usize = 0;
    while i < len
        invariant
            len <= label.len(),
            len <= MAX_NAME,
            i <= len,
            out@ == seq![0u8, 0u8, len as u8] + label@.subrange(0, i as int),
        decreases len - i,
    {
        out.push(label[i]);
        assert(label@.subrange(0, i + 1) =~= label@.subrange(0, i as int).push(label@[i as int]));
        assert(out@ =~= seq![0u8, 0u8, len as u8] + label@.subrange(0, i + 1));
        i += 1;
    }
    let mut j: usize = 3 + len;
    while j < USER_DATA_LEN
        invariant
            len <= MAX_NAME,
            3 + len <= j <= USER_DATA_LEN,
            out@ == seq![0u8, 0u8, len as u8] + label@.subrange(0, len as int) + Seq::new(
                (j - 3 - len) as nat,
                |k: int| 0u8,
            ),
        decreases USER_DATA_LEN - j,
    {
        out.push(0u8);
        assert(out@ =~= seq![0u8, 0u8, len as u8] + label@.subrange(0, len as int) + Seq::new(
            (j + 1 - 3 - len) as nat,
            |k: int| 0u8,
        ));
        j += 1;
    }
    out
}

/// The command that stores a finger under `label`: `40 ff 11`, two bytes
/// the chip fills in, the name, and zeroes to the length it reads.
pub open spec fn store_command_of(label: Seq<u8>) -> Seq<u8> {
    seq![0x40u8, 0xffu8, 0x11u8, 0u8, 0u8] + user_data_of(label) + Seq::new(
        (NAMED_CMD_LEN - NAME_AT - USER_DATA_LEN) as nat,
        |i: int| 0u8,
    )
}

pub fn store_command(label: &[u8]) -> (r: Vec<u8>)
    ensures
        r@ == store_command_of(label@),
        r@.len() == NAMED_CMD_LEN,
{
    let mut cmd: Vec<u8> = vec![0x40u8, 0xffu8, 0x11u8, 0u8, 0u8];
    let mut data = user_data(label);
    cmd.append(&mut data);
    let ghost head = cmd@;
    let mut j: usize = NAME_AT + USER_DATA_LEN;
    while j < NAMED_CMD_LEN
        invariant
            NAME_AT + USER_DATA_LEN <= j <= NAMED_CMD_LEN,
            cmd@ == head + Seq::new((j - NAME_AT - USER_DATA_LEN) as nat, |k: int| 0u8),
        decreases NAMED_CMD_LEN - j,
    {
        cmd.push(0u8);
        assert(cmd@ =~= head + Seq::new((j + 1 - NAME_AT - USER_DATA_LEN) as nat, |k: int| 0u8));
        j += 1;
    }
    cmd
}

/// A command timeout as a `poll` timeout.
pub fn timeout_poll(ms: u32) -> (r: i32)
    ensures
        r == (if ms <= i32::MAX as u32 {
            ms as i32
        } else {
            i32::MAX
        }),
{
    if ms <= 2147483647u32 {
        ms as i32
    } else {
        i32::MAX
    }
}


pub open spec fn is_hex(c: char) -> bool {
    ('0' <= c && c <= '9') || ('a' <= c && c <= 'f') || ('A' <= c && c <= 'F')
}

pub open spec fn hex_digit(c: char) -> nat {
    if '0' <= c && c <= '9' {
        ((c as u32) - ('0' as u32)) as nat
    } else if 'a' <= c && c <= 'f' {
        ((c as u32) - ('a' as u32) + 10) as nat
    } else {
        ((c as u32) - ('A' as u32) + 10) as nat
    }
}

pub open spec fn hex_value(s: Seq<char>) -> nat
    decreases s.len(),
{
    if s.len() == 0 {
        0
    } else {
        hex_value(s.drop_last()) * 16 + hex_digit(s.last())
    }
}

/// `u16::from_str_radix(s, 16)`: an optional `+`, then hex digits of either
/// case, within range.
pub open spec fn unsigned_body(s: Seq<char>) -> Seq<char> {
    if s.len() > 0 && s[0] == '+' {
        s.drop_first()
    } else {
        s
    }
}

pub open spec fn all_hex(b: Seq<char>) -> bool {
    forall|k: int| 0 <= k < b.len() ==> is_hex(#[trigger] b[k])
}

pub open spec fn parse_hex_u16(s: Seq<char>) -> Option<u16> {
    let body = unsigned_body(s);
    if body.len() == 0 || !all_hex(body) || hex_value(body) > 0xffff {
        None
    } else {
        Some(hex_value(body) as u16)
    }
}

proof fn lemma_hex_prefix(s: Seq<char>, i: int)
    requires
        0 <= i <= s.len(),
    ensures
        hex_value(s.subrange(0, i)) <= hex_value(s),
    decreases s.len() - i,
{
    if i < s.len() {
        lemma_hex_prefix(s, i + 1);
        assert(s.subrange(0, i + 1).drop_last() =~= s.subrange(0, i));
    } else {
        assert(s.subrange(0, i) =~= s);
    }
}

/// `u16::from_str_radix(text.trim(), 16)`.
pub fn hex_u16(text: &str) -> (r: Option<u16>)
    ensures
        r == parse_hex_u16(trim(text@)),
{
    let t = trimmed(&chars_of(text));
    let ghost s = t@;
    let start: usize = if t.len() > 0 && t[0] == '+' {
        1
    } else {
        0
    };
    let ghost body = t@.subrange(start as int, t.len() as int);
    assert(body =~= unsigned_body(s));
    if start == t.len() {
        return None;
    }
    let mut acc: u32 = 0;
    let mut i = start;
    while i < t.len()
        invariant
            start <= i <= t.len(),
            t@ == trim(text@),
            body == unsigned_body(t@),
            body == t@.subrange(start as int, t.len() as int),
            forall|k: int| start <= k < i ==> is_hex(#[trigger] t@[k]),
            acc == hex_value(t@.subrange(start as int, i as int)),
            acc <= 0xffff,
        decreases t.len() - i,
    {
        let c = t[i];
        let d: u32 = if '0' <= c && c <= '9' {
            (c as u32) - ('0' as u32)
        } else if 'a' <= c && c <= 'f' {
            (c as u32) - ('a' as u32) + 10
        } else if 'A' <= c && c <= 'F' {
            (c as u32) - ('A' as u32) + 10
        } else {
            assert(!is_hex(body[i - start]));
            assert(!all_hex(body));
            assert(parse_hex_u16(trim(text@)) is None);
            return None;
        };
        assert(t@.subrange(start as int, i + 1).drop_last() =~= t@.subrange(start as int, i as int));
        let next = acc * 16 + d;
        if next > 0xffff {
            proof {
                assert(body.subrange(0, i + 1 - start) =~= t@.subrange(start as int, i + 1));
                lemma_hex_prefix(body, i + 1 - start);
                if all_hex(body) {
                    assert(hex_value(body) > 0xffff);
                }
            }
            return None;
        }
        acc = next;
        i += 1;
    }
    assert(t@.subrange(start as int, t.len() as int) =~= body);
    assert forall|k: int| 0 <= k < body.len() implies is_hex(#[trigger] body[k]) by {
        assert(body[k] == t@[start + k]);
    }
    assert(all_hex(body));
    Some(acc as u16)
}

/// Where a sensor is, as a path under `/dev/bus/usb`, and the product id
/// that found it.
pub struct Found {
    pub node: String,
    pub product: u16,
}

/// `{:03}`: a number padded with zeros to three digits.
pub open spec fn pad3(n: nat) -> Seq<char> {
    let t = decimal_text(n);
    if t.len() >= 3 {
        t
    } else {
        Seq::new((3 - t.len()) as nat, |i: int| '0') + t
    }
}

fn push_pad3(out: &mut String, n: u32)
    ensures
        final(out)@ == old(out)@ + pad3(n as nat),
{
    let mut digits = String::new();
    push_decimal(&mut digits, n as u64);
    assert(digits@ =~= decimal_text(n as nat));
    let d = chars_of(digits.as_str());
    let mut k = d.len();
    let ghost start = out@;
    while k < 3
        invariant
            d@ == decimal_text(n as nat),
            d.len() <= k,
            k <= 3 || k == d.len(),
            out@ == start + Seq::new((k - d.len()) as nat, |i: int| '0'),
        decreases 3 - k,
    {
        crate::text::push_char(out, '0');
        assert(out@ =~= start + Seq::new((k + 1 - d.len()) as nat, |i: int| '0'));
        k += 1;
    }
    push_str(out, digits.as_str());
    if d.len() >= 3 {
        assert(out@ =~= start + pad3(n as nat));
    } else {
        assert(out@ =~= start + pad3(n as nat));
    }
}

/// Whether a USB device with these ids is a sensor this driver claims.
pub open spec fn is_elan(vendor: u16, product: u16) -> bool {
    vendor == ELAN_VENDOR && ELAN_PRODUCTS@.contains(product)
}

/// What the sysfs files of one USB device say about a sensor there: the
/// `idVendor` and `idProduct` (hex) and `busnum` and `devnum` (decimal)
/// texts, each `None` where the file could not be read.
pub open spec fn sensor_at(
    vendor: Option<Seq<char>>,
    product: Option<Seq<char>>,
    bus: Option<Seq<char>>,
    dev: Option<Seq<char>>,
) -> Option<(Seq<char>, u16)> {
    let v = match vendor {
        Some(t) => parse_hex_u16(trim(t)),
        None => None,
    };
    let p = match product {
        Some(t) => parse_hex_u16(trim(t)),
        None => None,
    };
    let b = match bus {
        Some(t) => parse_u64(trim(t)),
        None => None,
    };
    let d = match dev {
        Some(t) => parse_u64(trim(t)),
        None => None,
    };
    if v is None || p is None || !is_elan(v->0, p->0) {
        None
    } else if b is None || d is None || b->0 > u32::MAX || d->0 > u32::MAX {
        None
    } else {
        Some(("/dev/bus/usb/"@ + pad3(b->0 as nat) + "/"@ + pad3(d->0 as nat), p->0))
    }
}

pub open spec fn text_of(t: Option<&str>) -> Option<Seq<char>> {
    match t {
        Some(s) => Some(s@),
        None => None,
    }
}

fn elan_product(product: u16) -> (r: bool)
    ensures
        r == ELAN_PRODUCTS@.contains(product),
{
    let mut i: usize = 0;
    while i < 72
        invariant
            i <= 72,
            forall|k: int| 0 <= k < i ==> ELAN_PRODUCTS@[k] != product,
        decreases 72 - i,
    {
        if ELAN_PRODUCTS[i] == product {
            assert(ELAN_PRODUCTS@[i as int] == product);
            return true;
        }
        i += 1;
    }
    false
}

fn dec_u32(t: Option<&str>) -> (r: Option<u32>)
    ensures
        r == (match text_of(t) {
            Some(s) => match parse_u64(trim(s)) {
                Some(n) => if n <= u32::MAX {
                    Some(n as u32)
                } else {
                    None
                },
                None => None,
            },
            None => None,
        }),
{
    match t {
        None => None,
        Some(s) => match crate::text::parse_trimmed_u64(s) {
            Some(n) => if n <= 4294967295u64 {
                Some(n as u32)
            } else {
                None
            },
            None => None,
        },
    }
}

/// A sensor at this USB device, if its ids are Elan's and its bus and
/// device numbers can be read.
pub fn found_at(vendor: Option<&str>, product: Option<&str>, bus: Option<&str>, dev: Option<&str>) -> (r:
    Option<Found>)
    ensures
        match r {
            None => sensor_at(text_of(vendor), text_of(product), text_of(bus), text_of(dev)) is None,
            Some(f) => sensor_at(text_of(vendor), text_of(product), text_of(bus), text_of(dev)) == Some(
                (f.node@, f.product),
            ),
        },
{
    let v = match vendor {
        Some(t) => hex_u16(t),
        None => None,
    };
    let p = match product {
        Some(t) => hex_u16(t),
        None => None,
    };
    let (v, p) = match (v, p) {
        (Some(v), Some(p)) => (v, p),
        _ => {
            return None;
        },
    };
    if v != ELAN_VENDOR || !elan_product(p) {
        return None;
    }
    let (b, d) = match (dec_u32(bus), dec_u32(dev)) {
        (Some(b), Some(d)) => (b, d),
        _ => {
            return None;
        },
    };
    let mut node = "/dev/bus/usb/".to_owned();
    push_pad3(&mut node, b);
    push_str(&mut node, "/");
    push_pad3(&mut node, d);
    Some(Found { node, product: p })
}

/// A finger stored on the sensor: the identifier bytes, kept at libfprint's
/// zeroes, and the label naming whose finger it is.
pub struct Record {
    pub id: [u8; 2],
    pub label: String,
}

impl Record {
    pub fn new(id: [u8; 2], label: &str) -> (r: Record)
        ensures
            r.id == id,
            r.label@ == label@,
    {
        Record { id, label: label.to_owned() }
    }

    pub fn label(&self) -> (r: &str)
        ensures
            r@ == self.label@,
    {
        self.label.as_str()
    }
}

/// The record a finger is enrolled under: `account:finger`.
pub fn record_for(account: &str, finger: &str) -> (r: Record)
    ensures
        r.id@ == seq![0u8, 0u8],
        r.label@ == account@ + ":"@ + finger@,
{
    let mut label = account.to_owned();
    push_str(&mut label, ":");
    push_str(&mut label, finger);
    let r = Record::new([0u8, 0u8], label.as_str());
    assert(r.id@ =~= seq![0u8, 0u8]);
    r
}

/// The word on the screen for a reading that was no good.
pub fn advice(why: Retry) -> (r: &'static str)
    ensures
        r@ == advice_text(why),
{
    why.advice()
}

} // verus!
