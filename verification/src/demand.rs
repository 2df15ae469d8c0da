//! Demand-started services: matching the kernel's device events against the
//! device rules in service definitions, and deciding which services a trigger
//! should actually start.
//!
//! Reading the uevent socket and walking sysfs are the program's part; what a
//! message says, whether a device matches a rule, and which names come out
//! are decided here.
use vstd::prelude::*;
use vstd::utf8::{decode_utf8, valid_utf8};

use crate::config::{config_named, find_config, DeviceTrigger, InitConfig, ServiceConfig};
use crate::service::{find_service, service_named, Service};
use crate::text::{
    decimal_text, push_decimal, push_str, split_lines, string_views, strings_of,
    chars_of, find_char, find_from, lemma_find_from_bounds, slice_of, starts_with, to_string,
    views,
};

verus! {

/// `std::str::from_utf8`: the text `bytes` encode, or `None` when they are
/// not valid UTF-8.
#[verifier::external_body]
pub(crate) fn utf8(bytes: &[u8]) -> (r: Option<&str>)
    ensures
        match r {
            Some(s) => valid_utf8(bytes@) && s@ == decode_utf8(bytes@),
            None => !valid_utf8(bytes@),
        },
{
    std::str::from_utf8(bytes).ok()
}

/// The uevent actions that count as "this device is here now".
pub open spec fn is_trigger_action(action: Seq<char>) -> bool {
    action == "add"@ || action == "bind"@
}

/// One kernel uevent: what happened, and what the kernel said about the
/// device it happened to.
pub struct Uevent {
    pub action: String,
    pub properties: Vec<(String, String)>,
}

pub type Props = Seq<(Seq<char>, Seq<char>)>;

pub open spec fn props_of(p: Seq<(String, String)>) -> Props {
    p.map_values(|kv: (String, String)| (kv.0@, kv.1@))
}

/// The first index at or after `i` holding a zero byte, or the length.
pub open spec fn nul_from(msg: Seq<u8>, i: int) -> int
    decreases msg.len() - i,
{
    if 0 <= i < msg.len() && msg[i] != 0 {
        nul_from(msg, i + 1)
    } else {
        i
    }
}

pub proof fn lemma_nul_from_bounds(msg: Seq<u8>, i: int)
    requires
        0 <= i <= msg.len(),
    ensures
        i <= nul_from(msg, i) <= msg.len(),
    decreases msg.len() - i,
{
    if i < msg.len() && msg[i] != 0 {
        lemma_nul_from_bounds(msg, i + 1);
    }
}

/// The NUL-separated fields of a message from index `i` on, keeping only
/// those that are valid UTF-8 and not empty.
pub open spec fn fields_from(msg: Seq<u8>, i: int) -> Seq<Seq<char>>
    decreases msg.len() - i,
{
    if i < 0 || i > msg.len() {
        Seq::empty()
    } else {
        let k = nul_from(msg, i);
        let f = msg.subrange(i, k);
        let here = if valid_utf8(f) && decode_utf8(f).len() > 0 {
            seq![decode_utf8(f)]
        } else {
            Seq::empty()
        };
        proof {
            lemma_nul_from_bounds(msg, i);
        }
        if k >= msg.len() {
            here
        } else {
            here + fields_from(msg, k + 1)
        }
    }
}

/// A `KEY=VALUE` field split at its first `=`.
pub open spec fn pair_of(f: Seq<char>) -> Option<(Seq<char>, Seq<char>)> {
    let j = find_from(f, '=', 0);
    if j >= f.len() {
        None
    } else {
        Some((f.subrange(0, j), f.subrange(j + 1, f.len() as int)))
    }
}

/// The `KEY=VALUE` fields among `fs`, in order.
pub open spec fn pairs_of(fs: Seq<Seq<char>>) -> Props
    decreases fs.len(),
{
    if fs.len() == 0 {
        Seq::empty()
    } else {
        pairs_of(fs.drop_last()) + match pair_of(fs.last()) {
            Some(p) => seq![p],
            None => Seq::empty(),
        }
    }
}

/// What a message on the uevent socket says: the kernel's
/// `action@devpath\0KEY=VALUE\0...`, or nothing for anything without an `@`
/// in its first field.
pub open spec fn uevent_of(msg: Seq<u8>) -> Option<(Seq<char>, Props)> {
    let fs = fields_from(msg, 0);
    if fs.len() == 0 {
        None
    } else {
        let h = fs[0];
        let k = find_from(h, '@', 0);
        if k >= h.len() {
            None
        } else {
            Some((h.subrange(0, k), pairs_of(fs.drop_first())))
        }
    }
}

fn message_fields(msg: &[u8]) -> (r: Vec<Vec<char>>)
    ensures
        views(r@) == fields_from(msg@, 0),
{
    let mut out: Vec<Vec<char>> = Vec::new();
    let mut i: usize = 0;
    loop
        invariant_except_break
            views(out@) + fields_from(msg@, i as int) == fields_from(msg@, 0),
        invariant
            i <= msg.len(),
        ensures
            views(out@) == fields_from(msg@, 0),
        decreases msg.len() - i,
    {
        let mut k = i;
        while k < msg.len() && msg[k] != 0
            invariant
                i <= k <= msg.len(),
                nul_from(msg@, k as int) == nul_from(msg@, i as int),
            decreases msg.len() - k,
        {
            k += 1;
        }
        let piece = vstd::slice::slice_subrange(msg, i, k);
        let ghost before = views(out@);
        let ghost f = msg@.subrange(i as int, k as int);
        match utf8(piece) {
            Some(s) => {
                let c = chars_of(s);
                if c.len() > 0 {
                    out.push(c);
                    assert(views(out@) =~= before + seq![decode_utf8(f)]);
                } else {
                    assert(views(out@) =~= before + Seq::<Seq<char>>::empty());
                }
            },
            None => {
                assert(views(out@) =~= before + Seq::<Seq<char>>::empty());
            },
        }
        if k >= msg.len() {
            assert(fields_from(msg@, i as int) == (if valid_utf8(f) && decode_utf8(f).len() > 0 {
                seq![decode_utf8(f)]
            } else {
                Seq::<Seq<char>>::empty()
            }));
            break;
        }
        assert(before + fields_from(msg@, i as int) =~= views(out@) + fields_from(msg@, k + 1));
        i = k + 1;
    }
    out
}

pub(crate) fn split_pair(f: &Vec<char>) -> (r: Option<(String, String)>)
    ensures
        match r {
            None => pair_of(f@) is None,
            Some(kv) => pair_of(f@) == Some((kv.0@, kv.1@)),
        },
{
    let j = find_char(f, '=', 0);
    proof {
        lemma_find_from_bounds(f@, '=', 0);
    }
    if j >= f.len() {
        None
    } else {
        Some((crate::text::string_of(f, 0, j), crate::text::string_of(f, j + 1, f.len())))
    }
}

/// The kernel's wire format: `action@devpath\0KEY=VALUE\0KEY=VALUE\0...`.
/// Anything whose first field has no `@` -- libudev's re-broadcasts among
/// them -- is not a kernel uevent.
pub fn parse_uevent(msg: &[u8]) -> (r: Option<Uevent>)
    ensures
        match r {
            None => uevent_of(msg@) is None,
            Some(ev) => uevent_of(msg@) == Some((ev.action@, props_of(ev.properties@))),
        },
{
    let fs = message_fields(msg);
    if fs.len() == 0 {
        return None;
    }
    let k = find_char(&fs[0], '@', 0);
    proof {
        lemma_find_from_bounds(fs@[0]@, '@', 0);
    }
    if k >= fs[0].len() {
        return None;
    }
    let action = crate::text::string_of(&fs[0], 0, k);
    let mut properties: Vec<(String, String)> = Vec::new();
    let ghost rest = views(fs@).drop_first();
    let mut i: usize = 1;
    while i < fs.len()
        invariant
            1 <= i <= fs.len(),
            rest == views(fs@).drop_first(),
            props_of(properties@) == pairs_of(rest.subrange(0, i - 1)),
        decreases fs.len() - i,
    {
        let ghost before = props_of(properties@);
        assert(rest.subrange(0, i as int).drop_last() =~= rest.subrange(0, i - 1));
        assert(rest.subrange(0, i as int).last() == fs@[i as int]@);
        match split_pair(&fs[i]) {
            Some(kv) => {
                properties.push(kv);
                assert(props_of(properties@) =~= before + seq![(kv.0@, kv.1@)]);
            },
            None => {
                assert(props_of(properties@) =~= before + Seq::<(Seq<char>, Seq<char>)>::empty());
            },
        }
        i += 1;
    }
    assert(rest.subrange(0, fs.len() - 1) =~= rest);
    Some(Uevent { action, properties })
}

/// The first value `key` has among `props`.
pub open spec fn prop_from(props: Props, key: Seq<char>, i: int) -> Option<Seq<char>>
    decreases props.len() - i,
{
    if i < 0 || i >= props.len() {
        None
    } else if props[i].0 == key {
        Some(props[i].1)
    } else {
        prop_from(props, key, i + 1)
    }
}

pub open spec fn prop(props: Props, key: Seq<char>) -> Option<Seq<char>> {
    prop_from(props, key, 0)
}

/// The first value `key` has among `properties`.
pub fn property<'a>(properties: &'a Vec<(String, String)>, key: &str) -> (r: Option<&'a str>)
    ensures
        match r {
            None => prop(props_of(properties@), key@) is None,
            Some(v) => prop(props_of(properties@), key@) == Some(v@),
        },
{
    let want = chars_of(key);
    let mut i: usize = 0;
    while i < properties.len()
        invariant
            i <= properties.len(),
            want@ == key@,
            prop_from(props_of(properties@), key@, i as int) == prop(props_of(properties@), key@),
        decreases properties.len() - i,
    {
        let k = chars_of(properties[i].0.as_str());
        if crate::text::same(&k, &want) {
            return Some(properties[i].1.as_str());
        }
        i += 1;
    }
    None
}

/// Exact, or a prefix when the pattern ends in `*`; a `*` anywhere else is
/// an ordinary character.
pub open spec fn pattern_matches(pattern: Seq<char>, value: Seq<char>) -> bool {
    if pattern.len() > 0 && pattern.last() == '*' {
        starts_with(value, pattern.drop_last())
    } else {
        pattern == value
    }
}

pub fn matches_pattern(pattern: &str, value: &str) -> (r: bool)
    ensures
        r == pattern_matches(pattern@, value@),
{
    let p = chars_of(pattern);
    let v = chars_of(value);
    if p.len() > 0 && p[p.len() - 1] == '*' {
        let prefix = slice_of(&p, 0, p.len() - 1);
        assert(prefix@ =~= p@.drop_last());
        let mut i: usize = 0;
        if prefix.len() > v.len() {
            return false;
        }
        while i < prefix.len()
            invariant
                prefix@ == p@.drop_last(),
                p@ == pattern@,
                v@ == value@,
                p.len() > 0 && p@.last() == '*',
                prefix.len() <= v.len(),
                i <= prefix.len(),
                forall|j: int| 0 <= j < i ==> v@[j] == prefix@[j],
            decreases prefix.len() - i,
        {
            if v[i] != prefix[i] {
                assert(v@.subrange(0, prefix.len() as int)[i as int] != prefix@[i as int]);
                return false;
            }
            i += 1;
        }
        assert(v@.subrange(0, prefix.len() as int) =~= prefix@);
        true
    } else {
        crate::text::same(&p, &v)
    }
}

/// Whether the device has `key` and its value matches `pattern`.
pub open spec fn prop_matches(props: Props, key: Seq<char>, pattern: Seq<char>) -> bool {
    match prop(props, key) {
        Some(v) => pattern_matches(pattern, v),
        None => false,
    }
}

pub open spec fn rule_props(rule: DeviceTrigger) -> Props {
    props_of(rule.properties@)
}

/// Whether one rule matches one device of subsystem `subsystem`: a rule
/// with no subsystem matches nothing; otherwise the subsystem, the device
/// type if the rule names one, and every property the rule names must agree.
pub open spec fn device_matches(rule: DeviceTrigger, subsystem: Seq<char>, props: Props) -> bool {
    &&& rule.subsystem@.len() > 0
    &&& rule.subsystem@ == subsystem
    &&& (rule.devtype matches Some(d) ==> prop(props, "DEVTYPE"@) == Some(d@))
    &&& forall|i: int|
        0 <= i < rule.properties@.len() ==> #[trigger] prop_matches(
            props,
            rule_props(rule)[i].0,
            rule_props(rule)[i].1,
        )
}

/// Whether one rule matches one device.
pub fn matches_device(rule: &DeviceTrigger, subsystem: &str, properties: &Vec<(String, String)>) -> (r: bool)
    ensures
        r == device_matches(*rule, subsystem@, props_of(properties@)),
{
    let rs = chars_of(rule.subsystem.as_str());
    let ss = chars_of(subsystem);
    if rs.len() == 0 || !crate::text::same(&rs, &ss) {
        return false;
    }
    match &rule.devtype {
        Some(d) => match property(properties, "DEVTYPE") {
            Some(v) => {
                if !crate::text::same(&chars_of(v), &chars_of(d.as_str())) {
                    return false;
                }
            },
            None => {
                return false;
            },
        },
        None => {},
    }
    let mut i: usize = 0;
    while i < rule.properties.len()
        invariant
            i <= rule.properties.len(),
            forall|j: int|
                0 <= j < i ==> #[trigger] prop_matches(
                    props_of(properties@),
                    rule_props(*rule)[j].0,
                    rule_props(*rule)[j].1,
                ),
        decreases rule.properties.len() - i,
    {
        let key = rule.properties[i].0.as_str();
        let pattern = rule.properties[i].1.as_str();
        assert(rule_props(*rule)[i as int] == (key@, pattern@));
        match property(properties, key) {
            Some(value) => {
                if !matches_pattern(pattern, value) {
                    assert(!prop_matches(props_of(properties@), rule_props(*rule)[i as int].0, rule_props(*rule)[i as int].1));
                    return false;
                }
            },
            None => {
                assert(!prop_matches(props_of(properties@), rule_props(*rule)[i as int].0, rule_props(*rule)[i as int].1));
                return false;
            },
        }
        i += 1;
    }
    true
}


/// The device rules a service declares, or none.
pub open spec fn rules_of(cfg: ServiceConfig) -> Seq<DeviceTrigger> {
    match cfg.demand {
        Some(d) => d.device@,
        None => Seq::empty(),
    }
}

/// The device rules a service declares, or none.
pub fn device_rules(cfg: &ServiceConfig) -> (r: &[DeviceTrigger])
    ensures
        r@ == rules_of(*cfg),
{
    match &cfg.demand {
        Some(demand) => demand.device.as_slice(),
        None => &[],
    }
}

/// A device named the way a person would recognise it in a log line.
pub open spec fn device_name(subsystem: Seq<char>, props: Props) -> Seq<char> {
    let name = match prop(props, "DEVNAME"@) {
        Some(n) => n,
        None => match prop(props, "INTERFACE"@) {
            Some(n) => n,
            None => match prop(props, "PRODUCT"@) {
                Some(n) => n,
                None => "device"@,
            },
        },
    };
    subsystem + " "@ + name
}

pub fn describe_device(subsystem: &str, properties: &Vec<(String, String)>) -> (r: String)
    ensures
        r@ == device_name(subsystem@, props_of(properties@)),
{
    let name = match property(properties, "DEVNAME") {
        Some(n) => n,
        None => match property(properties, "INTERFACE") {
            Some(n) => n,
            None => match property(properties, "PRODUCT") {
                Some(n) => n,
                None => "device",
            },
        },
    };
    let mut r = subsystem.to_owned();
    push_str(&mut r, " ");
    push_str(&mut r, name);
    r
}

/// The `KEY=VALUE` lines of a sysfs `uevent` file.
pub open spec fn sysfs_props(text: Seq<char>) -> Props {
    pairs_of(crate::text::lines(text))
}

/// A device's uevent properties as sysfs keeps them: the same `KEY=VALUE`
/// pairs a broadcast carries, one per line.
pub fn sysfs_properties(text: &str) -> (r: Vec<(String, String)>)
    ensures
        props_of(r@) == sysfs_props(text@),
{
    let ls = split_lines(&chars_of(text));
    let ghost all = views(ls@);
    let mut out: Vec<(String, String)> = Vec::new();
    let mut i: usize = 0;
    while i < ls.len()
        invariant
            i <= ls.len(),
            all == views(ls@),
            props_of(out@) == pairs_of(all.subrange(0, i as int)),
        decreases ls.len() - i,
    {
        let ghost before = props_of(out@);
        assert(all.subrange(0, i + 1).drop_last() =~= all.subrange(0, i as int));
        assert(all.subrange(0, i + 1).last() == ls@[i as int]@);
        match split_pair(&ls[i]) {
            Some(kv) => {
                out.push(kv);
                assert(props_of(out@) =~= before + seq![(kv.0@, kv.1@)]);
            },
            None => {
                assert(props_of(out@) =~= before + Seq::<(Seq<char>, Seq<char>)>::empty());
            },
        }
        i += 1;
    }
    assert(all.subrange(0, ls.len() as int) =~= all);
    out
}

/// One device found on the machine: the subsystem whose directory it was
/// found under, and its uevent properties.
pub struct Device {
    pub subsystem: String,
    pub properties: Vec<(String, String)>,
}

/// Whether some device of the inventory matches `rule`.
pub open spec fn rule_present(rule: DeviceTrigger, devices: Seq<Device>) -> bool {
    exists|j: int|
        0 <= j < devices.len() && devices[j].subsystem@ == rule.subsystem@ && #[trigger] device_matches(
            rule,
            rule.subsystem@,
            props_of(devices[j].properties@),
        )
}

/// Whether some rule of a service is satisfied by a device already present.
pub open spec fn service_present(cfg: ServiceConfig, devices: Seq<Device>) -> bool {
    exists|i: int| 0 <= i < rules_of(cfg).len() && #[trigger] rule_present(rules_of(cfg)[i], devices)
}

/// Which enabled, demand-started services the devices already present want,
/// each named once, in the order of the configuration.
pub open spec fn present_names(services: Seq<ServiceConfig>, devices: Seq<Device>) -> Seq<Seq<char>>
    decreases services.len(),
{
    if services.len() == 0 {
        Seq::empty()
    } else {
        let before = present_names(services.drop_last(), devices);
        let cfg = services.last();
        if cfg.enabled && service_present(cfg, devices) && !before.contains(cfg.name@) {
            before.push(cfg.name@)
        } else {
            before
        }
    }
}

fn rule_found(rule: &DeviceTrigger, devices: &Vec<Device>) -> (r: bool)
    ensures
        r == rule_present(*rule, devices@),
{
    let sub = chars_of(rule.subsystem.as_str());
    let mut j: usize = 0;
    while j < devices.len()
        invariant
            j <= devices.len(),
            sub@ == rule.subsystem@,
            forall|k: int|
                0 <= k < j ==> !(devices@[k].subsystem@ == rule.subsystem@ && #[trigger] device_matches(
                    *rule,
                    rule.subsystem@,
                    props_of(devices@[k].properties@),
                )),
        decreases devices.len() - j,
    {
        if crate::text::same(&chars_of(devices[j].subsystem.as_str()), &sub) && matches_device(
            rule,
            rule.subsystem.as_str(),
            &devices[j].properties,
        ) {
            return true;
        }
        j += 1;
    }
    false
}

fn name_listed(names: &Vec<String>, name: &str) -> (r: bool)
    ensures
        r == string_views(names@).contains(name@),
{
    let want = chars_of(name);
    let mut i: usize = 0;
    while i < names.len()
        invariant
            i <= names.len(),
            want@ == name@,
            forall|k: int| 0 <= k < i ==> (#[trigger] names@[k])@ != name@,
        decreases names.len() - i,
    {
        if crate::text::same(&chars_of(names[i].as_str()), &want) {
            assert(string_views(names@)[i as int] == name@);
            return true;
        }
        i += 1;
    }
    proof {
        if string_views(names@).contains(name@) {
            let k = choose|k: int| 0 <= k < string_views(names@).len() && string_views(names@)[k] == name@;
            assert(names@[k]@ == name@);
        }
    }
    false
}

/// Which demand-started services the machine already wants, before a single
/// broadcast has been heard: the coldplug answer, from the devices the walk of
/// sysfs found.
pub fn already_present_in(config: &InitConfig, devices: &Vec<Device>) -> (r: Vec<String>)
    ensures
        string_views(r@) == present_names(config.services@, devices@),
{
    let mut wanted: Vec<String> = Vec::new();
    let mut i: usize = 0;
    while i < config.services.len()
        invariant
            i <= config.services.len(),
            string_views(wanted@) == present_names(config.services@.subrange(0, i as int), devices@),
        decreases config.services.len() - i,
    {
        let cfg = &config.services[i];
        let ghost before = string_views(wanted@);
        assert(config.services@.subrange(0, i + 1).drop_last() =~= config.services@.subrange(0, i as int));
        if cfg.enabled && !name_listed(&wanted, cfg.name.as_str()) {
            let rules = device_rules(cfg);
            let mut j: usize = 0;
            let mut found = false;
            while j < rules.len()
                invariant
                    j <= rules.len(),
                    rules@ == rules_of(*cfg),
                    found == (exists|k: int| 0 <= k < j && #[trigger] rule_present(rules@[k], devices@)),
                decreases rules.len() - j,
            {
                if rule_found(&rules[j], devices) {
                    found = true;
                    j = rules.len();
                } else {
                    j += 1;
                }
            }
            if found {
                wanted.push(cfg.name.clone());
                assert(string_views(wanted@) =~= before.push(cfg.name@));
            }
        }
        i += 1;
    }
    assert(config.services@.subrange(0, config.services.len() as int) =~= config.services@);
    wanted
}

/// What is watching for device triggers.
#[derive(Clone, Copy, PartialEq, Eq, Structural, Debug)]
pub enum Watching {
    /// The uevent socket is open and device rules will fire.
    Devices,
    /// It is not, and they will not.
    Nothing,
    /// This supervisor does not watch devices at all: a session supervisor.
    NotInThisMode,
}

/// One line for the log: a warning, which reaches the console, or not.
pub struct Notice {
    pub warn: bool,
    pub text: String,
}

pub open spec fn notice_views(v: Seq<Notice>) -> Seq<(bool, Seq<char>)> {
    v.map_values(|n: Notice| (n.warn, n.text@))
}

pub open spec fn no_trigger_notices(n: Seq<char>) -> Seq<(bool, Seq<char>)> {
    seq![
        (true, "Service "@ + n + " is marked started-on-demand but names no trigger;"@),
        (true, "  it will start only for an explicit `raven-rc start "@ + n + "`"@),
    ]
}

pub open spec fn daemon_notice(n: Seq<char>, who: Seq<char>) -> Seq<(bool, Seq<char>)> {
    seq![(false, "Service "@ + n + " starts on demand, when "@ + who + " asks for it"@)]
}

pub open spec fn plural(n: nat) -> Seq<char> {
    if n == 1 {
        Seq::<char>::empty()
    } else {
        "s"@
    }
}

pub open spec fn asker(daemon: Option<String>) -> Seq<char> {
    match daemon {
        Some(w) => " or when "@ + w@ + " asks"@,
        None => Seq::<char>::empty(),
    }
}

pub open spec fn rules_text(n: Seq<char>, rules: nat, daemon: Option<String>) -> Seq<char> {
    "Service "@ + n + " starts on demand, on "@ + decimal_text(rules) + " device rule"@ + plural(rules)
        + asker(daemon)
}

pub open spec fn rules_notice(n: Seq<char>, rules: nat, daemon: Option<String>) -> Seq<(bool, Seq<char>)> {
    seq![(false, rules_text(n, rules, daemon))]
}

pub open spec fn unwatched_notices(n: Seq<char>) -> Seq<(bool, Seq<char>)> {
    seq![
        (true, "Service "@ + n + " starts on demand, but the uevent socket is not open;"@),
        (true, "  start it with `raven-rc start "@ + n + "` until that is fixed"@),
    ]
}

pub open spec fn session_notices(n: Seq<char>) -> Seq<(bool, Seq<char>)> {
    seq![
        (true, "Service "@ + n + " names a device trigger, which a session supervisor"@),
        (true, "  does not watch for; start it with `raven-rc --user start "@ + n + "`"@),
    ]
}

/// What is said about one enabled service's demand block.
pub open spec fn demand_notices(cfg: ServiceConfig, watching: Watching) -> Seq<(bool, Seq<char>)> {
    let n = cfg.name@;
    match cfg.demand {
        None => Seq::empty(),
        Some(d) => if d.device@.len() == 0 {
            match d.daemon {
                None => no_trigger_notices(n),
                Some(who) => daemon_notice(n, who@),
            }
        } else {
            match watching {
                Watching::Devices => rules_notice(n, d.device@.len(), d.daemon),
                Watching::Nothing => unwatched_notices(n),
                Watching::NotInThisMode => session_notices(n),
            }
        },
    }
}

/// What is said, once at boot, about every enabled service's demand block.
pub open spec fn configuration_notices(services: Seq<ServiceConfig>, watching: Watching) -> Seq<
    (bool, Seq<char>),
>
    decreases services.len(),
{
    if services.len() == 0 {
        Seq::empty()
    } else {
        configuration_notices(services.drop_last(), watching) + if services.last().enabled {
            demand_notices(services.last(), watching)
        } else {
            Seq::empty()
        }
    }
}

fn say(warn: bool, a: &str, name: &str, b: &str) -> (r: Notice)
    ensures
        r.warn == warn,
        r.text@ == a@ + name@ + b@,
{
    let mut t = a.to_owned();
    push_str(&mut t, name);
    push_str(&mut t, b);
    Notice { warn, text: t }
}

fn pair(a: Notice, b: Notice) -> (r: Vec<Notice>)
    ensures
        notice_views(r@) == seq![(a.warn, a.text@), (b.warn, b.text@)],
{
    let r = vec![a, b];
    assert(notice_views(r@) =~= seq![(a.warn, a.text@), (b.warn, b.text@)]);
    r
}

fn rules_line(n: &str, rules: usize, daemon: &Option<String>) -> (r: Vec<Notice>)
    ensures
        notice_views(r@) == rules_notice(n@, rules as nat, *daemon),
{
    let mut t = "Service ".to_owned();
    push_str(&mut t, n);
    push_str(&mut t, " starts on demand, on ");
    push_decimal(&mut t, rules as u64);
    push_str(&mut t, " device rule");
    let ghost head = t@;
    if rules != 1 {
        push_str(&mut t, "s");
    }
    assert(t@ == head + plural(rules as nat));
    let ghost mid = t@;
    match daemon {
        Some(w) => {
            push_str(&mut t, " or when ");
            push_str(&mut t, w.as_str());
            push_str(&mut t, " asks");
        },
        None => {},
    }
    assert(t@ == mid + asker(*daemon));
    assert(t@ == rules_text(n@, rules as nat, *daemon));
    let r = vec![Notice { warn: false, text: t }];
    assert(notice_views(r@) =~= rules_notice(n@, rules as nat, *daemon));
    r
}

fn notices_of(cfg: &ServiceConfig, watching: Watching) -> (r: Vec<Notice>)
    ensures
        notice_views(r@) == demand_notices(*cfg, watching),
{
    let n = cfg.name.as_str();
    match &cfg.demand {
        None => {
            let r: Vec<Notice> = Vec::new();
            assert(notice_views(r@) =~= Seq::<(bool, Seq<char>)>::empty());
            r
        },
        Some(d) => {
            let rules = d.device.len();
            if rules == 0 {
                match &d.daemon {
                    None => pair(
                        say(true, "Service ", n, " is marked started-on-demand but names no trigger;"),
                        say(true, "  it will start only for an explicit `raven-rc start ", n, "`"),
                    ),
                    Some(who) => {
                        let mut t = "Service ".to_owned();
                        push_str(&mut t, n);
                        push_str(&mut t, " starts on demand, when ");
                        push_str(&mut t, who.as_str());
                        push_str(&mut t, " asks for it");
                        let r = vec![Notice { warn: false, text: t }];
                        assert(notice_views(r@) =~= daemon_notice(n@, who@));
                        r
                    },
                }
            } else {
                match watching {
                    Watching::Devices => rules_line(n, rules, &d.daemon),
                    Watching::Nothing => pair(
                        say(true, "Service ", n, " starts on demand, but the uevent socket is not open;"),
                        say(true, "  start it with `raven-rc start ", n, "` until that is fixed"),
                    ),
                    Watching::NotInThisMode => pair(
                        say(true, "Service ", n, " names a device trigger, which a session supervisor"),
                        say(true, "  does not watch for; start it with `raven-rc --user start ", n, "`"),
                    ),
                }
            }
        },
    }
}

/// Say, once at boot, what is demand-started and what will start it: a
/// warning for a service that can never start by itself, and for device rules
/// nothing is watching for; an ordinary line otherwise.
pub fn report_configuration(config: &InitConfig, watching: Watching) -> (r: Vec<Notice>)
    ensures
        notice_views(r@) == configuration_notices(config.services@, watching),
{
    let mut out: Vec<Notice> = Vec::new();
    let mut i: usize = 0;
    while i < config.services.len()
        invariant
            i <= config.services.len(),
            notice_views(out@) == configuration_notices(config.services@.subrange(0, i as int), watching),
        decreases config.services.len() - i,
    {
        assert(config.services@.subrange(0, i + 1).drop_last() =~= config.services@.subrange(0, i as int));
        let ghost before = notice_views(out@);
        if config.services[i].enabled {
            let mut more = notices_of(&config.services[i], watching);
            let ghost add = notice_views(more@);
            out.append(&mut more);
            assert(notice_views(out@) =~= before + add);
        } else {
            assert(notice_views(out@) =~= before + Seq::<(bool, Seq<char>)>::empty());
        }
        i += 1;
    }
    assert(config.services@.subrange(0, config.services.len() as int) =~= config.services@);
    out
}

/// Whether a name a trigger produced should start: defined, enabled and
/// still demand-started, and neither running nor stopped by request.
pub open spec fn startable(name: Seq<char>, services: Seq<Service>, config: InitConfig) -> bool {
    &&& config_named(config.services@, name) matches Some(cfg)
    &&& cfg.enabled
    &&& cfg.demand is Some
    &&& match service_named(services, name) {
        Some(svc) => svc.pid is None && !svc.manually_stopped,
        None => true,
    }
}

/// The names of `wanted` to start, each once, in order.
pub open spec fn startable_names(wanted: Seq<Seq<char>>, services: Seq<Service>, config: InitConfig) -> Seq<
    Seq<char>,
>
    decreases wanted.len(),
{
    if wanted.len() == 0 {
        Seq::empty()
    } else {
        let before = startable_names(wanted.drop_last(), services, config);
        let name = wanted.last();
        if !before.contains(name) && startable(name, services, config) {
            before.push(name)
        } else {
            before
        }
    }
}

/// Which of the names a trigger produced should actually be started: each
/// once, and only a defined, enabled, demand-started service that is neither
/// running nor stopped by request.
pub fn filter_startable(wanted: &Vec<String>, services: &Vec<Service>, config: &InitConfig) -> (r: Vec<String>)
    ensures
        string_views(r@) == startable_names(string_views(wanted@), services@, *config),
{
    let mut out: Vec<String> = Vec::new();
    let mut i: usize = 0;
    while i < wanted.len()
        invariant
            i <= wanted.len(),
            string_views(out@) == startable_names(string_views(wanted@).subrange(0, i as int), services@, *config),
        decreases wanted.len() - i,
    {
        let name = wanted[i].as_str();
        let ghost before = string_views(out@);
        assert(string_views(wanted@).subrange(0, i + 1).drop_last() =~= string_views(wanted@).subrange(0, i as int));
        assert(string_views(wanted@).subrange(0, i + 1).last() == name@);
        if !name_listed(&out, name) {
            let keep = match find_config(config, name) {
                None => false,
                Some(cfg) => {
                    if !cfg.enabled || !cfg.is_demand_started() {
                        false
                    } else {
                        match find_service(services, name) {
                            Some(svc) => !svc.is_running() && !svc.is_manually_stopped(),
                            None => true,
                        }
                    }
                },
            };
            if keep {
                out.push(wanted[i].clone());
                assert(string_views(out@) =~= before.push(name@));
            }
        }
        i += 1;
    }
    assert(string_views(wanted@).subrange(0, wanted.len() as int) =~= string_views(wanted@));
    out
}

/// The names of the enabled services whose device rules `event` satisfies,
/// added to `wanted` unless already there: the decision one broadcast makes.
pub open spec fn event_wants(services: Seq<ServiceConfig>, action: Seq<char>, props: Props, wanted: Seq<Seq<char>>) -> Seq<Seq<char>>
    decreases services.len(),
{
    if services.len() == 0 {
        wanted
    } else {
        let before = event_wants(services.drop_last(), action, props, wanted);
        let cfg = services.last();
        if is_trigger_action(action) && prop(props, "SUBSYSTEM"@) is Some && cfg.enabled
            && !before.contains(cfg.name@) && exists|k: int|
            0 <= k < rules_of(cfg).len() && #[trigger] device_matches(
                rules_of(cfg)[k],
                prop(props, "SUBSYSTEM"@)->0,
                props,
            ) {
            before.push(cfg.name@)
        } else {
            before
        }
    }
}

/// Add to `wanted` the services one kernel broadcast asks for: only `add`
/// and `bind` count, a message without a subsystem matches nothing, and a
/// name already wanted is not added twice.
pub fn services_for_event(config: &InitConfig, event: &Uevent, wanted: &mut Vec<String>)
    ensures
        string_views(final(wanted)@) == event_wants(
            config.services@,
            event.action@,
            props_of(event.properties@),
            string_views(old(wanted)@),
        ),
{
    let ghost start = string_views(wanted@);
    let act = chars_of(event.action.as_str());
    let trigger = crate::text::is_word(&act, "add") || crate::text::is_word(&act, "bind");
    let subsystem = property(&event.properties, "SUBSYSTEM");
    let mut i: usize = 0;
    while i < config.services.len()
        invariant
            i <= config.services.len(),
            trigger == is_trigger_action(event.action@),
            match subsystem {
                None => prop(props_of(event.properties@), "SUBSYSTEM"@) is None,
                Some(v) => prop(props_of(event.properties@), "SUBSYSTEM"@) == Some(v@),
            },
            string_views(wanted@) == event_wants(
                config.services@.subrange(0, i as int),
                event.action@,
                props_of(event.properties@),
                start,
            ),
        decreases config.services.len() - i,
    {
        let cfg = &config.services[i];
        let ghost before = string_views(wanted@);
        assert(config.services@.subrange(0, i + 1).drop_last() =~= config.services@.subrange(0, i as int));
        assert(config.services@.subrange(0, i + 1).last() == *cfg);
        let ghost next = event_wants(
            config.services@.subrange(0, i + 1),
            event.action@,
            props_of(event.properties@),
            start,
        );
        assert(before == event_wants(
            config.services@.subrange(0, i + 1).drop_last(),
            event.action@,
            props_of(event.properties@),
            start,
        ));
        match subsystem {
            Some(sub) => {
                if trigger && cfg.enabled && !name_listed(wanted, cfg.name.as_str()) {
                    let rules = device_rules(cfg);
                    let mut j: usize = 0;
                    let mut hit = false;
                    while j < rules.len()
                        invariant
                            j <= rules.len(),
                            rules@ == rules_of(*cfg),
                            prop(props_of(event.properties@), "SUBSYSTEM"@) == Some(sub@),
                            hit == (exists|k: int|
                                0 <= k < j && #[trigger] device_matches(
                                    rules_of(*cfg)[k],
                                    prop(props_of(event.properties@), "SUBSYSTEM"@)->0,
                                    props_of(event.properties@),
                                )),
                        decreases rules.len() - j,
                    {
                        let m = matches_device(&rules[j], sub, &event.properties);
                        assert(m == device_matches(
                            rules_of(*cfg)[j as int],
                            prop(props_of(event.properties@), "SUBSYSTEM"@)->0,
                            props_of(event.properties@),
                        ));
                        if m {
                            hit = true;
                            j = rules.len();
                        } else {
                            j += 1;
                        }
                    }
                    if hit {
                        wanted.push(cfg.name.clone());
                        assert(string_views(wanted@) =~= before.push(cfg.name@));
                    }
                    assert(string_views(wanted@) == next);
                } else {
                    assert(string_views(wanted@) == next);
                }
            },
            None => {
                assert(string_views(wanted@) == next);
            },
        }
        i += 1;
    }
    assert(config.services@.subrange(0, config.services.len() as int) =~= config.services@);
}


/// Where `x` first occurs in `s`; the length when it does not.
pub open spec fn first_index(s: Seq<Seq<char>>, x: Seq<char>) -> int
    decreases s.len(),
{
    if s.len() == 0 {
        0
    } else if s.drop_last().contains(x) {
        first_index(s.drop_last(), x)
    } else if s.last() == x {
        s.len() - 1
    } else {
        s.len() as int
    }
}

proof fn lemma_first_index_within(s: Seq<Seq<char>>, x: Seq<char>)
    requires
        s.contains(x),
    ensures
        0 <= first_index(s, x) < s.len(),
        s[first_index(s, x)] == x,
    decreases s.len(),
{
    if s.drop_last().contains(x) {
        lemma_first_index_within(s.drop_last(), x);
    } else {
        let k = choose|k: int| 0 <= k < s.len() && s[k] == x;
        if k < s.len() - 1 {
            assert(s.drop_last()[k] == x);
        }
    }
}

/// Of the names a trigger produced, those to start are each named once, in
/// the order they were first produced; and a name is among them exactly when
/// it was produced and its service may start now.
pub proof fn lemma_startable_names(wanted: Seq<Seq<char>>, services: Seq<Service>, config: InitConfig)
    ensures
        forall|p: int, q: int|
            #![trigger startable_names(wanted, services, config)[p], startable_names(wanted, services, config)[q]]
            0 <= p < q < startable_names(wanted, services, config).len() ==> startable_names(wanted, services, config)[p]
                != startable_names(wanted, services, config)[q] && first_index(
                wanted,
                startable_names(wanted, services, config)[p],
            ) < first_index(wanted, startable_names(wanted, services, config)[q]),
        forall|n: Seq<char>|
            #[trigger] startable_names(wanted, services, config).contains(n) <==> wanted.contains(n) && startable(
                n,
                services,
                config,
            ),
    decreases wanted.len(),
{
    let r = startable_names(wanted, services, config);
    if wanted.len() > 0 {
        let pre = wanted.drop_last();
        let before = startable_names(pre, services, config);
        let name = wanted.last();
        lemma_startable_names(pre, services, config);
        assert forall|n: Seq<char>| wanted.contains(n) <==> pre.contains(n) || n == name by {
            if wanted.contains(n) && n != name {
                let k = choose|k: int| 0 <= k < wanted.len() && wanted[k] == n;
                assert(pre[k] == n);
            }
            if pre.contains(n) {
                let k = choose|k: int| 0 <= k < pre.len() && pre[k] == n;
                assert(wanted[k] == n);
            }
            if n == name {
                assert(wanted[wanted.len() - 1] == n);
            }
        }
        assert forall|x: Seq<char>| before.contains(x) implies first_index(wanted, x) == first_index(pre, x)
            && first_index(pre, x) < pre.len() by {
            lemma_first_index_within(pre, x);
        }
        if !before.contains(name) && startable(name, services, config) {
            assert(!pre.contains(name));
            assert(first_index(wanted, name) == pre.len());
            assert forall|n: Seq<char>| r.contains(n) <==> before.contains(n) || n == name by {
                if r.contains(n) && n != name {
                    let k = choose|k: int| 0 <= k < r.len() && r[k] == n;
                    assert(before[k] == n);
                }
                if before.contains(n) {
                    let k = choose|k: int| 0 <= k < before.len() && before[k] == n;
                    assert(r[k] == n);
                }
                if n == name {
                    assert(r[r.len() - 1] == n);
                }
            }
            assert forall|p: int, q: int| 0 <= p < q < r.len() implies r[p] != r[q] && first_index(wanted, r[p])
                < first_index(wanted, r[q]) by {
                assert(before.contains(r[p])) by {
                    assert(before[p] == r[p]);
                }
                if q < before.len() {
                    assert(before.contains(r[q])) by {
                        assert(before[q] == r[q]);
                    }
                    assert(before[p] == r[p] && before[q] == r[q]);
                }
            }
        }
    }
}

/// Whether `cfg` names a service the devices already present want.
pub open spec fn wants_now(cfg: ServiceConfig, devices: Seq<Device>) -> bool {
    cfg.enabled && service_present(cfg, devices)
}

/// Whether some definition named `n` is one the devices want.
pub open spec fn some_wanting(services: Seq<ServiceConfig>, devices: Seq<Device>, n: Seq<char>) -> bool {
    exists|i: int| 0 <= i < services.len() && services[i].name@ == n && #[trigger] wants_now(services[i], devices)
}

/// Where the first definition named `n` that the devices want stands; the
/// length when there is none.
pub open spec fn first_wanting(services: Seq<ServiceConfig>, devices: Seq<Device>, n: Seq<char>) -> int
    decreases services.len(),
{
    if services.len() == 0 {
        0
    } else if present_names(services.drop_last(), devices).contains(n) {
        first_wanting(services.drop_last(), devices, n)
    } else if services.last().name@ == n && wants_now(services.last(), devices) {
        services.len() - 1
    } else {
        services.len() as int
    }
}

/// The services the coldplug walk wants are each named once, in the order of
/// the configuration; and a name is among them exactly when an enabled
/// definition of it has a device rule that a device already present matches.
pub proof fn lemma_present_names(services: Seq<ServiceConfig>, devices: Seq<Device>)
    ensures
        forall|p: int, q: int|
            #![trigger present_names(services, devices)[p], present_names(services, devices)[q]]
            0 <= p < q < present_names(services, devices).len() ==> present_names(services, devices)[p]
                != present_names(services, devices)[q] && first_wanting(
                services,
                devices,
                present_names(services, devices)[p],
            ) < first_wanting(services, devices, present_names(services, devices)[q]),
        forall|n: Seq<char>|
            #[trigger] present_names(services, devices).contains(n) <==> some_wanting(services, devices, n),
        forall|n: Seq<char>|
            #[trigger] present_names(services, devices).contains(n) ==> 0 <= first_wanting(services, devices, n)
                < services.len(),
    decreases services.len(),
{
    let r = present_names(services, devices);
    if services.len() > 0 {
        let pre = services.drop_last();
        let before = present_names(pre, devices);
        let cfg = services.last();
        lemma_present_names(pre, devices);
        assert forall|n: Seq<char>| #[trigger] some_wanting(services, devices, n) <==> some_wanting(pre, devices, n) || (
        cfg.name@ == n && wants_now(cfg, devices)) by {
            if some_wanting(services, devices, n) {
                let i = choose|i: int| 0 <= i < services.len() && services[i].name@ == n && #[trigger] wants_now(services[i], devices);
                if i < pre.len() {
                    assert(pre[i] == services[i]);
                }
            }
            if some_wanting(pre, devices, n) {
                let i = choose|i: int| 0 <= i < pre.len() && pre[i].name@ == n && #[trigger] wants_now(pre[i], devices);
                assert(services[i] == pre[i]);
            }
            if cfg.name@ == n && wants_now(cfg, devices) {
                assert(services[services.len() - 1] == cfg);
            }
        }
        if cfg.enabled && service_present(cfg, devices) && !before.contains(cfg.name@) {
            assert forall|n: Seq<char>| r.contains(n) <==> before.contains(n) || n == cfg.name@ by {
                if r.contains(n) && n != cfg.name@ {
                    let k = choose|k: int| 0 <= k < r.len() && r[k] == n;
                    assert(before[k] == n);
                }
                if before.contains(n) {
                    let k = choose|k: int| 0 <= k < before.len() && before[k] == n;
                    assert(r[k] == n);
                }
                if n == cfg.name@ {
                    assert(r[r.len() - 1] == n);
                }
            }
            assert forall|p: int, q: int| 0 <= p < q < r.len() implies r[p] != r[q] && first_wanting(services, devices, r[p])
                < first_wanting(services, devices, r[q]) by {
                assert(before.contains(r[p])) by {
                    assert(before[p] == r[p]);
                }
                if q < before.len() {
                    assert(before.contains(r[q])) by {
                        assert(before[q] == r[q]);
                    }
                    assert(before[p] == r[p] && before[q] == r[q]);
                }
            }
        } else {
            assert forall|n: Seq<char>| #[trigger] r.contains(n) implies 0 <= first_wanting(services, devices, n)
                < services.len() by {
                assert(before.contains(n));
            }
        }
    }
}

/// What is said of an enabled service that starts on demand is a warning,
/// every line of it, exactly when nothing will ever start the service by
/// itself: no trigger at all, or device rules that nothing is watching for;
/// and otherwise one line that is not. A service without a demand block is
/// not mentioned.
pub proof fn lemma_demand_warns_iff(cfg: ServiceConfig, watching: Watching)
    ensures
        cfg.demand is None ==> demand_notices(cfg, watching).len() == 0,
        cfg.demand matches Some(d) ==> {
            let warn = (d.device@.len() == 0 && d.daemon is None) || (d.device@.len() > 0 && watching
                != Watching::Devices);
            &&& demand_notices(cfg, watching).len() > 0
            &&& forall|k: int| 0 <= k < demand_notices(cfg, watching).len() ==> #[trigger] demand_notices(cfg, watching)[k].0 == warn
            &&& !warn ==> demand_notices(cfg, watching).len() == 1
        },
{
}

/// Nothing is said of a disabled service, and what is said of the others
/// comes in configuration order.
pub proof fn lemma_configuration_notices_skip_disabled(services: Seq<ServiceConfig>, watching: Watching, c: ServiceConfig)
    ensures
        configuration_notices(services.push(c), watching) == configuration_notices(services, watching) + if c.enabled {
            demand_notices(c, watching)
        } else {
            Seq::empty()
        },
{
    assert(services.push(c).drop_last() =~= services);
}


/// Whether `text` holds `n` somewhere.
pub open spec fn mentions(text: Seq<char>, n: Seq<char>) -> bool {
    exists|p: int| 0 <= p && p + n.len() <= text.len() && #[trigger] text.subrange(p, p + n.len()) == n
}

/// Whether what is said of an enabled service's demand block is a warning.
pub open spec fn demand_warns(cfg: ServiceConfig, watching: Watching) -> bool {
    match cfg.demand {
        Some(d) => (d.device@.len() == 0 && d.daemon is None) || (d.device@.len() > 0 && watching != Watching::Devices),
        None => false,
    }
}

proof fn lemma_mentions_at(t: Seq<char>, n: Seq<char>, p: int)
    requires
        0 <= p,
        p + n.len() <= t.len(),
        forall|i: int| 0 <= i < n.len() ==> t[p + i] == n[i],
    ensures
        mentions(t, n),
{
    assert(t.subrange(p, p + n.len()) =~= n);
}

/// Every line said of a service's demand block names the service.
proof fn lemma_demand_notices_name(cfg: ServiceConfig, watching: Watching)
    ensures
        forall|k: int|
            0 <= k < demand_notices(cfg, watching).len() ==> mentions(#[trigger] demand_notices(cfg, watching)[k].1, cfg.name@),
{
    let n = cfg.name@;
    let sv: Seq<char> = "Service "@;
    let v = demand_notices(cfg, watching);
    assert forall|k: int| 0 <= k < v.len() implies mentions(#[trigger] v[k].1, n) by {
        let t = v[k].1;
        if k == 0 {
            lemma_mentions_at(t, n, sv.len() as int);
        } else {
            match cfg.demand {
                Some(d) => if d.device@.len() == 0 {
                    let a: Seq<char> = "  it will start only for an explicit `raven-rc start "@;
                    lemma_mentions_at(t, n, a.len() as int);
                } else {
                    match watching {
                        Watching::Nothing => {
                            let a: Seq<char> = "  start it with `raven-rc start "@;
                            lemma_mentions_at(t, n, a.len() as int);
                        },
                        _ => {
                            let a: Seq<char> = "  does not watch for; start it with `raven-rc --user start "@;
                            lemma_mentions_at(t, n, a.len() as int);
                        },
                    }
                },
                None => {},
            }
        }
    }
}

/// Whether `note` is about an enabled service of `services` with a demand
/// block: it names the service, and it is a warning exactly when nothing
/// will ever start that service by itself.
pub open spec fn about_a_demand_service(services: Seq<ServiceConfig>, watching: Watching, note: (bool, Seq<char>)) -> bool {
    exists|i: int|
        0 <= i < services.len() && (#[trigger] services[i]).enabled && services[i].demand is Some && mentions(
            note.1,
            services[i].name@,
        ) && note.0 == demand_warns(services[i], watching)
}

/// What is said at boot about a whole configuration: every line is about an
/// enabled service with a demand block, names it, and is a warning exactly
/// when nothing will ever start that service by itself; and when there is
/// such a service, something is said.
pub proof fn lemma_configuration_notices(services: Seq<ServiceConfig>, watching: Watching)
    ensures
        forall|k: int|
            0 <= k < configuration_notices(services, watching).len() ==> about_a_demand_service(
                services,
                watching,
                #[trigger] configuration_notices(services, watching)[k],
            ),
        forall|i: int|
            0 <= i < services.len() && (#[trigger] services[i]).enabled && services[i].demand is Some
                ==> configuration_notices(services, watching).len() > 0,
    decreases services.len(),
{
    if services.len() > 0 {
        let pre = services.drop_last();
        let c = services.last();
        lemma_configuration_notices(pre, watching);
        lemma_demand_notices_name(c, watching);
        lemma_demand_warns_iff(c, watching);
        let before = configuration_notices(pre, watching);
        let all = configuration_notices(services, watching);
        let mine = if c.enabled { demand_notices(c, watching) } else { Seq::empty() };
        assert(all == before + mine);
        assert forall|k: int| 0 <= k < all.len() implies about_a_demand_service(services, watching, #[trigger] all[k]) by {
            if k < before.len() {
                assert(all[k] == before[k]);
                assert(about_a_demand_service(pre, watching, before[k]));
                let i = choose|i: int|
                    0 <= i < pre.len() && (#[trigger] pre[i]).enabled && pre[i].demand is Some && mentions(
                        before[k].1,
                        pre[i].name@,
                    ) && before[k].0 == demand_warns(pre[i], watching);
                assert(services[i] == pre[i]);
            } else {
                let j = k - before.len();
                assert(all[k] == mine[j]);
                assert(mine[j] == demand_notices(c, watching)[j]);
                assert(c.demand is Some);
                assert(mentions(mine[j].1, c.name@));
                assert(mine[j].0 == demand_warns(c, watching));
                assert(services[services.len() - 1] == c);
            }
        }
        assert forall|i: int|
            0 <= i < services.len() && (#[trigger] services[i]).enabled && services[i].demand is Some implies all.len() > 0 by {
            if i < pre.len() {
                assert(pre[i] == services[i]);
            }
        }
    }
}


/// A `bind` broadcast starts exactly what an `add` with the same properties
/// would: both mean "this device is here now".
pub proof fn lemma_bind_is_add(services: Seq<ServiceConfig>, props: Props, wanted: Seq<Seq<char>>)
    ensures
        event_wants(services, "bind"@, props, wanted) == event_wants(services, "add"@, props, wanted),
        is_trigger_action("add"@) && is_trigger_action("bind"@),
    decreases services.len(),
{
    if services.len() > 0 {
        lemma_bind_is_add(services.drop_last(), props, wanted);
    }
}

/// An event of any other action starts nothing.
pub proof fn lemma_other_actions_start_nothing(services: Seq<ServiceConfig>, action: Seq<char>, props: Props, wanted: Seq<Seq<char>>)
    requires
        action != "add"@,
        action != "bind"@,
    ensures
        event_wants(services, action, props, wanted) == wanted,
    decreases services.len(),
{
    if services.len() > 0 {
        lemma_other_actions_start_nothing(services.drop_last(), action, props, wanted);
    }
}

/// An `add` (or `bind`) of a device that an enabled service's rule matches
/// wants that service: afterwards it is wanted, whether or not it was before.
pub proof fn lemma_add_wants_a_matching_service(
    services: Seq<ServiceConfig>,
    props: Props,
    wanted: Seq<Seq<char>>,
    i: int,
    k: int,
)
    requires
        0 <= i < services.len(),
        services[i].enabled,
        prop(props, "SUBSYSTEM"@) is Some,
        0 <= k < rules_of(services[i]).len(),
        device_matches(rules_of(services[i])[k], prop(props, "SUBSYSTEM"@)->0, props),
    ensures
        event_wants(services, "add"@, props, wanted).contains(services[i].name@),
        event_wants(services, "bind"@, props, wanted).contains(services[i].name@),
    decreases services.len(),
{
    lemma_bind_is_add(services, props, wanted);
    let pre = services.drop_last();
    let before = event_wants(pre, "add"@, props, wanted);
    let now = event_wants(services, "add"@, props, wanted);
    if i < services.len() - 1 {
        assert(pre[i] == services[i]);
        lemma_add_wants_a_matching_service(pre, props, wanted, i, k);
    }
    lemma_event_wants_grows(services, "add"@, props, wanted);
    if i == services.len() - 1 {
        if !before.contains(services[i].name@) {
            assert(now == before.push(services[i].name@));
            assert(now[before.len() as int] == services[i].name@);
        }
    } else {
        let j = choose|j: int| 0 <= j < before.len() && before[j] == services[i].name@;
        assert(now[j] == before[j]);
    }
}

proof fn lemma_event_wants_grows(services: Seq<ServiceConfig>, action: Seq<char>, props: Props, wanted: Seq<Seq<char>>)
    requires
        services.len() > 0,
    ensures
        event_wants(services.drop_last(), action, props, wanted).len() <= event_wants(services, action, props, wanted).len(),
        forall|j: int|
            0 <= j < event_wants(services.drop_last(), action, props, wanted).len() ==> #[trigger] event_wants(
                services,
                action,
                props,
                wanted,
            )[j] == event_wants(services.drop_last(), action, props, wanted)[j],
{
}
} // verus!
