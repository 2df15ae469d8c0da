//! The packet-filter front end: reading and editing `/etc/nftables.conf`.
//!
//! Everything here is text in, text out. `allow` edits the ruleset inside a
//! pair of marker comments and touches not one line outside them; `status`
//! reads the input chain's policy and the rules that accept something. Running
//! `nft` and reading or writing the file are the program's part.
use vstd::prelude::*;

use crate::text::{
    begins_with, code, code_within, count_char, count_of, ends_with, finishes_with,
    lemma_count_char_bound, lemma_total_len_range, starts_with, total_len, trim, trimmed, views,
    append_chars, find_sub, find_sub_from, join_with, joined, lines, lemma_lines_total_len,
    split_lines, split_ws, tokens, chars_of, normal, normalise, strings_of, string_views, decimal_text, find_char, find_from, lemma_find_from_bounds, parse_u64, parse_u64_in,
    push_decimal, push_str, slice_of, to_string,
};

verus! {

/// The ruleset, and the only file `allow` writes.
pub const NFTABLES_CONF: &'static str = "/etc/nftables.conf";

/// The table the shipped policy lives in, and the only one read or added to.
pub const TABLE: &'static str = "inet filter";

/// Everything between these two lines belongs to `allow`; everything outside
/// them is the author's and is copied through untouched.
pub const BEGIN_MARKER: &'static str = "# BEGIN raven-firewall";
pub const END_MARKER: &'static str = "# END raven-firewall";

/// The two transport protocols a port number means anything for.
#[derive(Clone, Copy, PartialEq, Eq, Structural, Debug)]
pub enum Proto {
    Tcp,
    Udp,
}

pub open spec fn keyword_of(p: Proto) -> Seq<char> {
    match p {
        Proto::Tcp => "tcp"@,
        Proto::Udp => "udp"@,
    }
}

impl Proto {
    /// The token nft uses, which is also the token the user types.
    pub fn keyword(self) -> (r: &'static str)
        ensures
            r@ == keyword_of(self),
    {
        match self {
            Proto::Tcp => "tcp",
            Proto::Udp => "udp",
        }
    }
}

/// One port to open: what `allow` takes and what a rule line says.
#[derive(Clone, Copy, PartialEq, Eq, Structural, Debug)]
pub struct PortSpec {
    pub proto: Proto,
    pub port: u16,
}

/// The unconditional rule that opens a port.
pub open spec fn rule_text(p: PortSpec) -> Seq<char> {
    keyword_of(p.proto) + " dport "@ + decimal_text(p.port as nat) + " accept"@
}

impl PortSpec {
    /// The nft rule that opens this port, without indentation.
    pub fn rule(self) -> (r: String)
        ensures
            r@ == rule_text(self),
    {
        let mut r = self.proto.keyword().to_owned();
        push_str(&mut r, " dport ");
        push_decimal(&mut r, self.port as u64);
        push_str(&mut r, " accept");
        r
    }
}

/// What `22`, `22/tcp` or `5353/udp` asks for, or why it asks for nothing.
pub open spec fn port_spec_of(text: Seq<char>) -> Result<PortSpec, Seq<char>> {
    let k = find_from(text, '/', 0);
    let number = text.subrange(0, k);
    let proto: Result<Proto, Seq<char>> = if k >= text.len() {
        Ok(Proto::Tcp)
    } else {
        let word = text.subrange(k + 1, text.len() as int);
        if word == "tcp"@ {
            Ok(Proto::Tcp)
        } else if word == "udp"@ {
            Ok(Proto::Udp)
        } else {
            Err("`"@ + word + "` is not a protocol; write tcp or udp, as in 5353/udp"@)
        }
    };
    match proto {
        Err(e) => Err(e),
        Ok(p) => match parse_u64(number) {
            Some(n) => if n > 65535 {
                Err("`"@ + number + "` is not a port number between 1 and 65535"@)
            } else if n == 0 {
                Err("port 0 is not a port"@)
            } else {
                Ok(PortSpec { proto: p, port: n as u16 })
            },
            None => Err("`"@ + number + "` is not a port number between 1 and 65535"@),
        },
    }
}

/// Parse `22`, `22/tcp` or `5353/udp`. Numbers only, tcp unless it says
/// otherwise, and port 0 is not a port.
pub fn parse_port_spec(text: &str) -> (r: Result<PortSpec, String>)
    ensures
        match r {
            Ok(p) => port_spec_of(text@) == Ok::<PortSpec, Seq<char>>(p),
            Err(e) => port_spec_of(text@) == Err::<PortSpec, Seq<char>>(e@),
        },
{
    let v = chars_of(text);
    let k = find_char(&v, '/', 0);
    proof {
        lemma_find_from_bounds(v@, '/', 0);
    }
    let proto = if k >= v.len() {
        Proto::Tcp
    } else {
        let word = slice_of(&v, k + 1, v.len());
        if crate::text::is_word(&word, "tcp") {
            Proto::Tcp
        } else if crate::text::is_word(&word, "udp") {
            Proto::Udp
        } else {
            let mut e = "`".to_owned();
            let w = to_string(&word);
            push_str(&mut e, w.as_str());
            push_str(&mut e, "` is not a protocol; write tcp or udp, as in 5353/udp");
            return Err(e);
        }
    };
    match parse_u64_in(&v, 0, k) {
        Some(n) => {
            if n > 65535 {
                return Err(not_a_port(&v, k));
            }
            if n == 0 {
                return Err("port 0 is not a port".to_owned());
            }
            Ok(PortSpec { proto, port: n as u16 })
        },
        None => Err(not_a_port(&v, k)),
    }
}

fn not_a_port(v: &Vec<char>, k: usize) -> (e: String)
    requires
        k <= v.len(),
    ensures
        e@ == "`"@ + v@.subrange(0, k as int) + "` is not a port number between 1 and 65535"@,
{
    let mut e = "`".to_owned();
    let n = crate::text::string_of(v, 0, k);
    push_str(&mut e, n.as_str());
    push_str(&mut e, "` is not a port number between 1 and 65535");
    e
}


/// A line that opens the input chain: `chain input ... {` once its comment
/// and surrounding whitespace are gone.
pub open spec fn opens_input(line: Seq<char>) -> bool {
    starts_with(trim(code(line)), "chain input"@) && ends_with(trim(code(line)), "{"@)
}

/// The first line at or after `i` that opens the input chain.
pub open spec fn first_opening(ls: Seq<Seq<char>>, i: int) -> int
    decreases ls.len() - i,
{
    if 0 <= i < ls.len() && !opens_input(ls[i]) {
        first_opening(ls, i + 1)
    } else {
        i
    }
}

/// The brace depth after a line, starting from `depth` before it: opening
/// braces add, closing braces take away, never below zero.
pub open spec fn depth_after(depth: nat, line: Seq<char>) -> nat {
    let c = code(line);
    let up = depth + count_char(c, '{');
    if up >= count_char(c, '}') {
        (up - count_char(c, '}')) as nat
    } else {
        0
    }
}

/// The line at or after `i` where a depth of `depth` first returns to zero.
pub open spec fn close_from(ls: Seq<Seq<char>>, i: int, depth: nat) -> Option<int>
    decreases ls.len() - i,
{
    if i < 0 || i >= ls.len() {
        None
    } else if depth_after(depth, ls[i]) == 0 {
        Some(i)
    } else {
        close_from(ls, i + 1, depth_after(depth, ls[i]))
    }
}

/// Where the `input` chain begins and ends: the line that opens it, and the
/// line holding its own closing brace, found by counting braces so that a
/// multi-line set literal inside the chain is not mistaken for its end.
pub open spec fn span_of(ls: Seq<Seq<char>>) -> Option<(int, int)> {
    let start = first_opening(ls, 0);
    if start >= ls.len() {
        None
    } else {
        match close_from(ls, start + 1, 1) {
            None => None,
            Some(end) => Some((start, end)),
        }
    }
}

pub proof fn lemma_first_opening_bounds(ls: Seq<Seq<char>>, i: int)
    requires
        0 <= i <= ls.len(),
    ensures
        i <= first_opening(ls, i) <= ls.len(),
        first_opening(ls, i) < ls.len() ==> opens_input(ls[first_opening(ls, i)]),
    decreases ls.len() - i,
{
    if i < ls.len() && !opens_input(ls[i]) {
        lemma_first_opening_bounds(ls, i + 1);
    }
}

pub proof fn lemma_close_from_bounds(ls: Seq<Seq<char>>, i: int, depth: nat)
    requires
        0 <= i,
    ensures
        close_from(ls, i, depth) matches Some(e) ==> i <= e < ls.len(),
    decreases ls.len() - i,
{
    if i < ls.len() && depth_after(depth, ls[i]) != 0 {
        lemma_close_from_bounds(ls, i + 1, depth_after(depth, ls[i]));
    }
}

pub proof fn lemma_opening_line_nonempty(line: Seq<char>)
    requires
        opens_input(line),
    ensures
        line.len() >= 1,
{
    reveal_strlit("{");
    crate::text::lemma_find_from_bounds(line, '#', 0);
    crate::text::lemma_lead_bounds(code(line), 0);
    crate::text::lemma_trail_bounds(code(line), crate::text::lead(code(line), 0), code(line).len() as int);
}

pub open spec fn span_matches(r: Option<(usize, usize)>, s: Option<(int, int)>) -> bool {
    match r {
        None => s is None,
        Some((a, b)) => s == Some((a as int, b as int)),
    }
}

fn opens_input_line(line: &Vec<char>) -> (r: bool)
    ensures
        r == opens_input(line@),
{
    let c = code_within(line);
    let t = trimmed(&c);
    begins_with(&t, "chain input") && finishes_with(&t, "{")
}

fn depth_step(depth: usize, line: &Vec<char>) -> (r: usize)
    requires
        depth + line@.len() <= usize::MAX,
    ensures
        r == depth_after(depth as nat, line@),
        r <= depth + line@.len(),
{
    let c = code_within(line);
    proof {
        crate::text::lemma_find_from_bounds(line@, '#', 0);
        lemma_count_char_bound(c@, '{');
        lemma_count_char_bound(c@, '}');
    }
    let up = depth + count_of(&c, '{');
    let down = count_of(&c, '}');
    if up >= down {
        up - down
    } else {
        0
    }
}

/// [`span_of`] for lines held as characters.
pub fn chain_span(ls: &Vec<Vec<char>>) -> (r: Option<(usize, usize)>)
    requires
        total_len(views(ls@)) <= usize::MAX,
    ensures
        span_matches(r, span_of(views(ls@))),
{
    let ghost v = views(ls@);
    let mut start: usize = 0;
    while start < ls.len() && !opens_input_line(&ls[start])
        invariant
            start <= ls.len(),
            v == views(ls@),
            first_opening(v, start as int) == first_opening(v, 0),
        decreases ls.len() - start,
    {
        start += 1;
    }
    if start >= ls.len() {
        return None;
    }
    proof {
        lemma_first_opening_bounds(v, 0);
        lemma_opening_line_nonempty(v[start as int]);
    }
    let mut depth: usize = 1;
    let mut i: usize = start + 1;
    while i < ls.len()
        invariant
            start < ls.len(),
            start + 1 <= i <= ls.len(),
            v == views(ls@),
            first_opening(v, 0) == start,
            total_len(v) <= usize::MAX,
            v[start as int].len() >= 1,
            depth >= 1,
            depth <= 1 + total_len(v.subrange(start + 1, i as int)),
            close_from(v, i as int, depth as nat) == close_from(v, start + 1, 1),
        decreases ls.len() - i,
    {
        proof {
            lemma_total_len_range(v, start as int, i + 1);
            crate::text::lemma_total_len_append(seq![v[start as int]], v.subrange(start + 1, i + 1));
            crate::text::lemma_total_len_single(v[start as int]);
            assert(seq![v[start as int]] + v.subrange(start + 1, i + 1) =~= v.subrange(start as int, i + 1));
            assert(v.subrange(start + 1, i + 1).drop_last() =~= v.subrange(start + 1, i as int));
            assert(v[i as int] == ls@[i as int]@);
        }
        let d = depth_step(depth, &ls[i]);
        if d == 0 {
            return Some((start, i));
        }
        depth = d;
        i += 1;
    }
    None
}

/// Where the `input` chain begins and ends, as indices into `lines`.
pub fn input_chain_span(lines: &Vec<&str>) -> (r: Option<(usize, usize)>)
    requires
        total_len(lines@.map_values(|l: &str| l@)) <= usize::MAX,
    ensures
        span_matches(r, span_of(lines@.map_values(|l: &str| l@))),
{
    let mut ls: Vec<Vec<char>> = Vec::new();
    let mut i: usize = 0;
    while i < lines.len()
        invariant
            i <= lines.len(),
            views(ls@) == lines@.map_values(|l: &str| l@).subrange(0, i as int),
        decreases lines.len() - i,
    {
        let ghost before = views(ls@);
        ls.push(chars_of(lines[i]));
        assert(views(ls@) =~= before.push(lines@[i as int]@));
        assert(lines@.map_values(|l: &str| l@).subrange(0, i + 1) =~= lines@.map_values(|l: &str| l@).subrange(0, i as int).push(lines@[i as int]@));
        i += 1;
    }
    assert(views(ls@) =~= lines@.map_values(|l: &str| l@));
    chain_span(&ls)
}


/// A text's lines, as characters, with the length bound the chain walk needs.
fn lines_of(text: &str) -> (ls: Vec<Vec<char>>)
    ensures
        views(ls@) == lines(text@),
        total_len(views(ls@)) <= text@.len(),
        total_len(views(ls@)) <= usize::MAX,
{
    let v = chars_of(text);
    let ls = split_lines(&v);
    proof {
        lemma_lines_total_len(v@, 0);
    }
    let n = v.len();
    assert(v@.len() == n);
    ls
}


/// Where trailing `;` characters before `j` begin.
pub open spec fn semis_back(s: Seq<char>, j: int) -> int
    decreases j,
{
    if 0 < j <= s.len() && s[j - 1] == ';' {
        semis_back(s, j - 1)
    } else {
        j
    }
}

/// `trim_end_matches(';')`.
pub open spec fn strip_semis(s: Seq<char>) -> Seq<char> {
    s.subrange(0, semis_back(s, s.len() as int))
}

/// The policy word on a line's code, if the line names one: whatever follows
/// the first `policy`, trimmed, without its trailing `;`.
pub open spec fn policy_in(line: Seq<char>) -> Option<Seq<char>> {
    let c = code(line);
    let k = find_sub_from(c, "policy"@, 0);
    if k >= c.len() {
        None
    } else {
        Some(trim(strip_semis(trim(c.subrange(k + "policy"@.len(), c.len() as int)))))
    }
}

/// The first policy named on lines `i..=e`.
pub open spec fn first_policy(ls: Seq<Seq<char>>, i: int, e: int) -> Option<Seq<char>>
    decreases e + 1 - i,
{
    if i > e || i < 0 || i >= ls.len() {
        None
    } else {
        match policy_in(ls[i]) {
            Some(p) => Some(p),
            None => first_policy(ls, i + 1, e),
        }
    }
}

/// The input chain's policy word, from the config file or from `nft list
/// table`, which spell the hook line the same way.
pub open spec fn policy_of(text: Seq<char>) -> Option<Seq<char>> {
    match span_of(lines(text)) {
        None => None,
        Some((s, e)) => first_policy(lines(text), s, e),
    }
}

fn policy_of_line(line: &Vec<char>) -> (r: Option<Vec<char>>)
    ensures
        match r {
            None => policy_in(line@) is None,
            Some(p) => policy_in(line@) == Some(p@),
        },
{
    let c = code_within(line);
    let k = find_sub(&c, "policy");
    if k >= c.len() {
        return None;
    }
    let word = chars_of("policy");
    proof {
        crate::text::lemma_find_sub_found(c@, "policy"@, 0);
    }
    let after = slice_of(&c, k + word.len(), c.len());
    let t = trimmed(&after);
    let mut j = t.len();
    while j > 0 && t[j - 1] == ';'
        invariant
            j <= t.len(),
            semis_back(t@, j as int) == semis_back(t@, t@.len() as int),
        decreases j,
    {
        j -= 1;
    }
    let stripped = slice_of(&t, 0, j);
    Some(trimmed(&stripped))
}

/// The input chain's policy word -- `drop` or `accept`.
pub fn input_policy(text: &str) -> (r: Option<String>)
    ensures
        match r {
            None => policy_of(text@) is None,
            Some(p) => policy_of(text@) == Some(p@),
        },
{
    let ls = lines_of(text);
    let ghost v = views(ls@);
    match chain_span(&ls) {
        None => None,
        Some((start, end)) => {
            proof {
                lemma_first_opening_bounds(v, 0);
                lemma_close_from_bounds(v, start + 1, 1);
            }
            let mut i = start;
            while i <= end
                invariant
                    start <= i <= end + 1,
                    end < ls.len(),
                    v == views(ls@),
                    v == lines(text@),
                    span_of(v) == Some((start as int, end as int)),
                    first_policy(v, i as int, end as int) == first_policy(v, start as int, end as int),
                decreases end + 1 - i,
            {
                assert(v[i as int] == ls@[i as int]@);
                match policy_of_line(&ls[i]) {
                    Some(p) => {
                        assert(first_policy(v, i as int, end as int) == Some(p@));
                        assert(span_of(v) == Some((start as int, end as int)));
                        return Some(to_string(&p));
                    },
                    None => {},
                }
                i += 1;
            }
            None
        },
    }
}


/// What has been read of the chain so far: the statements completed, the one
/// still being joined across lines, and the brace depth inside it.
pub type Reading = (Seq<Seq<char>>, Seq<char>, nat);

/// One line of the chain, read: a line with no code leaves everything as it
/// was; otherwise its normalised code joins the pending statement, and a
/// statement is complete once its braces balance.
pub open spec fn stmt_step(st: Reading, line: Seq<char>) -> Reading {
    let piece = normal(code(line));
    if piece.len() == 0 {
        st
    } else {
        let pending = if st.1.len() == 0 {
            piece
        } else {
            st.1 + " "@ + piece
        };
        let d = depth_after(st.2, line);
        if d == 0 {
            (st.0.push(pending), Seq::empty(), 0)
        } else {
            (st.0, pending, d)
        }
    }
}

pub open spec fn stmt_fold(ls: Seq<Seq<char>>) -> Reading
    decreases ls.len(),
{
    if ls.len() == 0 {
        (Seq::empty(), Seq::empty(), 0)
    } else {
        stmt_step(stmt_fold(ls.drop_last()), ls.last())
    }
}

/// The statements of lines `s+1..e`, with an unfinished one kept rather than
/// lost.
pub open spec fn statements_in(ls: Seq<Seq<char>>, s: int, e: int) -> Seq<Seq<char>> {
    let st = stmt_fold(ls.subrange(s + 1, e));
    if st.1.len() == 0 {
        st.0
    } else {
        st.0.push(st.1)
    }
}

/// The input chain's statements, one per entry, comments dropped and
/// whitespace normalised; a statement spread over several lines is one entry.
pub open spec fn statements_of(text: Seq<char>) -> Seq<Seq<char>> {
    match span_of(lines(text)) {
        None => Seq::empty(),
        Some((s, e)) => statements_in(lines(text), s, e),
    }
}

/// Every statement of the input chain that ends in `accept`, in order.
pub open spec fn accepts_of(text: Seq<char>) -> Seq<Seq<char>> {
    statements_of(text).filter(|r: Seq<char>| ends_with(r, "accept"@))
}

fn statements_between(ls: &Vec<Vec<char>>, start: usize, end: usize) -> (r: Vec<Vec<char>>)
    requires
        start < end < ls.len(),
        total_len(views(ls@)) <= usize::MAX,
    ensures
        views(r@) == statements_in(views(ls@), start as int, end as int),
{
    let ghost v = views(ls@);
    let mut statements: Vec<Vec<char>> = Vec::new();
    let mut pending: Vec<char> = Vec::new();
    let mut depth: usize = 0;
    let mut i = start + 1;
    assert(v.subrange(start + 1, start + 1) =~= Seq::<Seq<char>>::empty());
    while i < end
        invariant
            start + 1 <= i <= end < ls.len(),
            v == views(ls@),
            total_len(v) <= usize::MAX,
            depth <= total_len(v.subrange(start + 1, i as int)),
            (views(statements@), pending@, depth as nat) == stmt_fold(v.subrange(start + 1, i as int)),
        decreases end - i,
    {
        proof {
            lemma_total_len_range(v, start + 1, i + 1);
            assert(v.subrange(start + 1, i + 1).drop_last() =~= v.subrange(start + 1, i as int));
            assert(v.subrange(start + 1, i + 1).last() == ls@[i as int]@);
        }
        let ghost st = stmt_fold(v.subrange(start + 1, i as int));
        assert(stmt_fold(v.subrange(start + 1, i + 1)) == stmt_step(st, ls@[i as int]@));
        let c = code_within(&ls[i]);
        let piece = normalise(&c);
        if piece.len() > 0 {
            let ghost old_pending = pending@;
            if pending.len() > 0 {
                pending.push(' ');
                proof {
                    reveal_strlit(" ");
                }
            }
            append_chars(&mut pending, &piece);
            assert(pending@ == (if st.1.len() == 0 {
                piece@
            } else {
                st.1 + " "@ + piece@
            }));
            let d = depth_step(depth, &ls[i]);
            if d == 0 {
                let ghost before = views(statements@);
                statements.push(pending);
                assert(views(statements@) =~= before.push(pending@));
                pending = Vec::new();
                assert(pending@ =~= Seq::<char>::empty());
            }
            depth = d;
        }
        i += 1;
    }
    if pending.len() > 0 {
        let ghost before = views(statements@);
        statements.push(pending);
        assert(views(statements@) =~= before.push(pending@));
    }
    statements
}

/// [`statements_of`], as characters.
fn statements_of_text(text: &str) -> (r: Vec<Vec<char>>)
    ensures
        views(r@) == statements_of(text@),
{
    let ls = lines_of(text);
    let ghost v = views(ls@);
    match chain_span(&ls) {
        None => Vec::new(),
        Some((start, end)) => {
            proof {
                lemma_first_opening_bounds(v, 0);
                lemma_close_from_bounds(v, start + 1, 1);
            }
            statements_between(&ls, start, end)
        },
    }
}

/// The input chain's statements, one per entry.
pub fn input_statements(text: &str) -> (r: Vec<String>)
    ensures
        string_views(r@) == statements_of(text@),
{
    strings_of(&statements_of_text(text))
}

/// Every rule in the input chain that ends in `accept`, in the order the
/// kernel evaluates them.
pub fn accept_rules(text: &str) -> (r: Vec<String>)
    ensures
        string_views(r@) == accepts_of(text@),
{
    let all = statements_of_text(text);
    let ghost keep = |r: Seq<char>| ends_with(r, "accept"@);
    let mut out: Vec<Vec<char>> = Vec::new();
    let mut i: usize = 0;
    proof {
        reveal(Seq::filter);
        assert(views(all@).subrange(0, 0).filter(keep) =~= Seq::<Seq<char>>::empty());
    }
    while i < all.len()
        invariant
            i <= all.len(),
            keep == (|r: Seq<char>| ends_with(r, "accept"@)),
            views(out@) == views(all@).subrange(0, i as int).filter(keep),
        decreases all.len() - i,
    {
        let ghost before = views(out@);
        if finishes_with(&all[i], "accept") {
            out.push(slice_of(&all[i], 0, all[i].len()));
            assert(all@[i as int]@.subrange(0, all@[i as int]@.len() as int) =~= all@[i as int]@);
        }
        proof {
            reveal(Seq::filter);
            assert(views(all@).subrange(0, i + 1).drop_last() =~= views(all@).subrange(0, i as int));
        }
        assert(views(out@) =~= views(all@).subrange(0, i + 1).filter(keep));
        i += 1;
    }
    assert(views(all@).subrange(0, all.len() as int) =~= views(all@));
    strings_of(&out)
}


/// A line that begins the block `allow` owns.
pub open spec fn begins_block(line: Seq<char>) -> bool {
    starts_with(trim(line), BEGIN_MARKER@)
}

/// A line that ends the block `allow` owns.
pub open spec fn ends_block(line: Seq<char>) -> bool {
    starts_with(trim(line), END_MARKER@)
}

/// The first line in `i..=e` that begins the block, or `e + 1`.
pub open spec fn first_begin(ls: Seq<Seq<char>>, i: int, e: int) -> int
    decreases e + 1 - i,
{
    if i <= e && 0 <= i < ls.len() && !begins_block(ls[i]) {
        first_begin(ls, i + 1, e)
    } else {
        i
    }
}

/// The first line in `i..=e` that ends the block, or `e + 1`.
pub open spec fn first_end(ls: Seq<Seq<char>>, i: int, e: int) -> int
    decreases e + 1 - i,
{
    if i <= e && 0 <= i < ls.len() && !ends_block(ls[i]) {
        first_end(ls, i + 1, e)
    } else {
        i
    }
}

/// The block `allow` owns within lines `s..=e`: its first BEGIN marker and
/// the first END marker from there on.
pub open spec fn block_in(ls: Seq<Seq<char>>, s: int, e: int) -> Option<(int, int)> {
    let b = first_begin(ls, s, e);
    if b > e {
        None
    } else {
        let f = first_end(ls, b, e);
        if f > e {
            None
        } else {
            Some((b, f))
        }
    }
}

/// The first line in `i..e` whose code is, once normalised, exactly `wanted`;
/// or `e`.
pub open spec fn first_rule(ls: Seq<Seq<char>>, i: int, e: int, wanted: Seq<char>) -> int
    decreases e - i,
{
    if i < e && 0 <= i < ls.len() && normal(code(ls[i])) != wanted {
        first_rule(ls, i + 1, e, wanted)
    } else {
        i
    }
}

/// The first line in `i..e` that is not blank; or `e`.
pub open spec fn first_written(ls: Seq<Seq<char>>, i: int, e: int) -> int
    decreases e - i,
{
    if i < e && 0 <= i < ls.len() && trim(ls[i]).len() == 0 {
        first_written(ls, i + 1, e)
    } else {
        i
    }
}

/// A line's leading whitespace.
pub open spec fn leading(line: Seq<char>) -> Seq<char> {
    line.subrange(0, crate::text::lead(line, 0))
}

/// The indentation a rule in the chain `s..=e` is written with: that of the
/// first line in the chain with anything on it, or one tab in from the
/// closing brace of an empty chain.
pub open spec fn indent_of(ls: Seq<Seq<char>>, s: int, e: int) -> Seq<char> {
    let k = first_written(ls, s + 1, e);
    if k < e {
        leading(ls[k])
    } else {
        leading(ls[e]) + "\t"@
    }
}

/// A fresh marker block holding one rule.
pub open spec fn marker_lines(indent: Seq<char>, rule: Seq<char>) -> Seq<Seq<char>> {
    seq![
        indent + BEGIN_MARKER@ + " -- ports opened with `raven-firewall allow`."@,
        indent + "# Everything between these two markers is rewritten by that command;"@,
        indent + "# everything outside them is left exactly as you wrote it. Deleting a"@,
        indent + "# line here by hand is how a port gets closed again."@,
        indent + rule,
        indent + END_MARKER@,
    ]
}

/// The lines of the ruleset once the rule is added: above the END marker of
/// an existing block, or in a new block, BEGIN marker to END marker, just
/// before the chain's closing brace. No other line moves or changes.
pub open spec fn edited_lines(ls: Seq<Seq<char>>, s: int, e: int, p: PortSpec) -> Seq<Seq<char>> {
    let wanted = rule_text(p);
    let indent = indent_of(ls, s, e);
    match block_in(ls, s, e) {
        Some((_, last)) => ls.insert(last, indent + wanted),
        None => ls.subrange(0, e) + marker_lines(indent, wanted)
            + ls.subrange(e, ls.len() as int),
    }
}

/// The edited file: its lines joined again, keeping a final newline if there
/// was one.
pub open spec fn edited_text(text: Seq<char>, s: int, e: int, p: PortSpec) -> Seq<char> {
    joined(edited_lines(lines(text), s, e, p), "\n"@) + if ends_with(text, "\n"@) {
        "\n"@
    } else {
        Seq::<char>::empty()
    }
}

pub open spec fn no_chain_message() -> Seq<char> {
    NFTABLES_CONF@ + " has no `chain input` for the rule to go in; edit it by hand"@
}

/// What happened when a port was offered to the config file.
#[derive(Debug, PartialEq, Eq)]
pub enum AllowOutcome {
    /// The rule was added; here is the whole file to write back.
    Added(String),
    /// The rule is already in the block `allow` owns.
    AlreadyManaged,
    /// A rule the author wrote by hand already opens this port, and here it is.
    AlreadyByHand(String),
}

/// Whether `k` lies strictly inside the block `blk`.
pub open spec fn inside(blk: Option<(int, int)>, k: int) -> bool {
    match blk {
        Some((f, l)) => f < k < l,
        None => false,
    }
}

/// What `allow_in` says about `text` and `p`.
pub open spec fn allow_says(text: Seq<char>, p: PortSpec, r: Result<AllowOutcome, String>) -> bool {
    let ls = lines(text);
    match span_of(ls) {
        None => r matches Err(m) && m@ == no_chain_message(),
        Some((s, e)) => {
            let k = first_rule(ls, s + 1, e, rule_text(p));
            if k < e {
                if inside(block_in(ls, s, e), k) {
                    r matches Ok(AllowOutcome::AlreadyManaged)
                } else {
                    r matches Ok(AllowOutcome::AlreadyByHand(w)) && w@ == rule_text(p)
                }
            } else {
                r matches Ok(AllowOutcome::Added(t)) && t@ == edited_text(text, s, e, p)
            }
        },
    }
}

fn begins_block_line(line: &Vec<char>) -> (r: bool)
    ensures
        r == begins_block(line@),
{
    let t = trimmed(line);
    begins_with(&t, BEGIN_MARKER)
}

fn ends_block_line(line: &Vec<char>) -> (r: bool)
    ensures
        r == ends_block(line@),
{
    let t = trimmed(line);
    begins_with(&t, END_MARKER)
}

pub fn managed_block_span(ls: &Vec<Vec<char>>, s: usize, e: usize) -> (r: Option<(usize, usize)>)
    requires
        s <= e < ls.len(),
    ensures
        span_matches(r, block_in(views(ls@), s as int, e as int)),
{
    let ghost v = views(ls@);
    let mut b = s;
    while b <= e && !begins_block_line(&ls[b])
        invariant
            s <= b <= e + 1,
            e < ls.len(),
            v == views(ls@),
            first_begin(v, b as int, e as int) == first_begin(v, s as int, e as int),
        decreases e + 1 - b,
    {
        b += 1;
    }
    if b > e {
        return None;
    }
    let mut f = b;
    while f <= e && !ends_block_line(&ls[f])
        invariant
            b <= f <= e + 1,
            e < ls.len(),
            v == views(ls@),
            first_end(v, f as int, e as int) == first_end(v, b as int, e as int),
        decreases e + 1 - f,
    {
        f += 1;
    }
    if f > e {
        return None;
    }
    Some((b, f))
}

pub fn rule_indent(ls: &Vec<Vec<char>>, s: usize, e: usize) -> (r: Vec<char>)
    requires
        s < e < ls.len(),
    ensures
        r@ == indent_of(views(ls@), s as int, e as int),
{
    let ghost v = views(ls@);
    let mut k = s + 1;
    while k < e && trimmed(&ls[k]).len() == 0
        invariant
            s + 1 <= k <= e,
            e < ls.len(),
            v == views(ls@),
            first_written(v, k as int, e as int) == first_written(v, s + 1, e as int),
        decreases e - k,
    {
        k += 1;
    }
    if k < e {
        let a = crate::text::skip_ws(&ls[k], 0);
        proof {
            crate::text::lemma_lead_bounds(ls@[k as int]@, 0);
        }
        slice_of(&ls[k], 0, a)
    } else {
        let a = crate::text::skip_ws(&ls[e], 0);
        proof {
            crate::text::lemma_lead_bounds(ls@[e as int]@, 0);
        }
        let mut out = slice_of(&ls[e], 0, a);
        out.push('\t');
        proof {
            reveal_strlit("\t");
        }
        assert(out@ =~= leading(v[e as int]) + "\t"@);
        out
    }
}

/// `indent` followed by the literal `s`.
fn indented(indent: &Vec<char>, s: &str) -> (r: Vec<char>)
    ensures
        r@ == indent@ + s@,
{
    let mut r = slice_of(indent, 0, indent.len());
    assert(indent@.subrange(0, indent.len() as int) =~= indent@);
    append_chars(&mut r, &chars_of(s));
    r
}

/// A fresh marker block holding one rule.
pub fn managed_block(indent: &Vec<char>, rule: &Vec<char>) -> (r: Vec<Vec<char>>)
    ensures
        views(r@) == marker_lines(indent@, rule@),
{
    let mut first = indented(indent, BEGIN_MARKER);
    append_chars(&mut first, &chars_of(" -- ports opened with `raven-firewall allow`."));
    let mut rule_line = slice_of(indent, 0, indent.len());
    assert(indent@.subrange(0, indent.len() as int) =~= indent@);
    append_chars(&mut rule_line, rule);
    let r = vec![
        first,
        indented(indent, "# Everything between these two markers is rewritten by that command;"),
        indented(indent, "# everything outside them is left exactly as you wrote it. Deleting a"),
        indented(indent, "# line here by hand is how a port gets closed again."),
        rule_line,
        indented(indent, END_MARKER),
    ];
    assert(views(r@) =~= marker_lines(indent@, rule@));
    r
}

/// Append copies of `ls[a..b]` to `out`.
fn copy_lines(ls: &Vec<Vec<char>>, a: usize, b: usize, out: &mut Vec<Vec<char>>)
    requires
        a <= b <= ls.len(),
    ensures
        views(final(out)@) == views(old(out)@) + views(ls@).subrange(a as int, b as int),
{
    let mut i = a;
    while i < b
        invariant
            a <= i <= b <= ls.len(),
            views(out@) == views(old(out)@) + views(ls@).subrange(a as int, i as int),
        decreases b - i,
    {
        let ghost before = views(out@);
        let line = slice_of(&ls[i], 0, ls[i].len());
        assert(ls@[i as int]@.subrange(0, ls@[i as int]@.len() as int) =~= ls@[i as int]@);
        out.push(line);
        assert(views(out@) =~= before.push(ls@[i as int]@));
        assert(views(ls@).subrange(a as int, i + 1) =~= views(ls@).subrange(a as int, i as int).push(ls@[i as int]@));
        i += 1;
    }
}

/// Add the rule that opens `p` to the input chain of `text`, or say why it is
/// already there.
///
/// A rule that already opens the port exactly, anywhere in the chain, means
/// nothing to do: inside the block `allow` owns it is already managed,
/// elsewhere somebody wrote it by hand. A conditional rule that merely
/// mentions the port does not count. Otherwise the rule goes above the END
/// marker of the block, or into a new block just before the chain's closing
/// brace, and every other line is kept as it was.
///
/// What holds across calls is proved in `ruleset`: a second `allow` of the
/// same port finds it managed (`lemma_allow_twice_is_uneventful`), and what
/// is written is the given file with only the block's lines added
/// (`lemma_allow_adds_only_its_lines`).
pub fn allow_in(text: &str, p: PortSpec) -> (r: Result<AllowOutcome, String>)
    ensures
        allow_says(text@, p, r),
{
    let ls = lines_of(text);
    let ghost v = views(ls@);
    let (start, end) = match chain_span(&ls) {
        None => {
            let mut m = NFTABLES_CONF.to_owned();
            push_str(&mut m, " has no `chain input` for the rule to go in; edit it by hand");
            return Err(m);
        },
        Some(span) => span,
    };
    proof {
        lemma_first_opening_bounds(v, 0);
        lemma_close_from_bounds(v, start + 1, 1);
    }
    let wanted_text = p.rule();
    let wanted = chars_of(wanted_text.as_str());
    let block = managed_block_span(&ls, start, end);
    let mut k = start + 1;
    while k < end
        invariant
            start + 1 <= k <= end,
            end < ls.len(),
            v == views(ls@),
            wanted@ == rule_text(p),
            wanted_text@ == rule_text(p),
            v == lines(text@),
            span_of(v) == Some((start as int, end as int)),
            span_matches(block, block_in(v, start as int, end as int)),
            first_rule(v, k as int, end as int, wanted@) == first_rule(v, start + 1, end as int, wanted@),
        decreases end - k,
    {
        let c = code_within(&ls[k]);
        let n = normalise(&c);
        if crate::text::same(&n, &wanted) {
            let managed = match block {
                Some((first, last)) => first < k && k < last,
                None => false,
            };
            if managed {
                return Ok(AllowOutcome::AlreadyManaged);
            } else {
                return Ok(AllowOutcome::AlreadyByHand(wanted_text));
            }
        }
        k += 1;
    }
    let indent = rule_indent(&ls, start, end);
    let mut rule_line = slice_of(&indent, 0, indent.len());
    assert(indent@.subrange(0, indent.len() as int) =~= indent@);
    append_chars(&mut rule_line, &wanted);
    let mut out: Vec<Vec<char>> = Vec::new();
    match block {
        Some((_, last)) => {
            copy_lines(&ls, 0, ls.len(), &mut out);
            assert(views(out@) =~= v);
            let ghost before = views(out@);
            out.insert(last, rule_line);
            assert(views(out@) =~= before.insert(last as int, indent@ + wanted@));
        },
        None => {
            copy_lines(&ls, 0, end, &mut out);
            let block_lines = managed_block(&indent, &wanted);
            let ghost with_blank = views(out@);
            let mut j: usize = 0;
            while j < block_lines.len()
                invariant
                    j <= block_lines.len(),
                    views(out@) == with_blank + views(block_lines@).subrange(0, j as int),
                decreases block_lines.len() - j,
            {
                let ghost b2 = views(out@);
                let line = slice_of(&block_lines[j], 0, block_lines[j].len());
                assert(block_lines@[j as int]@.subrange(0, block_lines@[j as int]@.len() as int) =~= block_lines@[j as int]@);
                out.push(line);
                assert(views(out@) =~= b2.push(block_lines@[j as int]@));
                assert(views(block_lines@).subrange(0, j + 1) =~= views(block_lines@).subrange(0, j as int).push(block_lines@[j as int]@));
                j += 1;
            }
            assert(views(block_lines@).subrange(0, block_lines.len() as int) =~= views(block_lines@));
            copy_lines(&ls, end, ls.len(), &mut out);
            assert(views(out@) =~= v.subrange(0, end as int) + marker_lines(indent@, wanted@) + v.subrange(end as int, v.len() as int));
        },
    }
    let mut all = crate::text::join_with(&out, "\n");
    let tv = chars_of(text);
    if finishes_with(&tv, "\n") {
        append_chars(&mut all, &chars_of("\n"));
    } else {
        assert(all@ + Seq::<char>::empty() =~= all@);
    }
    Ok(AllowOutcome::Added(to_string(&all)))
}


/// The text of one line with any trailing comment removed.
pub fn code_of(line: &str) -> (r: String)
    ensures
        r@ == code(line@),
{
    to_string(&code_within(&chars_of(line)))
}

/// Whether nft's complaint is about privileges rather than the ruleset.
pub fn looks_like_permission_trouble(stderr: &str) -> (r: bool)
    ensures
        r == (find_sub_from(stderr@, "Operation not permitted"@, 0) < stderr@.len()
            || find_sub_from(stderr@, "Permission denied"@, 0) < stderr@.len()),
{
    let v = chars_of(stderr);
    find_sub(&v, "Operation not permitted") < v.len() || find_sub(&v, "Permission denied") < v.len()
}

} // verus!
