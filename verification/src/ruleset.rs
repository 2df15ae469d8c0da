//! What an edit of the ruleset keeps: the file `allow` writes reads back as
//! the lines it was made of, and the rule it added is found again, inside
//! the block it owns.
use vstd::prelude::*;

use crate::firewall::{
    allow_says, begins_block, block_in, close_from, depth_after, edited_lines, edited_text, ends_block, first_begin,
    first_end, first_opening, first_rule, first_written, indent_of, inside, keyword_of, leading, marker_lines,
    opens_input, rule_text, span_of, AllowOutcome, PortSpec, BEGIN_MARKER, END_MARKER,
};
use crate::text::{
    code, count_char, ends_with, find_from, is_ws, joined, lead, lemma_find_from_bounds, lemma_lead_bounds,
    lemma_trail_bounds, lemma_ws_from_bounds, lines, lines_from, normal, starts_with, strip_cr, tokens, tokens_from,
    trail, trim, ws_from, decimal_text, digit_char,
};

verus! {

/// A piece of text with no newline in it.
pub open spec fn one_line(x: Seq<char>) -> bool {
    forall|k: int| 0 <= k < x.len() ==> x[k] != '\n'
}

proof fn lemma_find_shift(p: Seq<char>, r: Seq<char>, c: char, j: int)
    requires
        0 <= j <= r.len(),
    ensures
        find_from(p + r, c, p.len() + j) == p.len() + find_from(r, c, j),
    decreases r.len() - j,
{
    if j < r.len() {
        assert((p + r)[p.len() + j] == r[j]);
        if r[j] != c {
            lemma_find_shift(p, r, c, j + 1);
        }
    }
}

proof fn lemma_lines_shift(p: Seq<char>, r: Seq<char>, j: int)
    requires
        0 <= j <= r.len(),
    ensures
        lines_from(p + r, p.len() + j) == lines_from(r, j),
    decreases r.len() - j,
{
    let s = p + r;
    if j < r.len() {
        lemma_find_shift(p, r, '\n', j);
        lemma_find_from_bounds(r, '\n', j);
        let k = find_from(r, '\n', j);
        if k >= r.len() {
            assert(s.subrange(p.len() + j, s.len() as int) =~= r.subrange(j, r.len() as int));
        } else {
            assert(s.subrange(p.len() + j, p.len() + k) =~= r.subrange(j, k));
            lemma_lines_shift(p, r, k + 1);
            assert(p.len() + k + 1 == p.len() + (k + 1));
        }
    }
}

proof fn lemma_joined_front(parts: Seq<Seq<char>>, sep: Seq<char>)
    requires
        parts.len() >= 2,
    ensures
        joined(parts, sep) == parts[0] + sep + joined(parts.drop_first(), sep),
    decreases parts.len(),
{
    if parts.len() == 2 {
        assert(parts.drop_last() =~= seq![parts[0]]);
        assert(parts.drop_first() =~= seq![parts[1]]);
        assert(joined(parts.drop_last(), sep) == parts[0]);
        assert(joined(parts.drop_first(), sep) == parts[1]);
    } else {
        lemma_joined_front(parts.drop_last(), sep);
        assert(parts.drop_last().drop_first() =~= parts.drop_first().drop_last());
        assert(parts.drop_first().last() == parts.last());
        assert(parts.drop_last()[0] == parts[0]);
        assert(joined(parts.drop_first(), sep) == joined(parts.drop_first().drop_last(), sep) + sep
            + parts.drop_first().last());
        assert(joined(parts, sep) =~= parts[0] + sep + joined(parts.drop_first(), sep));
    }
}

/// What `str::lines` reads back from lines joined with newlines, `tail`
/// after the last: each line a newline follows loses a carriage return at
/// its end.
pub open spec fn read_back(ls: Seq<Seq<char>>, tail: Seq<char>) -> Seq<Seq<char>> {
    Seq::new(
        ls.len(),
        |i: int|
            if i + 1 < ls.len() || tail.len() > 0 {
                strip_cr(ls[i])
            } else {
                ls[i]
            },
    )
}

/// Lines joined with newlines, with or without a final one, read back as
/// [`read_back`] says: none holds a newline, and without a final newline the
/// last is not empty.
pub proof fn lemma_lines_of_joined(ls: Seq<Seq<char>>, tail: Seq<char>)
    requires
        ls.len() >= 1,
        forall|i: int| 0 <= i < ls.len() ==> one_line(#[trigger] ls[i]),
        tail == "\n"@ || tail == Seq::<char>::empty(),
        tail.len() == 0 ==> ls.last().len() > 0,
    ensures
        lines(joined(ls, "\n"@) + tail) == read_back(ls, tail),
    decreases ls.len(),
{
    reveal_strlit("\n");
    let nl: Seq<char> = "\n"@;
    let first = ls[0];
    assert(one_line(first));
    if ls.len() == 1 {
        let s = first + tail;
        assert(joined(ls, nl) == first);
        lemma_find_from_bounds(s, '\n', 0);
        let k = find_from(s, '\n', 0);
        assert forall|m: int| 0 <= m < first.len() implies s[m] != '\n' by {
            assert(s[m] == first[m]);
        }
        if tail.len() == 0 {
            assert(s =~= first);
            assert(k == s.len());
            assert(lines_from(s, 0) == seq![s.subrange(0, s.len() as int)]);
            assert(s.subrange(0, s.len() as int) =~= first);
            assert(lines_from(s, 0) =~= read_back(ls, tail));
        } else {
            assert(s[first.len() as int] == '\n');
            assert(k == first.len());
            assert(s.subrange(0, k) =~= first);
            assert(lines_from(s, 0) == seq![strip_cr(first)] + lines_from(s, k + 1));
            assert(lines_from(s, k + 1) == Seq::<Seq<char>>::empty());
            assert(lines_from(s, 0) =~= read_back(ls, tail));
        }
    } else {
        let rest = ls.drop_first();
        lemma_joined_front(ls, nl);
        let r = joined(rest, nl) + tail;
        let p = first + nl;
        let s = joined(ls, nl) + tail;
        assert(s =~= p + r);
        assert forall|i: int| 0 <= i < rest.len() implies one_line(#[trigger] rest[i]) by {
            assert(rest[i] == ls[i + 1]);
        }
        assert(rest.last() == ls.last());
        lemma_lines_of_joined(rest, tail);
        lemma_find_from_bounds(s, '\n', 0);
        assert forall|m: int| 0 <= m < first.len() implies s[m] != '\n' by {
            assert(s[m] == first[m]);
        }
        assert(s[first.len() as int] == '\n');
        let k = find_from(s, '\n', 0);
        assert(k == first.len());
        assert(s.subrange(0, k) =~= first);
        assert(lines_from(s, 0) == seq![strip_cr(first)] + lines_from(s, k + 1));
        lemma_lines_shift(p, r, 0);
        assert(lines_from(s, k + 1) == lines_from(r, 0));
        assert(lines_from(s, 0) =~= read_back(ls, tail)) by {
            assert forall|i: int| 0 <= i < ls.len() implies #[trigger] lines_from(s, 0)[i] == read_back(ls, tail)[i] by {
                if i > 0 {
                    assert(lines_from(s, 0)[i] == read_back(rest, tail)[i - 1]);
                    assert(rest[i - 1] == ls[i]);
                }
            }
        }
    }
}

/// Every line of a text is free of newlines, and without a final newline
/// the last is not empty.
pub proof fn lemma_lines_shape(s: Seq<char>, i: int)
    requires
        0 <= i,
    ensures
        forall|k: int| 0 <= k < lines_from(s, i).len() ==> one_line(#[trigger] lines_from(s, i)[k]),
        lines_from(s, i).len() > 0 && !ends_with(s, "\n"@) ==> lines_from(s, i).last().len() > 0,
    decreases s.len() - i,
{
    reveal_strlit("\n");
    if i < s.len() {
        lemma_find_from_bounds(s, '\n', i);
        let k = find_from(s, '\n', i);
        if k >= s.len() {
            let x = s.subrange(i, s.len() as int);
            assert(lines_from(s, i) == seq![x]);
            assert(one_line(x)) by {
                assert forall|m: int| 0 <= m < x.len() implies x[m] != '\n' by {
                    assert(x[m] == s[i + m]);
                }
            }
        } else {
            let x = s.subrange(i, k);
            let rest = lines_from(s, k + 1);
            lemma_lines_shape(s, k + 1);
            assert(lines_from(s, i) == seq![strip_cr(x)] + rest);
            assert(one_line(strip_cr(x))) by {
                assert forall|m: int| 0 <= m < strip_cr(x).len() implies strip_cr(x)[m] != '\n' by {
                    assert(strip_cr(x)[m] == x[m]);
                    assert(x[m] == s[i + m]);
                }
            }
            assert forall|m: int| 0 <= m < lines_from(s, i).len() implies one_line(#[trigger] lines_from(s, i)[m]) by {
                if m > 0 {
                    assert(lines_from(s, i)[m] == rest[m - 1]);
                }
            }
            if lines_from(s, i).len() > 0 && !ends_with(s, "\n"@) {
                if rest.len() == 0 {
                    if k + 1 < s.len() {
                        lemma_find_from_bounds(s, '\n', k + 1);
                        assert(lines_from(s, k + 1).len() >= 1);
                    }
                    assert(k == s.len() - 1);
                    assert(s.subrange(s.len() - 1, s.len() as int) =~= "\n"@);
                    assert(false);
                } else {
                    assert(lines_from(s, i).last() == rest.last());
                }
            }
        }
    }
}

/// `m` put into `ls` before the line at `j`.
pub open spec fn splice(ls: Seq<Seq<char>>, j: int, m: Seq<Seq<char>>) -> Seq<Seq<char>> {
    ls.subrange(0, j) + m + ls.subrange(j, ls.len() as int)
}

/// A line whose code holds no brace, so that it leaves the depth as it was.
pub open spec fn braceless(x: Seq<char>) -> bool {
    count_char(code(x), '{') == 0 && count_char(code(x), '}') == 0
}

proof fn lemma_splice_index(ls: Seq<Seq<char>>, j: int, m: Seq<Seq<char>>)
    requires
        0 <= j <= ls.len(),
    ensures
        splice(ls, j, m).len() == ls.len() + m.len(),
        forall|i: int| 0 <= i < j ==> #[trigger] splice(ls, j, m)[i] == ls[i],
        forall|i: int| 0 <= i < m.len() ==> #[trigger] splice(ls, j, m)[j + i] == m[i],
        forall|i: int| j <= i < ls.len() ==> #[trigger] splice(ls, j, m)[i + m.len()] == ls[i],
{
    let t = splice(ls, j, m);
    assert forall|i: int| 0 <= i < m.len() implies #[trigger] t[j + i] == m[i] by {
        assert((ls.subrange(0, j) + m)[j + i] == m[i]);
    }
    assert forall|i: int| j <= i < ls.len() implies #[trigger] t[i + m.len()] == ls[i] by {
        assert(ls.subrange(j, ls.len() as int)[i - j] == ls[i]);
    }
}

/// Through braceless lines the depth does not change, so the chain does not
/// close among them.
proof fn lemma_close_from_through(ls: Seq<Seq<char>>, a: int, b: int, d: nat)
    requires
        0 <= a <= b <= ls.len(),
        d > 0,
        forall|k: int| a <= k < b ==> braceless(#[trigger] ls[k]),
    ensures
        close_from(ls, a, d) == close_from(ls, b, d),
    decreases b - a,
{
    if a < b {
        assert(braceless(ls[a]));
        assert(depth_after(d, ls[a]) == d);
        lemma_close_from_through(ls, a + 1, b, d);
    }
}

/// Past the spliced lines, the chain closes where it did, moved down by
/// their number.
proof fn lemma_close_from_after(ls: Seq<Seq<char>>, j: int, m: Seq<Seq<char>>, i: int, d: nat)
    requires
        0 <= j <= i,
        j <= ls.len(),
    ensures
        close_from(splice(ls, j, m), i + m.len(), d) == match close_from(ls, i, d) {
            Some(e) => Some(e + m.len()),
            None => None::<int>,
        },
    decreases ls.len() - i,
{
    lemma_splice_index(ls, j, m);
    let t = splice(ls, j, m);
    if i < ls.len() {
        assert(t[i + m.len()] == ls[i]);
        if depth_after(d, ls[i]) != 0 {
            lemma_close_from_after(ls, j, m, i + 1, depth_after(d, ls[i]));
            assert(i + m.len() + 1 == (i + 1) + m.len());
        }
    }
}

/// Braceless lines spliced into a chain before its closing line leave it
/// closing on the same line, moved down by their number.
pub proof fn lemma_close_from_splice(ls: Seq<Seq<char>>, j: int, m: Seq<Seq<char>>, i: int, d: nat, e: int)
    requires
        0 <= i <= j <= e,
        d > 0,
        close_from(ls, i, d) == Some(e),
        forall|k: int| 0 <= k < m.len() ==> braceless(#[trigger] m[k]),
    ensures
        close_from(splice(ls, j, m), i, d) == Some(e + m.len()),
    decreases j - i,
{
    crate::firewall::lemma_close_from_bounds(ls, i, d);
    lemma_splice_index(ls, j, m);
    let t = splice(ls, j, m);
    if i < j {
        assert(t[i] == ls[i]);
        assert(depth_after(d, ls[i]) != 0);
        lemma_close_from_splice(ls, j, m, i + 1, depth_after(d, ls[i]), e);
    } else {
        assert forall|k: int| j <= k < j + m.len() implies braceless(#[trigger] t[k]) by {
            assert(t[j + (k - j)] == m[k - j]);
        }
        lemma_close_from_through(t, j, j + m.len(), d);
        lemma_close_from_after(ls, j, m, j, d);
    }
}

/// The line a chain closes on has a closing brace in its code.
pub proof fn lemma_closing_line_has_brace(ls: Seq<Seq<char>>, i: int, d: nat, e: int)
    requires
        0 <= i,
        d > 0,
        close_from(ls, i, d) == Some(e),
    ensures
        0 <= e < ls.len(),
        count_char(code(ls[e]), '}') > 0,
    decreases ls.len() - i,
{
    crate::firewall::lemma_close_from_bounds(ls, i, d);
    if depth_after(d, ls[i]) != 0 {
        lemma_closing_line_has_brace(ls, i + 1, depth_after(d, ls[i]), e);
    }
}

/// The first line opening the chain is found in a list that agrees with
/// the original up to it.
pub proof fn lemma_first_opening_prefix(ls: Seq<Seq<char>>, t: Seq<Seq<char>>, i: int, s: int)
    requires
        0 <= i <= s < ls.len(),
        s < t.len(),
        first_opening(ls, i) == s,
        forall|k: int| i <= k <= s ==> t[k] == ls[k],
    ensures
        first_opening(t, i) == s,
    decreases s - i,
{
    if i < s {
        assert(!opens_input(ls[i]));
        lemma_first_opening_prefix(ls, t, i + 1, s);
    } else {
        crate::firewall::lemma_first_opening_bounds(ls, i);
        assert(opens_input(ls[s]));
    }
}

/// Nothing but whitespace.
pub open spec fn ws_only(x: Seq<char>) -> bool {
    forall|k: int| 0 <= k < x.len() ==> is_ws(#[trigger] x[k])
}

proof fn lemma_count_absent(x: Seq<char>, c: char)
    requires
        forall|k: int| 0 <= k < x.len() ==> #[trigger] x[k] != c,
    ensures
        count_char(x, c) == 0,
    decreases x.len(),
{
    if x.len() > 0 {
        assert forall|k: int| 0 <= k < x.drop_last().len() implies #[trigger] x.drop_last()[k] != c by {
            assert(x.drop_last()[k] == x[k]);
        }
        lemma_count_absent(x.drop_last(), c);
        assert(x.last() == x[x.len() - 1]);
    }
}

proof fn lemma_lead_all(x: Seq<char>, i: int)
    requires
        0 <= i <= x.len(),
        ws_only(x),
    ensures
        lead(x, i) == x.len(),
    decreases x.len() - i,
{
    if i < x.len() {
        assert(is_ws(x[i]));
        lemma_lead_all(x, i + 1);
    }
}

/// Whitespace holds no brace, no token and nothing once trimmed.
pub proof fn lemma_ws_only(x: Seq<char>)
    requires
        ws_only(x),
    ensures
        count_char(x, '{') == 0,
        count_char(x, '}') == 0,
        tokens(x).len() == 0,
        normal(x) == Seq::<char>::empty(),
        trim(x).len() == 0,
{
    assert forall|k: int| 0 <= k < x.len() implies #[trigger] x[k] != '{' by {
        assert(is_ws(x[k]));
    }
    assert forall|k: int| 0 <= k < x.len() implies #[trigger] x[k] != '}' by {
        assert(is_ws(x[k]));
    }
    lemma_count_absent(x, '{');
    lemma_count_absent(x, '}');
    lemma_lead_all(x, 0);
    assert(tokens_from(x, 0).len() == 0);
    assert(normal(x) =~= Seq::<char>::empty());
    lemma_trail_bounds(x, x.len() as int, x.len() as int);
}

/// A line whose first non-blank character is `#` is all comment: its code is
/// its leading whitespace.
pub proof fn lemma_hash_line(x: Seq<char>)
    requires
        lead(x, 0) < x.len(),
        x[lead(x, 0)] == '#',
    ensures
        code(x) == x.subrange(0, lead(x, 0)),
        ws_only(code(x)),
        braceless(x),
        !opens_input(x),
        normal(code(x)) == Seq::<char>::empty(),
{
    lemma_lead_bounds(x, 0);
    lemma_find_from_bounds(x, '#', 0);
    let a = lead(x, 0);
    let f = find_from(x, '#', 0);
    if f < a {
        assert(is_ws(x[f]));
        assert(x[f] == '#');
        assert(false);
    }
    assert(f == a);
    let c = code(x);
    assert(ws_only(c)) by {
        assert forall|k: int| 0 <= k < c.len() implies is_ws(#[trigger] c[k]) by {
            assert(c[k] == x[k]);
        }
    }
    lemma_ws_only(c);
    reveal_strlit("chain input");
}

/// A marker line of the block begins, once blank space is skipped, with `#`.
pub proof fn lemma_marker_line(x: Seq<char>)
    requires
        begins_block(x) || ends_block(x),
    ensures
        lead(x, 0) < x.len(),
        x[lead(x, 0)] == '#',
{
    reveal_strlit("# BEGIN raven-firewall");
    reveal_strlit("# END raven-firewall");
    lemma_lead_bounds(x, 0);
    let a = lead(x, 0);
    lemma_trail_bounds(x, a, x.len() as int);
    let t = trim(x);
    if begins_block(x) {
        assert(t.subrange(0, BEGIN_MARKER@.len() as int) == BEGIN_MARKER@);
        assert(t[0] == BEGIN_MARKER@[0]);
    } else {
        assert(t.subrange(0, END_MARKER@.len() as int) == END_MARKER@);
        assert(t[0] == END_MARKER@[0]);
    }
    assert(t[0] == x[a]);
}

/// Blank space followed by text that starts and ends with something else:
/// trimmed, it is the text.
pub proof fn lemma_indented(indent: Seq<char>, rest: Seq<char>)
    requires
        ws_only(indent),
        rest.len() > 0,
        !is_ws(rest[0]),
        !is_ws(rest.last()),
    ensures
        lead(indent + rest, 0) == indent.len(),
        trim(indent + rest) == rest,
{
    let x = indent + rest;
    assert forall|k: int| 0 <= k < indent.len() implies is_ws(#[trigger] x[k]) by {
        assert(x[k] == indent[k]);
    }
    assert(x[indent.len() as int] == rest[0]);
    lemma_lead_run(x, 0, indent.len() as int);
    assert(x[x.len() - 1] == rest.last());
    assert(trail(x, indent.len() as int, x.len() as int) == x.len());
    assert(trim(x) =~= rest);
}

/// `lead` from `i` stops at the first non-blank character, `a`.
proof fn lemma_lead_run(x: Seq<char>, i: int, a: int)
    requires
        0 <= i <= a < x.len(),
        forall|k: int| i <= k < a ==> is_ws(#[trigger] x[k]),
        !is_ws(x[a]),
    ensures
        lead(x, i) == a,
    decreases a - i,
{
    if i < a {
        assert(is_ws(x[i]));
        lemma_lead_run(x, i + 1, a);
    }
}

proof fn lemma_ws_from_run(x: Seq<char>, a: int, b: int)
    requires
        0 <= a <= b <= x.len(),
        forall|k: int| a <= k < b ==> !is_ws(#[trigger] x[k]),
        b < x.len() ==> is_ws(x[b]),
    ensures
        ws_from(x, a) == b,
    decreases b - a,
{
    if a < b {
        assert(!is_ws(x[a]));
        lemma_ws_from_run(x, a + 1, b);
    }
}

/// One token: blank space from `i` to `a`, the token from `a` to `b`, and
/// then blank space or the end.
proof fn lemma_tokens_step(x: Seq<char>, i: int, a: int, b: int)
    requires
        0 <= i <= a < b <= x.len(),
        forall|k: int| i <= k < a ==> is_ws(#[trigger] x[k]),
        forall|k: int| a <= k < b ==> !is_ws(#[trigger] x[k]),
        b < x.len() ==> is_ws(x[b]),
    ensures
        tokens_from(x, i) == seq![x.subrange(a, b)] + tokens_from(x, b),
{
    assert(!is_ws(x[a]));
    lemma_lead_run(x, i, a);
    lemma_ws_from_run(x, a, b);
}

proof fn lemma_decimal_digits(n: nat)
    ensures
        decimal_text(n).len() >= 1,
        forall|k: int| 0 <= k < decimal_text(n).len() ==> 48 <= (#[trigger] decimal_text(n)[k]) as u32 <= 57,
    decreases n,
{
    if n < 10 {
        assert(decimal_text(n) == seq![digit_char(n)]);
        assert((digit_char(n) as u32) == 48 + n);
    } else {
        lemma_decimal_digits(n / 10);
        let h = decimal_text(n / 10);
        let d = digit_char(n % 10);
        assert(decimal_text(n) == h.push(d));
        assert((d as u32) == 48 + n % 10);
        assert forall|k: int| 0 <= k < decimal_text(n).len() implies 48 <= (#[trigger] decimal_text(n)[k]) as u32
            <= 57 by {
            if k < h.len() {
                assert(decimal_text(n)[k] == h[k]);
            } else {
                assert(decimal_text(n)[k] == d);
            }
        }
    }
}

/// A character of a rule: no brace, no comment, no line break.
pub open spec fn inert(c: char) -> bool {
    c != '{' && c != '}' && c != '#' && c != '\n'
}

proof fn lemma_lead_shift(p: Seq<char>, r: Seq<char>, j: int)
    requires
        0 <= j <= r.len(),
    ensures
        lead(p + r, p.len() + j) == p.len() + lead(r, j),
    decreases r.len() - j,
{
    if j < r.len() {
        assert((p + r)[p.len() + j] == r[j]);
        if is_ws(r[j]) {
            lemma_lead_shift(p, r, j + 1);
        }
    }
}

proof fn lemma_ws_from_shift(p: Seq<char>, r: Seq<char>, j: int)
    requires
        0 <= j <= r.len(),
    ensures
        ws_from(p + r, p.len() + j) == p.len() + ws_from(r, j),
    decreases r.len() - j,
{
    if j < r.len() {
        assert((p + r)[p.len() + j] == r[j]);
        if !is_ws(r[j]) {
            lemma_ws_from_shift(p, r, j + 1);
        }
    }
}

proof fn lemma_tokens_shift(p: Seq<char>, r: Seq<char>, j: int)
    requires
        0 <= j <= r.len(),
    ensures
        tokens_from(p + r, p.len() + j) == tokens_from(r, j),
    decreases r.len() - j,
{
    let x = p + r;
    if j < r.len() {
        lemma_lead_shift(p, r, j);
        lemma_lead_bounds(r, j);
        let a = lead(r, j);
        if a < r.len() {
            lemma_ws_from_shift(p, r, a);
            lemma_ws_from_bounds(r, a);
            let b = ws_from(r, a);
            assert(x.subrange(p.len() + a, p.len() + b) =~= r.subrange(a, b));
            lemma_tokens_shift(p, r, b);
        }
    }
}

proof fn lemma_tokens_skip(x: Seq<char>, i: int, a: int)
    requires
        0 <= i <= a <= x.len(),
        forall|k: int| i <= k < a ==> is_ws(#[trigger] x[k]),
    ensures
        tokens_from(x, i) == tokens_from(x, a),
    decreases a - i,
{
    if i < a {
        assert(is_ws(x[i]));
        lemma_tokens_skip(x, i + 1, a);
        assert(lead(x, i) == lead(x, i + 1));
        if i + 1 >= x.len() {
            lemma_lead_bounds(x, i + 1);
        }
    }
}

/// The characters of a rule: none is a brace, a comment or a line break;
/// it starts with the protocol's letter and ends with the `t` of `accept`.
proof fn lemma_rule_chars(p: PortSpec)
    ensures
        rule_text(p).len() == 17 + decimal_text(p.port as nat).len(),
        decimal_text(p.port as nat).len() >= 1,
        forall|k: int| 0 <= k < rule_text(p).len() ==> inert(#[trigger] rule_text(p)[k]),
        !is_ws(rule_text(p)[0]),
        rule_text(p)[0] == 't' || rule_text(p)[0] == 'u',
        rule_text(p).last() == 't',
{
    reveal_strlit("tcp");
    reveal_strlit("udp");
    reveal_strlit(" dport ");
    reveal_strlit(" accept");
    let kw = keyword_of(p.proto);
    let dd = decimal_text(p.port as nat);
    lemma_decimal_digits(p.port as nat);
    let w = rule_text(p);
    let nd = dd.len() as int;
    let dport: Seq<char> = " dport "@;
    let accept: Seq<char> = " accept"@;
    assert(kw.len() == 3);
    assert(w =~= kw + dport + dd + accept);
    assert forall|k: int| 0 <= k < w.len() implies inert(#[trigger] w[k]) by {
        if k < 3 {
            assert(w[k] == kw[k]);
        } else if k < 10 {
            assert(w[k] == dport[k - 3]);
        } else if k < 10 + nd {
            assert(w[k] == dd[k - 10]);
            assert(48 <= (dd[k - 10]) as u32 <= 57);
        } else {
            assert(w[k] == accept[k - 10 - nd]);
        }
    }
    assert(w[0] == kw[0]);
    assert(w.last() == accept[6]);
}

/// The words of a rule, and the rule again once they are joined.
proof fn lemma_rule_normal(p: PortSpec)
    ensures
        normal(rule_text(p)) == rule_text(p),
{
    reveal_strlit("tcp");
    reveal_strlit("udp");
    reveal_strlit(" dport ");
    reveal_strlit(" accept");
    reveal_strlit(" ");
    lemma_rule_chars(p);
    let kw = keyword_of(p.proto);
    let dd = decimal_text(p.port as nat);
    lemma_decimal_digits(p.port as nat);
    let w = rule_text(p);
    let nd = dd.len() as int;
    let dport: Seq<char> = " dport "@;
    let accept: Seq<char> = " accept"@;
    assert(w =~= kw + dport + dd + accept);
    assert forall|k: int| 0 <= k < 3 implies !is_ws(#[trigger] w[k]) by {
        assert(w[k] == kw[k]);
    }
    assert forall|k: int| 4 <= k < 9 implies !is_ws(#[trigger] w[k]) by {
        assert(w[k] == dport[k - 3]);
    }
    assert forall|k: int| 10 <= k < 10 + nd implies !is_ws(#[trigger] w[k]) by {
        assert(w[k] == dd[k - 10]);
        assert(48 <= (dd[k - 10]) as u32 <= 57);
    }
    assert forall|k: int| 11 + nd <= k < 17 + nd implies !is_ws(#[trigger] w[k]) by {
        assert(w[k] == accept[k - 10 - nd]);
    }
    assert(w[3] == dport[0]);
    assert(w[9] == dport[6]);
    assert(w[10 + nd] == accept[0]);
    lemma_tokens_step(w, 0, 0, 3);
    lemma_tokens_step(w, 3, 4, 9);
    lemma_tokens_step(w, 9, 10, 10 + nd);
    lemma_tokens_step(w, 10 + nd, 11 + nd, 17 + nd);
    let t1 = w.subrange(0, 3);
    let t2 = w.subrange(4, 9);
    let t3 = w.subrange(10, 10 + nd);
    let t4 = w.subrange(11 + nd, 17 + nd);
    let toks = seq![t1, t2, t3, t4];
    assert(tokens(w) =~= toks);
    let sp: Seq<char> = " "@;
    assert(toks.drop_last() =~= seq![t1, t2, t3]);
    assert(seq![t1, t2, t3].drop_last() =~= seq![t1, t2]);
    assert(seq![t1, t2].drop_last() =~= seq![t1]);
    assert(joined(seq![t1], sp) == t1);
    assert(joined(seq![t1, t2], sp) == joined(seq![t1], sp) + sp + t2);
    assert(joined(seq![t1, t2, t3], sp) == joined(seq![t1, t2], sp) + sp + t3);
    assert(joined(toks, sp) == joined(seq![t1, t2, t3], sp) + sp + t4);
    assert(joined(toks, sp) =~= w);
}

/// The rule `allow` writes for a port, indented with blank space: read back
/// as code, it is itself; trimmed and normalised, it is the rule; and it is
/// neither a marker of the block nor the opening of a chain.
pub proof fn lemma_rule_line(p: PortSpec, indent: Seq<char>)
    requires
        ws_only(indent),
        one_line(indent),
    ensures
        code(indent + rule_text(p)) == indent + rule_text(p),
        braceless(indent + rule_text(p)),
        one_line(indent + rule_text(p)),
        normal(code(indent + rule_text(p))) == rule_text(p),
        trim(indent + rule_text(p)) == rule_text(p),
        !begins_block(indent + rule_text(p)),
        !ends_block(indent + rule_text(p)),
        !opens_input(indent + rule_text(p)),
        rule_text(p).len() > 0,
{
    lemma_rule_chars(p);
    lemma_rule_normal(p);
    let w = rule_text(p);
    let n0 = indent.len() as int;
    let x = indent + w;
    assert forall|k: int| 0 <= k < x.len() implies inert(#[trigger] x[k]) by {
        if k < n0 {
            assert(x[k] == indent[k]);
            assert(is_ws(indent[k]));
            assert(indent[k] != '\n');
        } else {
            assert(x[k] == w[k - n0]);
        }
    }
    lemma_find_from_bounds(x, '#', 0);
    if find_from(x, '#', 0) < x.len() {
        assert(inert(x[find_from(x, '#', 0)]));
        assert(false);
    }
    assert(code(x) =~= x);
    assert forall|k: int| 0 <= k < x.len() implies #[trigger] x[k] != '{' by {
        assert(inert(x[k]));
    }
    assert forall|k: int| 0 <= k < x.len() implies #[trigger] x[k] != '}' by {
        assert(inert(x[k]));
    }
    lemma_count_absent(x, '{');
    lemma_count_absent(x, '}');
    assert(one_line(x)) by {
        assert forall|k: int| 0 <= k < x.len() implies x[k] != '\n' by {
            assert(inert(x[k]));
        }
    }
    assert(x.last() == w.last());
    lemma_indented(indent, w);
    assert forall|k: int| 0 <= k < n0 implies is_ws(#[trigger] x[k]) by {
        assert(x[k] == indent[k]);
    }
    lemma_tokens_skip(x, 0, n0);
    lemma_tokens_shift(indent, w, 0);
    assert(tokens(x) == tokens(w));
    reveal_strlit("# BEGIN raven-firewall");
    reveal_strlit("# END raven-firewall");
    reveal_strlit("chain input");
    assert(trim(x)[0] == w[0]);
    if begins_block(x) {
        assert(trim(x).subrange(0, BEGIN_MARKER@.len() as int)[0] == BEGIN_MARKER@[0]);
    }
    if ends_block(x) {
        assert(trim(x).subrange(0, END_MARKER@.len() as int)[0] == END_MARKER@[0]);
    }
    if opens_input(x) {
        assert(trim(code(x)).subrange(0, "chain input"@.len() as int)[0] == "chain input"@[0]);
    }
}

/// A comment line `allow` writes: blank space, then text from a `#` to a
/// character that is not blank.
proof fn lemma_comment_line(indent: Seq<char>, rest: Seq<char>)
    requires
        ws_only(indent),
        one_line(indent),
        one_line(rest),
        rest.len() > 0,
        rest[0] == '#',
        !is_ws(rest.last()),
    ensures
        one_line(indent + rest),
        braceless(indent + rest),
        normal(code(indent + rest)) == Seq::<char>::empty(),
        trim(indent + rest) == rest,
{
    let x = indent + rest;
    lemma_indented(indent, rest);
    assert(x[indent.len() as int] == rest[0]);
    lemma_hash_line(x);
    assert(one_line(x)) by {
        assert forall|k: int| 0 <= k < x.len() implies x[k] != '\n' by {
            if k < indent.len() {
                assert(x[k] == indent[k]);
            } else {
                assert(x[k] == rest[k - indent.len()]);
            }
        }
    }
}

/// The indentation `allow` uses is blank space on one line.
pub proof fn lemma_indent_of(ls: Seq<Seq<char>>, s: int, e: int)
    requires
        0 <= s < e < ls.len(),
        forall|i: int| 0 <= i < ls.len() ==> one_line(#[trigger] ls[i]),
    ensures
        ws_only(indent_of(ls, s, e)),
        one_line(indent_of(ls, s, e)),
{
    reveal_strlit("\t");
    let k = first_written(ls, s + 1, e);
    lemma_first_written_bounds(ls, s + 1, e);
    let line = if k < e {
        ls[k]
    } else {
        ls[e]
    };
    assert(one_line(line));
    lemma_lead_bounds(line, 0);
    let l = leading(line);
    assert(ws_only(l)) by {
        assert forall|m: int| 0 <= m < l.len() implies is_ws(#[trigger] l[m]) by {
            assert(l[m] == line[m]);
        }
    }
    assert(one_line(l)) by {
        assert forall|m: int| 0 <= m < l.len() implies l[m] != '\n' by {
            assert(l[m] == line[m]);
        }
    }
    if k >= e {
        let t = l + "\t"@;
        assert forall|m: int| 0 <= m < t.len() implies is_ws(#[trigger] t[m]) && t[m] != '\n' by {
            if m < l.len() {
                assert(t[m] == l[m]);
            } else {
                assert(t[m] == '\t');
            }
        }
    }
}

proof fn lemma_first_written_bounds(ls: Seq<Seq<char>>, i: int, e: int)
    requires
        0 <= i <= e,
    ensures
        i <= first_written(ls, i, e) <= e,
    decreases e - i,
{
    if i < e && i < ls.len() && trim(ls[i]).len() == 0 {
        lemma_first_written_bounds(ls, i + 1, e);
    }
}

/// The lines of a fresh block: each on one line, braceless, not ending in a
/// carriage return, and not the rule but for the rule itself; the first
/// opens the block and only the last closes it.
pub open spec fn fresh_block(indent: Seq<char>, p: PortSpec) -> Seq<Seq<char>> {
    marker_lines(indent, rule_text(p))
}

/// Whether a line ends in a carriage return.
pub open spec fn ends_cr(x: Seq<char>) -> bool {
    x.len() > 0 && x.last() == '\r'
}

pub proof fn lemma_fresh_block(indent: Seq<char>, p: PortSpec)
    requires
        ws_only(indent),
        one_line(indent),
    ensures
        fresh_block(indent, p).len() == 6,
        forall|k: int| 0 <= k < 6 ==> one_line(#[trigger] fresh_block(indent, p)[k]),
        forall|k: int| 0 <= k < 6 ==> braceless(#[trigger] fresh_block(indent, p)[k]),
        forall|k: int| 0 <= k < 6 ==> !ends_cr(#[trigger] fresh_block(indent, p)[k]),
        forall|k: int| 0 <= k < 4 ==> normal(code(#[trigger] fresh_block(indent, p)[k])) != rule_text(p),
        fresh_block(indent, p)[4] == indent + rule_text(p),
        begins_block(fresh_block(indent, p)[0]),
        forall|k: int| 0 <= k < 5 ==> !ends_block(#[trigger] fresh_block(indent, p)[k]),
        ends_block(fresh_block(indent, p)[5]),
{
    let w = rule_text(p);
    let m = fresh_block(indent, p);
    let b: Seq<char> = BEGIN_MARKER@ + " -- ports opened with `raven-firewall allow`."@;
    let c1: Seq<char> = "# Everything between these two markers is rewritten by that command;"@;
    let c2: Seq<char> = "# everything outside them is left exactly as you wrote it. Deleting a"@;
    let c3: Seq<char> = "# line here by hand is how a port gets closed again."@;
    let en: Seq<char> = END_MARKER@;
    reveal_strlit("# BEGIN raven-firewall");
    reveal_strlit("# END raven-firewall");
    reveal_strlit(" -- ports opened with `raven-firewall allow`.");
    reveal_strlit("# Everything between these two markers is rewritten by that command;");
    reveal_strlit("# everything outside them is left exactly as you wrote it. Deleting a");
    reveal_strlit("# line here by hand is how a port gets closed again.");
    assert(m[0] == indent + b);
    assert(m[1] == indent + c1);
    assert(m[2] == indent + c2);
    assert(m[3] == indent + c3);
    assert(m[4] == indent + w);
    assert(m[5] == indent + en);
    lemma_rule_line(p, indent);
    lemma_rule_chars(p);
    assert(one_line(b)) by {
        assert forall|k: int| 0 <= k < b.len() implies b[k] != '\n' by {}
    }
    lemma_comment_line(indent, b);
    lemma_comment_line(indent, c1);
    lemma_comment_line(indent, c2);
    lemma_comment_line(indent, c3);
    lemma_comment_line(indent, en);
    assert((indent + b).last() == b.last());
    assert((indent + c1).last() == c1.last());
    assert((indent + c2).last() == c2.last());
    assert((indent + c3).last() == c3.last());
    assert((indent + w).last() == w.last());
    assert((indent + en).last() == en.last());
    assert(starts_with(trim(indent + b), BEGIN_MARKER@)) by {
        assert(b.subrange(0, BEGIN_MARKER@.len() as int) =~= BEGIN_MARKER@);
    }
    assert(starts_with(trim(indent + en), END_MARKER@)) by {
        assert(en.subrange(0, END_MARKER@.len() as int) =~= END_MARKER@);
    }
    assert(!ends_block(m[0])) by {
        assert(b[2] != en[2]);
        assert(b.subrange(0, en.len() as int)[2] == b[2]);
    }
    assert(!ends_block(m[1])) by {
        assert(c1.subrange(0, en.len() as int)[3] == c1[3]);
    }
    assert(!ends_block(m[2])) by {
        assert(c2.subrange(0, en.len() as int)[2] == c2[2]);
    }
    assert(!ends_block(m[3])) by {
        assert(c3.subrange(0, en.len() as int)[2] == c3[2]);
    }
    assert(w.len() > 0);
}

proof fn lemma_first_begin_facts(ls: Seq<Seq<char>>, i: int, e: int)
    requires
        0 <= i <= e + 1,
        e < ls.len(),
    ensures
        i <= first_begin(ls, i, e) <= e + 1,
        forall|k: int| i <= k < first_begin(ls, i, e) ==> !begins_block(#[trigger] ls[k]),
        first_begin(ls, i, e) <= e ==> begins_block(ls[first_begin(ls, i, e)]),
    decreases e + 1 - i,
{
    if i <= e && !begins_block(ls[i]) {
        lemma_first_begin_facts(ls, i + 1, e);
    }
}

proof fn lemma_first_end_facts(ls: Seq<Seq<char>>, i: int, e: int)
    requires
        0 <= i <= e + 1,
        e < ls.len(),
    ensures
        i <= first_end(ls, i, e) <= e + 1,
        forall|k: int| i <= k < first_end(ls, i, e) ==> !ends_block(#[trigger] ls[k]),
        first_end(ls, i, e) <= e ==> ends_block(ls[first_end(ls, i, e)]),
    decreases e + 1 - i,
{
    if i <= e && !ends_block(ls[i]) {
        lemma_first_end_facts(ls, i + 1, e);
    }
}

proof fn lemma_first_rule_none(ls: Seq<Seq<char>>, i: int, e: int, w: Seq<char>)
    requires
        0 <= i <= e <= ls.len(),
        first_rule(ls, i, e, w) == e,
    ensures
        forall|k: int| i <= k < e ==> normal(code(#[trigger] ls[k])) != w,
    decreases e - i,
{
    if i < e {
        assert(normal(code(ls[i])) != w);
        lemma_first_rule_none(ls, i + 1, e, w);
    }
}

proof fn lemma_first_begin_at(ls: Seq<Seq<char>>, i: int, e: int, b: int)
    requires
        0 <= i <= b <= e,
        b < ls.len(),
        forall|k: int| i <= k < b ==> !begins_block(#[trigger] ls[k]),
        begins_block(ls[b]),
    ensures
        first_begin(ls, i, e) == b,
    decreases b - i,
{
    if i < b {
        assert(!begins_block(ls[i]));
        lemma_first_begin_at(ls, i + 1, e, b);
    }
}

proof fn lemma_first_end_at(ls: Seq<Seq<char>>, i: int, e: int, f: int)
    requires
        0 <= i <= f <= e,
        f < ls.len(),
        forall|k: int| i <= k < f ==> !ends_block(#[trigger] ls[k]),
        ends_block(ls[f]),
    ensures
        first_end(ls, i, e) == f,
    decreases f - i,
{
    if i < f {
        assert(!ends_block(ls[i]));
        lemma_first_end_at(ls, i + 1, e, f);
    }
}

proof fn lemma_first_rule_at(ls: Seq<Seq<char>>, i: int, e: int, w: Seq<char>, k: int)
    requires
        0 <= i <= k < e,
        k < ls.len(),
        forall|m: int| i <= m < k ==> normal(code(#[trigger] ls[m])) != w,
        normal(code(ls[k])) == w,
    ensures
        first_rule(ls, i, e, w) == k,
    decreases k - i,
{
    if i < k {
        assert(normal(code(ls[i])) != w);
        lemma_first_rule_at(ls, i + 1, e, w, k);
    }
}

/// The final newline the edited file keeps, if the file had one.
pub open spec fn final_newline(text: Seq<char>) -> Seq<char> {
    if ends_with(text, "\n"@) {
        "\n"@
    } else {
        Seq::<char>::empty()
    }
}

/// The edited lines, with the lines of the original moved but not changed,
/// read back out of the edited file: as they were, but for carriage returns
/// at the ends of lines.
proof fn lemma_edited_lines_read_back(text: Seq<char>, t: Seq<Seq<char>>, j: int, m: Seq<Seq<char>>)
    requires
        0 <= j < lines(text).len(),
        t == splice(lines(text), j, m),
        forall|k: int| 0 <= k < m.len() ==> one_line(#[trigger] m[k]),
    ensures
        lines(joined(t, "\n"@) + final_newline(text)) == read_back(t, final_newline(text)),
        read_alike(read_back(t, final_newline(text)), t),
{
    reveal_strlit("\n");
    let ls = lines(text);
    lemma_lines_shape(text, 0);
    lemma_splice_index(ls, j, m);
    let n = ls.len() as int;
    assert forall|i: int| 0 <= i < t.len() implies one_line(#[trigger] t[i]) by {
        if i < j {
            assert(t[i] == ls[i]);
        } else if i < j + m.len() {
            assert(t[j + (i - j)] == m[i - j]);
        } else {
            assert(t[(i - m.len()) + m.len()] == ls[i - m.len()]);
        }
    }
    assert(t.last() == ls.last()) by {
        assert(t[(n - 1) + m.len()] == ls[n - 1]);
    }
    lemma_lines_of_joined(t, final_newline(text));
    let r = read_back(t, final_newline(text));
    assert forall|i: int| 0 <= i < r.len() implies same_reading(#[trigger] r[i], t[i]) by {
        lemma_cr_reads_the_same(t[i]);
    }
}

/// Two lists of lines that read alike, line by line.
pub open spec fn read_alike(a: Seq<Seq<char>>, b: Seq<Seq<char>>) -> bool {
    &&& a.len() == b.len()
    &&& forall|i: int| 0 <= i < a.len() ==> same_reading(#[trigger] a[i], b[i])
}

proof fn lemma_alike_opening(a: Seq<Seq<char>>, b: Seq<Seq<char>>, i: int)
    requires
        read_alike(a, b),
        0 <= i,
    ensures
        first_opening(a, i) == first_opening(b, i),
    decreases a.len() - i,
{
    if i < a.len() {
        assert(same_reading(a[i], b[i]));
        lemma_alike_opening(a, b, i + 1);
    }
}

proof fn lemma_alike_close(a: Seq<Seq<char>>, b: Seq<Seq<char>>, i: int, d: nat)
    requires
        read_alike(a, b),
        0 <= i,
    ensures
        close_from(a, i, d) == close_from(b, i, d),
    decreases a.len() - i,
{
    if i < a.len() {
        assert(same_reading(a[i], b[i]));
        assert(depth_after(d, a[i]) == depth_after(d, b[i]));
        lemma_alike_close(a, b, i + 1, depth_after(d, a[i]));
    }
}

proof fn lemma_alike_rule(a: Seq<Seq<char>>, b: Seq<Seq<char>>, i: int, e: int, w: Seq<char>)
    requires
        read_alike(a, b),
        0 <= i,
    ensures
        first_rule(a, i, e, w) == first_rule(b, i, e, w),
    decreases e - i,
{
    if i < e && i < a.len() {
        assert(same_reading(a[i], b[i]));
        lemma_alike_rule(a, b, i + 1, e, w);
    }
}

proof fn lemma_alike_begin(a: Seq<Seq<char>>, b: Seq<Seq<char>>, i: int, e: int)
    requires
        read_alike(a, b),
        0 <= i,
    ensures
        first_begin(a, i, e) == first_begin(b, i, e),
    decreases e + 1 - i,
{
    if i <= e && i < a.len() {
        assert(same_reading(a[i], b[i]));
        lemma_alike_begin(a, b, i + 1, e);
    }
}

proof fn lemma_alike_end(a: Seq<Seq<char>>, b: Seq<Seq<char>>, i: int, e: int)
    requires
        read_alike(a, b),
        0 <= i,
    ensures
        first_end(a, i, e) == first_end(b, i, e),
    decreases e + 1 - i,
{
    if i <= e && i < a.len() {
        assert(same_reading(a[i], b[i]));
        lemma_alike_end(a, b, i + 1, e);
    }
}

/// Lines that read alike give the same chain, the same first rule and the
/// same block.
proof fn lemma_alike_decisions(a: Seq<Seq<char>>, b: Seq<Seq<char>>, s: int, e: int, w: Seq<char>)
    requires
        read_alike(a, b),
        0 <= s <= e,
    ensures
        span_of(a) == span_of(b),
        first_rule(a, s + 1, e, w) == first_rule(b, s + 1, e, w),
        block_in(a, s, e) == block_in(b, s, e),
{
    lemma_alike_opening(a, b, 0);
    crate::firewall::lemma_first_opening_bounds(a, 0);
    let st = first_opening(a, 0);
    if st < a.len() {
        lemma_alike_close(a, b, st + 1, 1);
    }
    lemma_alike_rule(a, b, s + 1, e, w);
    lemma_alike_begin(a, b, s, e);
    let bb = first_begin(a, s, e);
    if bb >= 0 {
        lemma_alike_end(a, b, bb, e);
    }
}

/// `allow 22` twice is as uneventful as it sounds: the file the first
/// `allow` writes holds the rule inside the block `allow` owns, so the second
/// finds it already managed.
pub proof fn lemma_allow_twice_is_uneventful(
    text: Seq<char>,
    p: PortSpec,
    first: Result<AllowOutcome, String>,
    second: Result<AllowOutcome, String>,
)
    requires
        allow_says(text, p, first),
        first matches Ok(AllowOutcome::Added(t)) && allow_says(t@, p, second),
    ensures
        second matches Ok(AllowOutcome::AlreadyManaged),
{
    reveal_strlit("# BEGIN raven-firewall");
    reveal_strlit("# END raven-firewall");
    let ls = lines(text);
    let w = rule_text(p);
    let t = match first {
        Ok(AllowOutcome::Added(t)) => t@,
        _ => Seq::<char>::empty(),
    };
    let (s, e) = match span_of(ls) {
        Some(span) => span,
        None => (0, 0),
    };
    assert(span_of(ls) == Some((s, e)));
    crate::firewall::lemma_first_opening_bounds(ls, 0);
    crate::firewall::lemma_close_from_bounds(ls, s + 1, 1);
    assert(0 <= s < e < ls.len());
    assert(first_rule(ls, s + 1, e, w) >= e);
    lemma_first_rule_bound(ls, s + 1, e, w);
    lemma_first_rule_none(ls, s + 1, e, w);
    assert(t == edited_text(text, s, e, p));
    lemma_lines_shape(text, 0);
    let indent = indent_of(ls, s, e);
    lemma_indent_of(ls, s, e);
    lemma_rule_line(p, indent);
    let r = indent + w;
    assert(opens_input(ls[s]));
    lemma_closing_line_has_brace(ls, s + 1, 1, e);
    lemma_first_begin_facts(ls, s, e);
    match block_in(ls, s, e) {
        Some((b, last)) => {
            lemma_first_end_facts(ls, b, e);
            if b == s {
                lemma_marker_line(ls[s]);
                lemma_hash_line(ls[s]);
            }
            if b == last {
                assert(trim(ls[b]).subrange(0, BEGIN_MARKER@.len() as int)[2] == trim(ls[b])[2]);
                assert(trim(ls[b]).subrange(0, END_MARKER@.len() as int)[2] == trim(ls[b])[2]);
            }
            assert(s < b < last <= e);
            let m = seq![r];
            let t2 = splice(ls, last, m);
            assert(edited_lines(ls, s, e, p) =~= t2);
            lemma_splice_index(ls, last, m);
            assert(t2[last] == r) by {
                assert(t2[last + 0] == m[0]);
            }
            lemma_edited_lines_read_back(text, t2, last, m);
            let rb = read_back(t2, final_newline(text));
            assert(lines(t) == rb);
            lemma_alike_decisions(rb, t2, s, e + 1, w);
            lemma_first_opening_prefix(ls, t2, 0, s);
            lemma_close_from_splice(ls, last, m, s + 1, 1, e);
            assert(span_of(t2) == Some((s, e + 1)));
            lemma_first_rule_at(t2, s + 1, e + 1, w, last);
            lemma_first_begin_at(t2, s, e + 1, b);
            assert(t2[last + 1] == ls[last]);
            lemma_first_end_at(t2, b, e + 1, last + 1);
            assert(block_in(t2, s, e + 1) == Some((b, last + 1)));
            assert(inside(block_in(t2, s, e + 1), last));
        },
        None => {
            let m = fresh_block(indent, p);
            lemma_fresh_block(indent, p);
            let t2 = splice(ls, e, m);
            assert(edited_lines(ls, s, e, p) =~= t2);
            lemma_splice_index(ls, e, m);
            lemma_edited_lines_read_back(text, t2, e, m);
            let rb = read_back(t2, final_newline(text));
            assert(lines(t) == rb);
            lemma_alike_decisions(rb, t2, s, e + 6, w);
            lemma_first_opening_prefix(ls, t2, 0, s);
            lemma_close_from_splice(ls, e, m, s + 1, 1, e);
            assert(span_of(t2) == Some((s, e + 6)));
            assert forall|k: int| e <= k < e + 4 implies normal(code(#[trigger] t2[k])) != w by {
                assert(t2[e + (k - e)] == m[k - e]);
            }
            assert(t2[e + 4] == m[4]);
            lemma_first_rule_at(t2, s + 1, e + 6, w, e + 4);
            assert(t2[e + 5] == m[5]);
            assert forall|k: int| e <= k < e + 5 implies !ends_block(#[trigger] t2[k]) by {
                assert(t2[e + (k - e)] == m[k - e]);
            }
            let b0 = first_begin(ls, s, e);
            if b0 > e {
                assert(t2[e] == m[0]);
                lemma_first_begin_at(t2, s, e + 6, e);
                lemma_first_end_at(t2, e, e + 6, e + 5);
                assert(block_in(t2, s, e + 6) == Some((e, e + 5)));
            } else {
                lemma_first_end_facts(ls, b0, e);
                if b0 == e {
                    lemma_marker_line(ls[e]);
                    lemma_hash_line(ls[e]);
                }
                assert(b0 < e);
                lemma_first_begin_at(t2, s, e + 6, b0);
                lemma_first_end_at(t2, b0, e + 6, e + 5);
                assert(block_in(t2, s, e + 6) == Some((b0, e + 5)));
            }
            assert(inside(block_in(t2, s, e + 6), e + 4));
        },
    }
}

proof fn lemma_first_rule_bound(ls: Seq<Seq<char>>, i: int, e: int, w: Seq<char>)
    requires
        0 <= i <= e,
    ensures
        i <= first_rule(ls, i, e, w) <= e,
    decreases e - i,
{
    if i < e && i < ls.len() && normal(code(ls[i])) != w {
        lemma_first_rule_bound(ls, i + 1, e, w);
    }
}

/// `lead` on a text without its last character, which is blank.
proof fn lemma_lead_drop_ws(c: Seq<char>, i: int)
    requires
        c.len() > 0,
        is_ws(c.last()),
        0 <= i <= c.len() - 1,
    ensures
        lead(c.drop_last(), i) == if lead(c, i) >= c.len() - 1 {
            c.len() - 1
        } else {
            lead(c, i)
        },
    decreases c.len() - i,
{
    let d = c.drop_last();
    if i < d.len() {
        assert(d[i] == c[i]);
        if is_ws(c[i]) {
            lemma_lead_drop_ws(c, i + 1);
        }
    } else {
        assert(c[i] == c.last());
        lemma_lead_bounds(c, i + 1);
    }
}

/// `ws_from` on a text without its last character, which is blank.
proof fn lemma_ws_from_drop_ws(c: Seq<char>, a: int)
    requires
        c.len() > 0,
        is_ws(c.last()),
        0 <= a <= c.len() - 1,
    ensures
        ws_from(c.drop_last(), a) == ws_from(c, a),
        ws_from(c, a) <= c.len() - 1,
    decreases c.len() - a,
{
    let d = c.drop_last();
    if a < d.len() {
        assert(d[a] == c[a]);
        if !is_ws(c[a]) {
            lemma_ws_from_drop_ws(c, a + 1);
        }
    } else {
        assert(c[a] == c.last());
    }
}

/// A blank last character adds no token.
proof fn lemma_tokens_drop_ws(c: Seq<char>, i: int)
    requires
        c.len() > 0,
        is_ws(c.last()),
        0 <= i <= c.len() - 1,
    ensures
        tokens_from(c.drop_last(), i) == tokens_from(c, i),
    decreases c.len() - i,
{
    let d = c.drop_last();
    lemma_lead_drop_ws(c, i);
    lemma_lead_bounds(c, i);
    if i < d.len() {
        let a = lead(c, i);
        if a < c.len() - 1 {
            lemma_ws_from_drop_ws(c, a);
            lemma_ws_from_bounds(c, a);
            let b = ws_from(c, a);
            assert(d.subrange(a, b) =~= c.subrange(a, b));
            lemma_tokens_drop_ws(c, b);
        } else {
            if a < c.len() {
                assert(c[a] == c.last());
            }
        }
    } else {
        assert(c[i] == c.last());
        lemma_lead_bounds(c, i + 1);
    }
}

proof fn lemma_trail_agree(c: Seq<char>, d: Seq<char>, lo: int, j: int)
    requires
        0 <= lo <= j <= d.len() <= c.len(),
        forall|k: int| 0 <= k < d.len() ==> d[k] == c[k],
    ensures
        trail(d, lo, j) == trail(c, lo, j),
    decreases j - lo,
{
    if lo < j {
        assert(d[j - 1] == c[j - 1]);
        if is_ws(c[j - 1]) {
            lemma_trail_agree(c, d, lo, j - 1);
        }
    }
}

/// A blank last character is trimmed away.
proof fn lemma_trim_drop_ws(c: Seq<char>)
    requires
        c.len() > 0,
        is_ws(c.last()),
    ensures
        trim(c.drop_last()) == trim(c),
{
    let d = c.drop_last();
    lemma_lead_drop_ws(c, 0);
    lemma_lead_bounds(c, 0);
    let a = lead(c, 0);
    if a >= c.len() - 1 {
        lemma_trail_bounds(c, a, c.len() as int);
        lemma_trail_bounds(d, d.len() as int, d.len() as int);
        if a == c.len() - 1 {
            assert(c[a] == c.last());
        }
    } else {
        assert(trail(c, a, c.len() as int) == trail(c, a, c.len() - 1)) by {
            assert(c[c.len() - 1] == c.last());
        }
        lemma_trail_agree(c, d, a, d.len() as int);
        lemma_trail_bounds(d, a, d.len() as int);
        lemma_trail_bounds(c, a, c.len() as int);
        assert(d.subrange(a, trail(d, a, d.len() as int)) =~= c.subrange(a, trail(c, a, c.len() as int)));
    }
}

/// How a line is read by `allow` and the chain walk: whether it opens the
/// input chain, its braces, whether it is a marker of the block, and its
/// rule, if any.
pub open spec fn same_reading(x: Seq<char>, y: Seq<char>) -> bool {
    &&& opens_input(x) == opens_input(y)
    &&& count_char(code(x), '{') == count_char(code(y), '{')
    &&& count_char(code(x), '}') == count_char(code(y), '}')
    &&& begins_block(x) == begins_block(y)
    &&& ends_block(x) == ends_block(y)
    &&& normal(code(x)) == normal(code(y))
}

/// A carriage return at the end of a line changes nothing about how it is
/// read.
pub proof fn lemma_cr_reads_the_same(x: Seq<char>)
    ensures
        same_reading(x, strip_cr(x)),
{
    if x.len() > 0 && x.last() == '\r' {
        let d = x.drop_last();
        assert(is_ws(x.last()));
        lemma_trim_drop_ws(x);
        lemma_find_from_bounds(x, '#', 0);
        lemma_find_from_bounds(d, '#', 0);
        let f = find_from(x, '#', 0);
        let g = find_from(d, '#', 0);
        assert(x[x.len() - 1] == '\r');
        if f < x.len() {
            assert(f < d.len());
            assert(d[f] == x[f]);
            if g < f {
                assert(d[g] == x[g]);
            }
            assert(g == f);
            assert(code(d) =~= code(x));
        } else {
            if g < d.len() {
                assert(d[g] == x[g]);
            }
            assert(g == d.len());
            assert(code(x) =~= x);
            assert(code(d) =~= d);
            assert(count_char(code(x), '{') == count_char(code(d), '{'));
            assert(count_char(code(x), '}') == count_char(code(d), '}'));
            lemma_tokens_drop_ws(x, 0);
            assert(tokens(code(d)) == tokens(code(x)));
        }
    }
}


/// The last character of lines joined with newlines is that of the last
/// line, when it has one.
proof fn lemma_joined_last(parts: Seq<Seq<char>>)
    requires
        parts.len() >= 1,
        parts.last().len() > 0,
    ensures
        joined(parts, "\n"@).len() > 0,
        joined(parts, "\n"@).last() == parts.last().last(),
{
    if parts.len() > 1 {
        let a = joined(parts.drop_last(), "\n"@) + "\n"@;
        assert((a + parts.last()).last() == parts.last().last());
    }
}

/// What `allow` writes is the file it was given with its own lines put in
/// at one place in the input chain, and nothing else changed; all it adds
/// lies between the markers of the block it owns. Where the chain has such a
/// block, the one added line is the rule, just above that block's END
/// marker; where it has none, the added lines are one run from a BEGIN
/// marker to an END marker, just before the chain's closing brace. Taking
/// the added lines out gives the file's lines back, and the file ends with a
/// newline exactly when the one it was given did. (A line that still ends in
/// a carriage return once `str::lines` has read it would lose that too, as
/// the file is written back with plain newlines: such files are left out.)
pub proof fn lemma_allow_adds_only_its_lines(text: Seq<char>, p: PortSpec, r: Result<AllowOutcome, String>)
    requires
        allow_says(text, p, r),
        r matches Ok(AllowOutcome::Added(_)),
        forall|i: int| 0 <= i < lines(text).len() ==> !ends_cr(#[trigger] lines(text)[i]),
    ensures
        r matches Ok(AllowOutcome::Added(u)) && span_of(lines(text)) matches Some((s, e)) && {
            let ls = lines(text);
            let lu = lines(u@);
            let rule = indent_of(ls, s, e) + rule_text(p);
            &&& ends_with(u@, "\n"@) == ends_with(text, "\n"@)
            &&& match block_in(ls, s, e) {
                Some((b, last)) => {
                    &&& s <= b < last <= e
                    &&& lu == ls.insert(last, rule)
                    &&& lu.remove(last) == ls
                    &&& begins_block(lu[b])
                    &&& ends_block(lu[last + 1])
                },
                None => {
                    &&& lu == ls.subrange(0, e) + marker_lines(indent_of(ls, s, e), rule_text(p)) + ls.subrange(
                        e,
                        ls.len() as int,
                    )
                    &&& lu.subrange(0, e) + lu.subrange(e + 6, lu.len() as int) == ls
                    &&& begins_block(lu[e])
                    &&& lu[e + 4] == rule
                    &&& ends_block(lu[e + 5])
                    &&& forall|k: int| e < k < e + 5 ==> !begins_block(#[trigger] lu[k]) && !ends_block(lu[k])
                },
            }
        },
{
    reveal_strlit("\n");
    let ls = lines(text);
    let w = rule_text(p);
    let u = match r {
        Ok(AllowOutcome::Added(t)) => t@,
        _ => Seq::<char>::empty(),
    };
    let (s, e) = match span_of(ls) {
        Some(span) => span,
        None => (0, 0),
    };
    assert(span_of(ls) == Some((s, e)));
    crate::firewall::lemma_first_opening_bounds(ls, 0);
    crate::firewall::lemma_close_from_bounds(ls, s + 1, 1);
    assert(0 <= s < e < ls.len());
    assert(u == edited_text(text, s, e, p));
    lemma_lines_shape(text, 0);
    let indent = indent_of(ls, s, e);
    lemma_indent_of(ls, s, e);
    lemma_rule_line(p, indent);
    lemma_rule_chars(p);
    let t2 = edited_lines(ls, s, e, p);
    let fnl = final_newline(text);
    match block_in(ls, s, e) {
        Some((b, last)) => {
            lemma_first_begin_facts(ls, s, e);
            lemma_first_end_facts(ls, b, e);
            if b == last {
                reveal_strlit("# BEGIN raven-firewall");
                reveal_strlit("# END raven-firewall");
                assert(trim(ls[b]).subrange(0, BEGIN_MARKER@.len() as int)[2] == trim(ls[b])[2]);
                assert(trim(ls[b]).subrange(0, END_MARKER@.len() as int)[2] == trim(ls[b])[2]);
            }
            let m = seq![indent + w];
            assert(t2 =~= splice(ls, last, m));
            lemma_splice_index(ls, last, m);
            assert forall|k: int| 0 <= k < m.len() implies one_line(#[trigger] m[k]) by {}
            lemma_edited_lines_read_back(text, t2, last, m);
            assert((indent + w).last() == w.last());
            assert forall|i: int| 0 <= i < t2.len() implies !ends_cr(#[trigger] t2[i]) by {
                if i < last {
                    assert(t2[i] == ls[i]);
                } else if i > last {
                    assert(t2[(i - 1) + 1] == ls[i - 1]);
                }
            }
            assert(read_back(t2, fnl) =~= t2);
            assert(t2 == ls.insert(last, indent + w));
            assert(t2.remove(last) =~= ls);
            assert(t2[b] == ls[b]);
            assert(t2[last + 1] == ls[last]);
            assert(t2.last() == ls.last()) by {
                assert(t2[(ls.len() - 1) + m.len()] == ls[ls.len() - 1]);
            }
        },
        None => {
            let m = fresh_block(indent, p);
            lemma_fresh_block(indent, p);
            assert(t2 =~= splice(ls, e, m));
            lemma_splice_index(ls, e, m);
            lemma_edited_lines_read_back(text, t2, e, m);
            assert forall|i: int| 0 <= i < t2.len() implies !ends_cr(#[trigger] t2[i]) by {
                if i < e {
                    assert(t2[i] == ls[i]);
                } else if i < e + 6 {
                    assert(t2[e + (i - e)] == m[i - e]);
                } else {
                    assert(t2[(i - 6) + 6] == ls[i - 6]);
                }
            }
            assert(read_back(t2, fnl) =~= t2);
            assert(t2.subrange(0, e) + t2.subrange(e + 6, t2.len() as int) =~= ls);
            assert(t2[e + 0] == m[0]);
            assert(t2[e + 4] == m[4]);
            assert(t2[e + 5] == m[5]);
            assert forall|k: int| e < k < e + 5 implies !begins_block(#[trigger] t2[k]) && !ends_block(t2[k]) by {
                assert(t2[e + (k - e)] == m[k - e]);
                lemma_fresh_block_interior(indent, p, k - e);
            }
            assert(t2.last() == ls.last()) by {
                assert(t2[(ls.len() - 1) + m.len()] == ls[ls.len() - 1]);
            }
        },
    }
    if ends_with(text, "\n"@) {
        assert(u == joined(t2, "\n"@) + "\n"@);
        assert(u.subrange(u.len() - 1, u.len() as int) =~= "\n"@);
    } else {
        assert(u == joined(t2, "\n"@) + Seq::<char>::empty());
        assert(u =~= joined(t2, "\n"@));
        lemma_joined_last(t2);
        assert(one_line(t2.last()));
        if ends_with(u, "\n"@) {
            assert(u.subrange(u.len() - 1, u.len() as int)[0] == u.last());
        }
    }
}

/// The inner lines of a fresh block neither open nor close a block.
proof fn lemma_fresh_block_interior(indent: Seq<char>, p: PortSpec, k: int)
    requires
        ws_only(indent),
        one_line(indent),
        0 < k < 5,
    ensures
        !begins_block(fresh_block(indent, p)[k]),
        !ends_block(fresh_block(indent, p)[k]),
{
    lemma_fresh_block(indent, p);
    reveal_strlit("# BEGIN raven-firewall");
    reveal_strlit("# Everything between these two markers is rewritten by that command;");
    reveal_strlit("# everything outside them is left exactly as you wrote it. Deleting a");
    reveal_strlit("# line here by hand is how a port gets closed again.");
    let m = fresh_block(indent, p);
    let bm: Seq<char> = BEGIN_MARKER@;
    let c1: Seq<char> = "# Everything between these two markers is rewritten by that command;"@;
    let c2: Seq<char> = "# everything outside them is left exactly as you wrote it. Deleting a"@;
    let c3: Seq<char> = "# line here by hand is how a port gets closed again."@;
    if k == 1 {
        lemma_comment_line(indent, c1);
        assert(c1.subrange(0, bm.len() as int)[2] == c1[2]);
    } else if k == 2 {
        lemma_comment_line(indent, c2);
        assert(c2.subrange(0, bm.len() as int)[2] == c2[2]);
    } else if k == 3 {
        lemma_comment_line(indent, c3);
        assert(c3.subrange(0, bm.len() as int)[2] == c3[2]);
    } else {
        lemma_rule_line(p, indent);
    }
}

} // verus!
