//! Character-level text handling shared by every parser in the crate.
//!
//! Text is read into a `Vec<char>` once and examined by index; the spec
//! functions here describe, over `Seq<char>`, what the standard library's
//! `trim`, `lines`, `split_whitespace` and friends compute.
use vstd::prelude::*;

verus! {

/// Unicode `White_Space`, the property `char::is_whitespace` tests.
pub open spec fn is_ws(c: char) -> bool {
    ||| (c as u32) >= 9 && (c as u32) <= 13
    ||| c == ' '
    ||| (c as u32) == 0x85
    ||| (c as u32) == 0xA0
    ||| (c as u32) == 0x1680
    ||| (c as u32) >= 0x2000 && (c as u32) <= 0x200A
    ||| (c as u32) == 0x2028
    ||| (c as u32) == 0x2029
    ||| (c as u32) == 0x202F
    ||| (c as u32) == 0x205F
    ||| (c as u32) == 0x3000
}

pub open spec fn is_digit(c: char) -> bool {
    '0' <= c && c <= '9'
}

/// `char::to_ascii_lowercase`.
pub open spec fn lower(c: char) -> char {
    if 'A' <= c && c <= 'Z' {
        ((c as u32) + 32) as char
    } else {
        c
    }
}

pub open spec fn lower_all(s: Seq<char>) -> Seq<char> {
    s.map_values(|c: char| lower(c))
}

/// The first index at or after `i` that does not hold whitespace.
pub open spec fn lead(s: Seq<char>, i: int) -> int
    decreases s.len() - i,
{
    if 0 <= i < s.len() && is_ws(s[i]) {
        lead(s, i + 1)
    } else {
        i
    }
}

/// Walking back from `j`, no further than `lo`, past trailing whitespace.
pub open spec fn trail(s: Seq<char>, lo: int, j: int) -> int
    decreases j - lo,
{
    if lo < j && j <= s.len() && is_ws(s[j - 1]) {
        trail(s, lo, j - 1)
    } else {
        j
    }
}

/// `str::trim`.
pub open spec fn trim(s: Seq<char>) -> Seq<char> {
    s.subrange(lead(s, 0), trail(s, lead(s, 0), s.len() as int))
}

/// `str::trim_start`.
pub open spec fn trim_start(s: Seq<char>) -> Seq<char> {
    s.subrange(lead(s, 0), s.len() as int)
}

/// `str::trim_end`.
pub open spec fn trim_end(s: Seq<char>) -> Seq<char> {
    s.subrange(0, trail(s, 0, s.len() as int))
}

pub proof fn lemma_lead_bounds(s: Seq<char>, i: int)
    requires
        0 <= i <= s.len(),
    ensures
        i <= lead(s, i) <= s.len(),
        forall|k: int| i <= k < lead(s, i) ==> is_ws(#[trigger] s[k]),
        lead(s, i) < s.len() ==> !is_ws(s[lead(s, i)]),
    decreases s.len() - i,
{
    if i < s.len() && is_ws(s[i]) {
        lemma_lead_bounds(s, i + 1);
    }
}

pub proof fn lemma_trail_bounds(s: Seq<char>, lo: int, j: int)
    requires
        0 <= lo <= j <= s.len(),
    ensures
        lo <= trail(s, lo, j) <= j,
        forall|k: int| trail(s, lo, j) <= k < j ==> is_ws(#[trigger] s[k]),
        trail(s, lo, j) > lo ==> !is_ws(s[trail(s, lo, j) - 1]),
    decreases j - lo,
{
    if lo < j && is_ws(s[j - 1]) {
        lemma_trail_bounds(s, lo, j - 1);
    }
}

/// Whitespace from `i` up to `j`, and none at `j`: the run ends there.
pub proof fn lemma_lead_to(s: Seq<char>, i: int, j: int)
    requires
        0 <= i <= j <= s.len(),
        forall|k: int| i <= k < j ==> is_ws(#[trigger] s[k]),
        j == s.len() || !is_ws(s[j]),
    ensures
        lead(s, i) == j,
    decreases j - i,
{
    if i < j {
        lemma_lead_to(s, i + 1, j);
    }
}

/// Whitespace from `k` up to `j`, and none just before `k`: walking back
/// from `j` stops at `k`.
pub proof fn lemma_trail_to(s: Seq<char>, lo: int, j: int, k: int)
    requires
        0 <= lo <= k <= j <= s.len(),
        forall|m: int| k <= m < j ==> is_ws(#[trigger] s[m]),
        k == lo || !is_ws(s[k - 1]),
    ensures
        trail(s, lo, j) == k,
    decreases j - k,
{
    if k < j {
        lemma_trail_to(s, lo, j - 1, k);
    }
}

/// Digits from `i` up to `j`, and none at `j`.
pub proof fn lemma_digits_to(s: Seq<char>, i: int, j: int)
    requires
        0 <= i <= j <= s.len(),
        forall|k: int| i <= k < j ==> is_digit(#[trigger] s[k]),
        j == s.len() || !is_digit(s[j]),
    ensures
        digits_end(s, i) == j,
    decreases j - i,
{
    if i < j {
        lemma_digits_to(s, i + 1, j);
    }
}

/// The characters of `s`, in order.
pub fn chars_of(s: &str) -> (out: Vec<char>)
    ensures
        out@ == s@,
{
    let mut out: Vec<char> = Vec::new();
    for c in it: s.chars()
        invariant
            out@ == it.seq().take(it.index() as int),
            it.seq() == s@,
    {
        out.push(c);
    }
    out
}

/// `String::push`.
#[verifier::external_body]
pub(crate) fn push_char(s: &mut String, c: char)
    ensures
        final(s)@ == old(s)@.push(c),
{
    s.push(c);
}

/// A `String` holding `v[lo..hi]`.
pub fn string_of(v: &Vec<char>, lo: usize, hi: usize) -> (out: String)
    requires
        lo <= hi <= v.len(),
    ensures
        out@ == v@.subrange(lo as int, hi as int),
{
    let mut out = String::new();
    let mut i = lo;
    while i < hi
        invariant
            lo <= i <= hi <= v.len(),
            out@ == v@.subrange(lo as int, i as int),
        decreases hi - i,
    {
        push_char(&mut out, v[i]);
        assert(v@.subrange(lo as int, i + 1) == v@.subrange(lo as int, i as int).push(v@[i as int]));
        i += 1;
    }
    out
}

/// `v[lo..hi]` as a vector of its own.
pub fn slice_of(v: &Vec<char>, lo: usize, hi: usize) -> (out: Vec<char>)
    requires
        lo <= hi <= v.len(),
    ensures
        out@ == v@.subrange(lo as int, hi as int),
{
    let mut out: Vec<char> = Vec::new();
    let mut i = lo;
    while i < hi
        invariant
            lo <= i <= hi <= v.len(),
            out@ == v@.subrange(lo as int, i as int),
        decreases hi - i,
    {
        out.push(v[i]);
        assert(v@.subrange(lo as int, i + 1) == v@.subrange(lo as int, i as int).push(v@[i as int]));
        i += 1;
    }
    out
}

pub fn is_ws_char(c: char) -> (b: bool)
    ensures
        b == is_ws(c),
{
    let n = c as u32;
    (n >= 9 && n <= 13) || c == ' ' || n == 0x85 || n == 0xA0 || n == 0x1680 || (n >= 0x2000
        && n <= 0x200A) || n == 0x2028 || n == 0x2029 || n == 0x202F || n == 0x205F || n == 0x3000
}

/// The first non-whitespace index at or after `i`.
pub fn skip_ws(v: &Vec<char>, i: usize) -> (k: usize)
    requires
        i <= v.len(),
    ensures
        k == lead(v@, i as int),
{
    let mut k = i;
    while k < v.len() && is_ws_char(v[k])
        invariant
            i <= k <= v.len(),
            lead(v@, k as int) == lead(v@, i as int),
        decreases v.len() - k,
    {
        k += 1;
    }
    k
}

/// Where trailing whitespace before `j` begins, looking no further back than `lo`.
pub fn back_ws(v: &Vec<char>, lo: usize, j: usize) -> (k: usize)
    requires
        lo <= j <= v.len(),
    ensures
        k == trail(v@, lo as int, j as int),
{
    let mut k = j;
    while k > lo && is_ws_char(v[k - 1])
        invariant
            lo <= k <= j <= v.len(),
            trail(v@, lo as int, k as int) == trail(v@, lo as int, j as int),
        decreases k - lo,
    {
        k -= 1;
    }
    k
}

/// `str::trim` on characters.
pub fn trimmed(v: &Vec<char>) -> (out: Vec<char>)
    ensures
        out@ == trim(v@),
{
    let a = skip_ws(v, 0);
    proof {
        lemma_lead_bounds(v@, 0);
    }
    let b = back_ws(v, a, v.len());
    proof {
        lemma_trail_bounds(v@, a as int, v.len() as int);
    }
    slice_of(v, a, b)
}

/// Whether two character sequences are the same.
pub fn same(a: &Vec<char>, b: &Vec<char>) -> (r: bool)
    ensures
        r == (a@ == b@),
{
    if a.len() != b.len() {
        return false;
    }
    let mut i: usize = 0;
    while i < a.len()
        invariant
            a.len() == b.len(),
            i <= a.len(),
            forall|k: int| 0 <= k < i ==> a@[k] == b@[k],
        decreases a.len() - i,
    {
        if a[i] != b[i] {
            return false;
        }
        i += 1;
    }
    assert(a@ =~= b@);
    true
}

/// Whether `v` spells out the literal `word`.
pub fn is_word(v: &Vec<char>, word: &str) -> (r: bool)
    ensures
        r == (v@ == word@),
{
    let w = chars_of(word);
    same(v, &w)
}

/// `to_ascii_lowercase` on characters.
pub fn lowered(v: &Vec<char>) -> (out: Vec<char>)
    ensures
        out@ == lower_all(v@),
{
    let mut out: Vec<char> = Vec::new();
    let mut i: usize = 0;
    while i < v.len()
        invariant
            i <= v.len(),
            out@ == lower_all(v@.subrange(0, i as int)),
        decreases v.len() - i,
    {
        let c = v[i];
        let l = if 'A' <= c && c <= 'Z' {
            let n: u8 = (c as u8) + 32;
            n as char
        } else {
            c
        };
        out.push(l);
        assert(lower_all(v@.subrange(0, i + 1)) =~= lower_all(v@.subrange(0, i as int)).push(lower(v@[i as int])));
        i += 1;
    }
    assert(v@.subrange(0, v.len() as int) =~= v@);
    out
}


pub open spec fn digit_value(c: char) -> nat {
    ((c as u32) - ('0' as u32)) as nat
}

/// The number a run of decimal digits spells.
pub open spec fn decimal(s: Seq<char>) -> nat
    decreases s.len(),
{
    if s.len() == 0 {
        0
    } else {
        decimal(s.drop_last()) * 10 + digit_value(s.last())
    }
}

/// The first index at or after `i` that does not hold an ASCII digit.
pub open spec fn digits_end(s: Seq<char>, i: int) -> int
    decreases s.len() - i,
{
    if 0 <= i < s.len() && is_digit(s[i]) {
        digits_end(s, i + 1)
    } else {
        i
    }
}

pub proof fn lemma_digits_end_bounds(s: Seq<char>, i: int)
    requires
        0 <= i <= s.len(),
    ensures
        i <= digits_end(s, i) <= s.len(),
        forall|k: int| i <= k < digits_end(s, i) ==> is_digit(#[trigger] s[k]),
        digits_end(s, i) < s.len() ==> !is_digit(s[digits_end(s, i)]),
    decreases s.len() - i,
{
    if i < s.len() && is_digit(s[i]) {
        lemma_digits_end_bounds(s, i + 1);
    }
}

/// Appending digits never makes a number smaller.
pub proof fn lemma_decimal_prefix(s: Seq<char>, i: int)
    requires
        0 <= i <= s.len(),
    ensures
        decimal(s.subrange(0, i)) <= decimal(s),
    decreases s.len() - i,
{
    if i < s.len() {
        lemma_decimal_prefix(s, i + 1);
        assert(s.subrange(0, i + 1).drop_last() =~= s.subrange(0, i));
    } else {
        assert(s.subrange(0, i) =~= s);
    }
}

/// The first index at or after `i` holding `c`.
pub open spec fn find_from(s: Seq<char>, c: char, i: int) -> int
    decreases s.len() - i,
{
    if 0 <= i < s.len() && s[i] != c {
        find_from(s, c, i + 1)
    } else {
        i
    }
}

pub proof fn lemma_find_from_bounds(s: Seq<char>, c: char, i: int)
    requires
        0 <= i <= s.len(),
    ensures
        i <= find_from(s, c, i) <= s.len(),
        forall|k: int| i <= k < find_from(s, c, i) ==> #[trigger] s[k] != c,
        find_from(s, c, i) < s.len() ==> s[find_from(s, c, i)] == c,
    decreases s.len() - i,
{
    if i < s.len() && s[i] != c {
        lemma_find_from_bounds(s, c, i + 1);
    }
}

/// The first index at or after `i` holding `c`, or the length.
pub fn find_char(v: &Vec<char>, c: char, i: usize) -> (k: usize)
    requires
        i <= v.len(),
    ensures
        k == find_from(v@, c, i as int),
{
    let mut k = i;
    while k < v.len() && v[k] != c
        invariant
            i <= k <= v.len(),
            find_from(v@, c, k as int) == find_from(v@, c, i as int),
        decreases v.len() - k,
    {
        k += 1;
    }
    k
}

/// The first index at or after `i` that is not an ASCII digit.
pub fn skip_digits(v: &Vec<char>, i: usize) -> (k: usize)
    requires
        i <= v.len(),
    ensures
        k == digits_end(v@, i as int),
{
    let mut k = i;
    while k < v.len() && '0' <= v[k] && v[k] <= '9'
        invariant
            i <= k <= v.len(),
            digits_end(v@, k as int) == digits_end(v@, i as int),
        decreases v.len() - k,
    {
        k += 1;
    }
    k
}

/// The value of the digits `v[lo..hi]`, or `None` when it does not fit in a `u64`.
pub fn decimal_value(v: &Vec<char>, lo: usize, hi: usize) -> (r: Option<u64>)
    requires
        lo <= hi <= v.len(),
        forall|k: int| lo <= k < hi ==> is_digit(#[trigger] v@[k]),
    ensures
        r == (if decimal(v@.subrange(lo as int, hi as int)) <= u64::MAX {
            Some(decimal(v@.subrange(lo as int, hi as int)) as u64)
        } else {
            None::<u64>
        }),
{
    let ghost s = v@.subrange(lo as int, hi as int);
    let mut acc: u64 = 0;
    let mut i = lo;
    while i < hi
        invariant
            lo <= i <= hi <= v.len(),
            s == v@.subrange(lo as int, hi as int),
            forall|k: int| lo <= k < hi ==> is_digit(#[trigger] v@[k]),
            acc == decimal(v@.subrange(lo as int, i as int)),
        decreases hi - i,
    {
        let d = v[i];
        assert(is_digit(v@[i as int]));
        let dv: u64 = ((d as u32) - ('0' as u32)) as u64;
        assert(v@.subrange(lo as int, i + 1).drop_last() =~= v@.subrange(lo as int, i as int));
        assert(s.subrange(0, (i + 1 - lo) as int) =~= v@.subrange(lo as int, i + 1));
        if acc > (u64::MAX - dv) / 10 {
            proof {
                lemma_decimal_prefix(s, (i + 1 - lo) as int);
                assert(decimal(v@.subrange(lo as int, i + 1)) == acc * 10 + dv);
                assert(acc * 10 + dv > u64::MAX) by (nonlinear_arith)
                    requires
                        acc > (u64::MAX - dv) / 10,
                        dv <= 9,
                ;
            }
            return None;
        }
        assert(acc * 10 + dv <= u64::MAX) by (nonlinear_arith)
            requires
                acc <= (u64::MAX - dv) / 10,
                dv <= 9,
        ;
        acc = acc * 10 + dv;
        i += 1;
    }
    Some(acc)
}


pub open spec fn all_digits(s: Seq<char>) -> bool {
    forall|k: int| 0 <= k < s.len() ==> is_digit(#[trigger] s[k])
}

/// `str::parse::<u64>`: an optional `+`, then one or more digits, within range.
pub open spec fn parse_u64(s: Seq<char>) -> Option<u64> {
    let body = if s.len() > 0 && s[0] == '+' {
        s.drop_first()
    } else {
        s
    };
    if body.len() == 0 || !all_digits(body) || decimal(body) > u64::MAX {
        None
    } else {
        Some(decimal(body) as u64)
    }
}

/// `str::parse::<u64>` on `v[lo..hi]`.
pub fn parse_u64_in(v: &Vec<char>, lo: usize, hi: usize) -> (r: Option<u64>)
    requires
        lo <= hi <= v.len(),
    ensures
        r == parse_u64(v@.subrange(lo as int, hi as int)),
{
    let ghost s = v@.subrange(lo as int, hi as int);
    let start = if lo < hi && v[lo] == '+' {
        lo + 1
    } else {
        lo
    };
    let ghost body = v@.subrange(start as int, hi as int);
    assert(body =~= (if s.len() > 0 && s[0] == '+' {
        s.drop_first()
    } else {
        s
    }));
    if start == hi {
        return None;
    }
    let end = skip_digits(v, start);
    proof {
        lemma_digits_end_bounds(v@, start as int);
    }
    if end < hi {
        assert(!is_digit(body[end - start]));
        return None;
    }
    let end = hi;
    assert(all_digits(body));
    decimal_value(v, start, end)
}

pub open spec fn digit_char(d: nat) -> char {
    (('0' as u32) + d) as char
}

/// How `Display` writes a non-negative integer.
pub open spec fn decimal_text(n: nat) -> Seq<char>
    decreases n,
{
    if n < 10 {
        seq![digit_char(n)]
    } else {
        decimal_text(n / 10).push(digit_char(n % 10))
    }
}

/// Append the decimal digits of `n`.
pub fn push_decimal(out: &mut String, n: u64)
    ensures
        final(out)@ == old(out)@ + decimal_text(n as nat),
    decreases n,
{
    if n >= 10 {
        push_decimal(out, n / 10);
    }
    let d: u8 = (n % 10) as u8;
    let c: char = (48u8 + d) as char;
    push_char(out, c);
    proof {
        if n >= 10 {
            assert(decimal_text(n as nat) == decimal_text((n / 10) as nat).push(digit_char((n % 10) as nat)));
        } else {
            assert(decimal_text(n as nat) == seq![digit_char(n as nat)]);
        }
    }
}

/// How `Display` writes a signed integer.
pub open spec fn signed_text(n: int) -> Seq<char> {
    if n < 0 {
        seq!['-'] + decimal_text((-n) as nat)
    } else {
        decimal_text(n as nat)
    }
}

/// Append `n` as `Display` writes it.
pub fn push_signed(out: &mut String, n: i64)
    ensures
        final(out)@ == old(out)@ + signed_text(n as int),
{
    if n < 0 {
        push_char(out, '-');
        let m: u64 = if n == i64::MIN {
            9223372036854775808u64
        } else {
            (-n) as u64
        };
        push_decimal(out, m);
        assert(old(out)@.push('-') + decimal_text(m as nat) =~= old(out)@ + (seq!['-'] + decimal_text(m as nat)));
    } else {
        push_decimal(out, n as u64);
    }
}

/// Append the literal `s`.
pub fn push_str(out: &mut String, s: &str)
    ensures
        final(out)@ == old(out)@ + s@,
{
    out.append(s);
}


/// `Path::join` of a relative component onto `base`.
pub open spec fn join(base: Seq<char>, part: Seq<char>) -> Seq<char> {
    if base.len() == 0 || base.last() == '/' {
        base + part
    } else {
        base + seq!['/'] + part
    }
}

/// `Path::join` of a relative component onto `base`.
pub fn join_path(base: &str, part: &str) -> (out: String)
    ensures
        out@ == join(base@, part@),
{
    let b = chars_of(base);
    let mut out = base.to_owned();
    if b.len() == 0 || b[b.len() - 1] == '/' {
        push_str(&mut out, part);
    } else {
        push_char(&mut out, '/');
        push_str(&mut out, part);
        assert(base@.push('/') + part@ =~= base@ + seq!['/'] + part@);
    }
    out
}

/// Whether `s` contains `c`.
pub fn contains_char(s: &str, c: char) -> (r: bool)
    ensures
        r == s@.contains(c),
{
    let v = chars_of(s);
    let k = find_char(&v, c, 0);
    proof {
        lemma_find_from_bounds(v@, c, 0);
        if k == v.len() {
            assert(forall|j: int| 0 <= j < v@.len() ==> v@[j] != c);
        } else {
            assert(v@[k as int] == c);
        }
    }
    k < v.len()
}


/// The first index at or after `i` that holds whitespace.
pub open spec fn ws_from(s: Seq<char>, i: int) -> int
    decreases s.len() - i,
{
    if 0 <= i < s.len() && !is_ws(s[i]) {
        ws_from(s, i + 1)
    } else {
        i
    }
}

pub proof fn lemma_ws_from_bounds(s: Seq<char>, i: int)
    requires
        0 <= i <= s.len(),
    ensures
        i <= ws_from(s, i) <= s.len(),
        forall|k: int| i <= k < ws_from(s, i) ==> !is_ws(#[trigger] s[k]),
        ws_from(s, i) < s.len() ==> is_ws(s[ws_from(s, i)]),
    decreases s.len() - i,
{
    if i < s.len() && !is_ws(s[i]) {
        lemma_ws_from_bounds(s, i + 1);
    }
}

/// `split_whitespace`, from index `i` on.
pub open spec fn tokens_from(s: Seq<char>, i: int) -> Seq<Seq<char>>
    decreases s.len() - i,
{
    if i < 0 || i >= s.len() {
        Seq::empty()
    } else {
        let a = lead(s, i);
        if a >= s.len() {
            Seq::empty()
        } else {
            let b = ws_from(s, a);
            proof {
                lemma_lead_bounds(s, i);
                lemma_ws_from_bounds(s, a);
            }
            seq![s.subrange(a, b)] + tokens_from(s, b)
        }
    }
}

/// `str::split_whitespace`.
pub open spec fn tokens(s: Seq<char>) -> Seq<Seq<char>> {
    tokens_from(s, 0)
}

pub open spec fn views(v: Seq<Vec<char>>) -> Seq<Seq<char>> {
    v.map_values(|t: Vec<char>| t@)
}

/// The first whitespace index at or after `i`.
pub fn find_ws(v: &Vec<char>, i: usize) -> (k: usize)
    requires
        i <= v.len(),
    ensures
        k == ws_from(v@, i as int),
{
    let mut k = i;
    while k < v.len() && !is_ws_char(v[k])
        invariant
            i <= k <= v.len(),
            ws_from(v@, k as int) == ws_from(v@, i as int),
        decreases v.len() - k,
    {
        k += 1;
    }
    k
}

/// `split_whitespace` on characters.
pub fn split_ws(v: &Vec<char>) -> (out: Vec<Vec<char>>)
    ensures
        views(out@) == tokens(v@),
{
    let mut out: Vec<Vec<char>> = Vec::new();
    let mut i: usize = 0;
    while i < v.len()
        invariant
            i <= v.len(),
            views(out@) + tokens_from(v@, i as int) == tokens(v@),
        decreases v.len() - i,
    {
        let a = skip_ws(v, i);
        proof {
            lemma_lead_bounds(v@, i as int);
        }
        if a >= v.len() {
            assert(tokens_from(v@, i as int) == Seq::<Seq<char>>::empty());
            assert(views(out@) + Seq::<Seq<char>>::empty() =~= views(out@));
            i = v.len();
        } else {
            let b = find_ws(v, a);
            proof {
                lemma_ws_from_bounds(v@, a as int);
            }
            let piece = slice_of(v, a, b);
            let ghost before = views(out@);
            out.push(piece);
            assert(views(out@) =~= before.push(piece@));
            assert(tokens_from(v@, i as int) == seq![v@.subrange(a as int, b as int)] + tokens_from(v@, b as int));
            assert(before + tokens_from(v@, i as int) =~= before.push(piece@) + tokens_from(v@, b as int));
            i = b;
        }
    }
    assert(tokens_from(v@, i as int) == Seq::<Seq<char>>::empty());
    assert(views(out@) + Seq::<Seq<char>>::empty() =~= views(out@));
    out
}

/// A line with the `\r` of a `\r\n` ending removed.
pub open spec fn strip_cr(l: Seq<char>) -> Seq<char> {
    if l.len() > 0 && l.last() == '\r' {
        l.drop_last()
    } else {
        l
    }
}

/// `str::lines`, from index `i` on.
pub open spec fn lines_from(s: Seq<char>, i: int) -> Seq<Seq<char>>
    decreases s.len() - i,
{
    if i < 0 || i >= s.len() {
        Seq::empty()
    } else {
        let k = find_from(s, '\n', i);
        proof {
            lemma_find_from_bounds(s, '\n', i);
        }
        if k >= s.len() {
            seq![s.subrange(i, s.len() as int)]
        } else {
            seq![strip_cr(s.subrange(i, k))] + lines_from(s, k + 1)
        }
    }
}

/// `str::lines`: split at `\n`, a `\r` before it dropped, no empty last line
/// for a final line ending.
pub open spec fn lines(s: Seq<char>) -> Seq<Seq<char>> {
    lines_from(s, 0)
}

/// `str::lines` on characters.
pub fn split_lines(v: &Vec<char>) -> (out: Vec<Vec<char>>)
    ensures
        views(out@) == lines(v@),
{
    let mut out: Vec<Vec<char>> = Vec::new();
    let mut i: usize = 0;
    while i < v.len()
        invariant
            i <= v.len(),
            views(out@) + lines_from(v@, i as int) == lines(v@),
        decreases v.len() - i,
    {
        let k = find_char(v, '\n', i);
        proof {
            lemma_find_from_bounds(v@, '\n', i as int);
        }
        let ghost before = views(out@);
        if k >= v.len() {
            let piece = slice_of(v, i, v.len());
            out.push(piece);
            assert(views(out@) =~= before.push(piece@));
            assert(lines_from(v@, v.len() as int) == Seq::<Seq<char>>::empty());
            assert(before + lines_from(v@, i as int) =~= views(out@) + lines_from(v@, v.len() as int));
            i = v.len();
        } else {
            let end = if k > i && v[k - 1] == '\r' {
                k - 1
            } else {
                k
            };
            let piece = slice_of(v, i, end);
            assert(piece@ =~= strip_cr(v@.subrange(i as int, k as int)));
            out.push(piece);
            assert(views(out@) =~= before.push(piece@));
            assert(before + lines_from(v@, i as int) =~= views(out@) + lines_from(v@, k + 1));
            i = k + 1;
        }
    }
    assert(lines_from(v@, i as int) == Seq::<Seq<char>>::empty());
    assert(views(out@) + Seq::<Seq<char>>::empty() =~= views(out@));
    out
}


/// Whether one of `toks` spells `word`.
pub fn has_token(toks: &Vec<Vec<char>>, word: &str) -> (r: bool)
    ensures
        r == views(toks@).contains(word@),
{
    let w = chars_of(word);
    let mut i: usize = 0;
    while i < toks.len()
        invariant
            i <= toks.len(),
            w@ == word@,
            forall|k: int| 0 <= k < i ==> (#[trigger] toks@[k])@ != word@,
        decreases toks.len() - i,
    {
        if same(&toks[i], &w) {
            assert(views(toks@)[i as int] == word@);
            return true;
        }
        i += 1;
    }
    proof {
        if views(toks@).contains(word@) {
            let k = choose|k: int| 0 <= k < views(toks@).len() && views(toks@)[k] == word@;
            assert(toks@[k]@ == word@);
        }
    }
    false
}

/// `str::trim` then `str::parse::<u64>`.
pub fn parse_trimmed_u64(text: &str) -> (r: Option<u64>)
    ensures
        r == parse_u64(trim(text@)),
{
    let v = chars_of(text);
    let t = trimmed(&v);
    assert(t@.subrange(0, t.len() as int) =~= t@);
    parse_u64_in(&t, 0, t.len())
}


pub open spec fn starts_with(s: Seq<char>, p: Seq<char>) -> bool {
    p.len() <= s.len() && s.subrange(0, p.len() as int) == p
}

pub open spec fn ends_with(s: Seq<char>, p: Seq<char>) -> bool {
    p.len() <= s.len() && s.subrange(s.len() - p.len(), s.len() as int) == p
}

/// Whether `v` begins with the literal `p`.
pub fn begins_with(v: &Vec<char>, p: &str) -> (r: bool)
    ensures
        r == starts_with(v@, p@),
{
    let w = chars_of(p);
    if w.len() > v.len() {
        return false;
    }
    let mut i: usize = 0;
    while i < w.len()
        invariant
            w@ == p@,
            w.len() <= v.len(),
            i <= w.len(),
            forall|k: int| 0 <= k < i ==> v@[k] == w@[k],
        decreases w.len() - i,
    {
        if v[i] != w[i] {
            assert(v@.subrange(0, w.len() as int)[i as int] != w@[i as int]);
            return false;
        }
        i += 1;
    }
    assert(v@.subrange(0, w.len() as int) =~= w@);
    true
}

/// Whether `v` finishes with the literal `p`.
pub fn finishes_with(v: &Vec<char>, p: &str) -> (r: bool)
    ensures
        r == ends_with(v@, p@),
{
    let w = chars_of(p);
    if w.len() > v.len() {
        return false;
    }
    let off = v.len() - w.len();
    let mut i: usize = 0;
    while i < w.len()
        invariant
            w@ == p@,
            w.len() <= v.len(),
            off == v.len() - w.len(),
            i <= w.len(),
            forall|k: int| 0 <= k < i ==> v@[off + k] == w@[k],
        decreases w.len() - i,
    {
        if v[off + i] != w[i] {
            assert(v@.subrange(off as int, v.len() as int)[i as int] != w@[i as int]);
            return false;
        }
        i += 1;
    }
    assert(v@.subrange(off as int, v.len() as int) =~= w@);
    true
}

/// How many times `c` occurs in `s`.
pub open spec fn count_char(s: Seq<char>, c: char) -> nat
    decreases s.len(),
{
    if s.len() == 0 {
        0
    } else {
        count_char(s.drop_last(), c) + if s.last() == c {
            1nat
        } else {
            0nat
        }
    }
}

pub proof fn lemma_count_char_bound(s: Seq<char>, c: char)
    ensures
        count_char(s, c) <= s.len(),
    decreases s.len(),
{
    if s.len() > 0 {
        lemma_count_char_bound(s.drop_last(), c);
    }
}

/// How many times `c` occurs in `v`.
pub fn count_of(v: &Vec<char>, c: char) -> (n: usize)
    ensures
        n == count_char(v@, c),
{
    let mut n: usize = 0;
    let mut i: usize = 0;
    while i < v.len()
        invariant
            i <= v.len(),
            n == count_char(v@.subrange(0, i as int), c),
            n <= i,
        decreases v.len() - i,
    {
        assert(v@.subrange(0, i + 1).drop_last() =~= v@.subrange(0, i as int));
        if v[i] == c {
            n += 1;
        }
        i += 1;
    }
    assert(v@.subrange(0, v.len() as int) =~= v@);
    n
}

/// Whether `pat` occurs in `s` at index `k`.
pub open spec fn occurs_at(s: Seq<char>, pat: Seq<char>, k: int) -> bool {
    0 <= k && k + pat.len() <= s.len() && s.subrange(k, k + pat.len()) == pat
}

/// The first index at or after `i` where `pat` occurs, or the length.
pub open spec fn find_sub_from(s: Seq<char>, pat: Seq<char>, i: int) -> int
    decreases s.len() - i,
{
    if i < 0 || i >= s.len() {
        s.len() as int
    } else if occurs_at(s, pat, i) {
        i
    } else {
        find_sub_from(s, pat, i + 1)
    }
}

/// Whether `pat` occurs in `v` at index `k`.
pub fn matches_at(v: &Vec<char>, pat: &Vec<char>, k: usize) -> (r: bool)
    requires
        k <= v.len(),
    ensures
        r == occurs_at(v@, pat@, k as int),
{
    if pat.len() > v.len() - k {
        return false;
    }
    let mut i: usize = 0;
    while i < pat.len()
        invariant
            k + pat.len() <= v.len(),
            i <= pat.len(),
            forall|j: int| 0 <= j < i ==> v@[k + j] == pat@[j],
        decreases pat.len() - i,
    {
        if v[k + i] != pat[i] {
            assert(v@.subrange(k as int, k + pat.len())[i as int] != pat@[i as int]);
            return false;
        }
        i += 1;
    }
    assert(v@.subrange(k as int, k + pat.len()) =~= pat@);
    true
}

/// The first index where the literal `pat` occurs in `v`, or the length.
pub fn find_sub(v: &Vec<char>, pat: &str) -> (k: usize)
    ensures
        k == find_sub_from(v@, pat@, 0),
{
    let p = chars_of(pat);
    let mut k: usize = 0;
    while k < v.len()
        invariant
            k <= v.len(),
            p@ == pat@,
            find_sub_from(v@, pat@, k as int) == find_sub_from(v@, pat@, 0),
        decreases v.len() - k,
    {
        if matches_at(v, &p, k) {
            return k;
        }
        k += 1;
    }
    k
}

/// Pieces joined with `sep` between each pair.
pub open spec fn joined(parts: Seq<Seq<char>>, sep: Seq<char>) -> Seq<char>
    decreases parts.len(),
{
    if parts.len() == 0 {
        Seq::empty()
    } else if parts.len() == 1 {
        parts[0]
    } else {
        joined(parts.drop_last(), sep) + sep + parts.last()
    }
}

/// `parts.join(sep)` for a literal separator.
pub fn join_with(parts: &Vec<Vec<char>>, sep: &str) -> (out: Vec<char>)
    ensures
        out@ == joined(views(parts@), sep@),
{
    let sepv = chars_of(sep);
    let mut out: Vec<char> = Vec::new();
    let mut i: usize = 0;
    while i < parts.len()
        invariant
            i <= parts.len(),
            sepv@ == sep@,
            out@ == joined(views(parts@).subrange(0, i as int), sep@),
        decreases parts.len() - i,
    {
        let ghost before = out@;
        if i > 0 {
            append_chars(&mut out, &sepv);
        }
        append_chars(&mut out, &parts[i]);
        assert(views(parts@).subrange(0, i + 1).drop_last() =~= views(parts@).subrange(0, i as int));
        assert(views(parts@).subrange(0, i + 1).last() == parts@[i as int]@);
        if i == 0 {
            assert(out@ =~= parts@[0]@);
        }
        i += 1;
    }
    assert(views(parts@).subrange(0, parts.len() as int) =~= views(parts@));
    out
}

/// Append all of `src` to `dst`.
pub fn append_chars(dst: &mut Vec<char>, src: &Vec<char>)
    ensures
        final(dst)@ == old(dst)@ + src@,
{
    let mut i: usize = 0;
    while i < src.len()
        invariant
            i <= src.len(),
            dst@ == old(dst)@ + src@.subrange(0, i as int),
        decreases src.len() - i,
    {
        dst.push(src[i]);
        assert(old(dst)@ + src@.subrange(0, i + 1) =~= old(dst)@ + src@.subrange(0, i as int) + seq![src@[i as int]]);
        i += 1;
    }
    assert(src@.subrange(0, src.len() as int) =~= src@);
}

/// A `String` holding all of `v`.
pub fn to_string(v: &Vec<char>) -> (out: String)
    ensures
        out@ == v@,
{
    assert(v@.subrange(0, v.len() as int) =~= v@);
    string_of(v, 0, v.len())
}


/// The characters in all of `ls` together.
pub open spec fn total_len(ls: Seq<Seq<char>>) -> nat
    decreases ls.len(),
{
    if ls.len() == 0 {
        0
    } else {
        total_len(ls.drop_last()) + ls.last().len()
    }
}

pub proof fn lemma_total_len_append(a: Seq<Seq<char>>, b: Seq<Seq<char>>)
    ensures
        total_len(a + b) == total_len(a) + total_len(b),
    decreases b.len(),
{
    if b.len() > 0 {
        lemma_total_len_append(a, b.drop_last());
        assert((a + b).drop_last() =~= a + b.drop_last());
    } else {
        assert(a + b =~= a);
    }
}

pub proof fn lemma_total_len_single(x: Seq<char>)
    ensures
        total_len(seq![x]) == x.len(),
{
    assert(seq![x].drop_last() =~= Seq::<Seq<char>>::empty());
    reveal_with_fuel(total_len, 2);
}

pub proof fn lemma_total_len_prefix(ls: Seq<Seq<char>>, i: int)
    requires
        0 <= i <= ls.len(),
    ensures
        total_len(ls.subrange(0, i)) <= total_len(ls),
        i < ls.len() ==> total_len(ls.subrange(0, i)) + ls[i].len() <= total_len(ls),
    decreases ls.len() - i,
{
    if i < ls.len() {
        lemma_total_len_prefix(ls, i + 1);
        assert(ls.subrange(0, i + 1).drop_last() =~= ls.subrange(0, i));
    } else {
        assert(ls.subrange(0, i) =~= ls);
    }
}

pub proof fn lemma_total_len_range(ls: Seq<Seq<char>>, a: int, b: int)
    requires
        0 <= a <= b <= ls.len(),
    ensures
        total_len(ls.subrange(a, b)) <= total_len(ls),
{
    lemma_total_len_append(ls.subrange(0, a), ls.subrange(a, b));
    lemma_total_len_append(ls.subrange(0, b), ls.subrange(b, ls.len() as int));
    assert(ls.subrange(0, a) + ls.subrange(a, b) =~= ls.subrange(0, b));
    assert(ls.subrange(0, b) + ls.subrange(b, ls.len() as int) =~= ls);
}

pub proof fn lemma_lines_total_len(s: Seq<char>, i: int)
    requires
        0 <= i <= s.len(),
    ensures
        total_len(lines_from(s, i)) <= s.len() - i,
    decreases s.len() - i,
{
    if i < s.len() {
        let k = find_from(s, '\n', i);
        lemma_find_from_bounds(s, '\n', i);
        if k >= s.len() {
            assert(lines_from(s, i) == seq![s.subrange(i, s.len() as int)]);
            assert(seq![s.subrange(i, s.len() as int)].drop_last() =~= Seq::<Seq<char>>::empty());
            lemma_total_len_single(s.subrange(i, s.len() as int));
        } else {
            let piece = strip_cr(s.subrange(i, k));
            assert(lines_from(s, i) == seq![piece] + lines_from(s, k + 1));
            assert(piece.len() <= k - i);
            lemma_lines_total_len(s, k + 1);
            lemma_total_len_append(seq![piece], lines_from(s, k + 1));
            assert(seq![piece].drop_last() =~= Seq::<Seq<char>>::empty());
            lemma_total_len_single(piece);
        }
    }
}

/// The part of a line before its `#` comment.
pub open spec fn code(line: Seq<char>) -> Seq<char> {
    line.subrange(0, find_from(line, '#', 0))
}

/// The part of a line before its `#` comment.
pub fn code_within(line: &Vec<char>) -> (out: Vec<char>)
    ensures
        out@ == code(line@),
{
    let k = find_char(line, '#', 0);
    proof {
        lemma_find_from_bounds(line@, '#', 0);
    }
    slice_of(line, 0, k)
}


pub proof fn lemma_find_sub_found(s: Seq<char>, pat: Seq<char>, i: int)
    requires
        0 <= i <= s.len(),
    ensures
        i <= find_sub_from(s, pat, i) <= s.len(),
        find_sub_from(s, pat, i) < s.len() ==> occurs_at(s, pat, find_sub_from(s, pat, i)),
    decreases s.len() - i,
{
    if i < s.len() && !occurs_at(s, pat, i) {
        lemma_find_sub_found(s, pat, i + 1);
    }
}


pub open spec fn string_views(v: Seq<String>) -> Seq<Seq<char>> {
    v.map_values(|s: String| s@)
}

/// Each character vector as a `String`.
pub fn strings_of(vs: &Vec<Vec<char>>) -> (out: Vec<String>)
    ensures
        string_views(out@) == views(vs@),
{
    let mut out: Vec<String> = Vec::new();
    let mut i: usize = 0;
    while i < vs.len()
        invariant
            i <= vs.len(),
            string_views(out@) == views(vs@).subrange(0, i as int),
        decreases vs.len() - i,
    {
        let ghost before = string_views(out@);
        out.push(to_string(&vs[i]));
        assert(string_views(out@) =~= before.push(vs@[i as int]@));
        assert(views(vs@).subrange(0, i + 1) =~= views(vs@).subrange(0, i as int).push(vs@[i as int]@));
        i += 1;
    }
    assert(views(vs@).subrange(0, vs.len() as int) =~= views(vs@));
    out
}

/// Runs of whitespace collapsed to one space, and none at either end.
pub open spec fn normal(c: Seq<char>) -> Seq<char> {
    joined(tokens(c), " "@)
}

/// Collapse runs of whitespace so that a rule read out of a tab-indented file
/// compares equal to the same rule printed by a tool.
pub fn normalise(c: &Vec<char>) -> (out: Vec<char>)
    ensures
        out@ == normal(c@),
{
    let toks = split_ws(c);
    join_with(&toks, " ")
}


/// `n` spaces.
pub open spec fn spaces(n: nat) -> Seq<char> {
    Seq::new(n, |_i: int| ' ')
}

/// `s` as `{:<w}` writes it: filled out with spaces to `w` characters.
pub open spec fn pad_right(s: Seq<char>, w: nat) -> Seq<char> {
    if s.len() >= w {
        s
    } else {
        s + spaces((w - s.len()) as nat)
    }
}

/// Append `n` spaces.
pub fn push_spaces(out: &mut String, n: usize)
    ensures
        final(out)@ == old(out)@ + spaces(n as nat),
{
    let mut i: usize = 0;
    while i < n
        invariant
            i <= n,
            out@ == old(out)@ + spaces(i as nat),
        decreases n - i,
    {
        push_char(out, ' ');
        assert(old(out)@ + spaces((i + 1) as nat) =~= old(out)@ + spaces(i as nat) + seq![' ']);
        i += 1;
    }
}

/// Append `s` as `{:<width}` writes it.
pub fn push_padded(out: &mut String, s: &str, width: usize)
    ensures
        final(out)@ == old(out)@ + pad_right(s@, width as nat),
{
    let n = chars_of(s).len();
    push_str(out, s);
    if n < width {
        push_spaces(out, width - n);
        assert(old(out)@ + s@ + spaces((width - n) as nat) =~= old(out)@ + (s@ + spaces((width - n) as nat)));
    }
}

/// `s` as `{:>w}` writes it: spaces in front, out to `w` characters.
pub open spec fn pad_left(s: Seq<char>, w: nat) -> Seq<char> {
    if s.len() >= w {
        s
    } else {
        spaces((w - s.len()) as nat) + s
    }
}

/// Append `s` as `{:>width}` writes it.
pub fn push_padded_left(out: &mut String, s: &str, width: usize)
    ensures
        final(out)@ == old(out)@ + pad_left(s@, width as nat),
{
    let n = chars_of(s).len();
    if n < width {
        push_spaces(out, width - n);
        push_str(out, s);
        assert(old(out)@ + spaces((width - n) as nat) + s@ =~= old(out)@ + (spaces((width - n) as nat) + s@));
    } else {
        push_str(out, s);
    }
}

/// `{:02}` of a number below a hundred.
pub open spec fn two_digits(n: nat) -> Seq<char> {
    if n < 10 {
        seq!['0'] + decimal_text(n)
    } else {
        decimal_text(n)
    }
}

/// Append `n` as `{:02}` writes it.
pub fn push_two_digits(out: &mut String, n: u64)
    ensures
        final(out)@ == old(out)@ + two_digits(n as nat),
{
    if n < 10 {
        push_char(out, '0');
        push_decimal(out, n);
        assert(old(out)@.push('0') + decimal_text(n as nat) =~= old(out)@ + two_digits(n as nat));
    } else {
        push_decimal(out, n);
    }
}


/// `a < b` as `String`'s `Ord` has it, from index `i` on: the first place
/// they differ decides, and a proper prefix comes first.
pub open spec fn lex_from(a: Seq<char>, b: Seq<char>, i: int) -> bool
    decreases a.len() - i,
{
    if i < 0 || i >= a.len() {
        0 <= i < b.len()
    } else if i >= b.len() {
        false
    } else if a[i] != b[i] {
        a[i] < b[i]
    } else {
        lex_from(a, b, i + 1)
    }
}

/// `a < b` for strings.
pub open spec fn lex_lt(a: Seq<char>, b: Seq<char>) -> bool {
    lex_from(a, b, 0)
}

pub proof fn lemma_lex_irreflexive(a: Seq<char>, i: int)
    requires
        0 <= i,
    ensures
        !lex_from(a, a, i),
    decreases a.len() - i,
{
    if i < a.len() {
        lemma_lex_irreflexive(a, i + 1);
    }
}

pub proof fn lemma_lex_transitive(a: Seq<char>, b: Seq<char>, c: Seq<char>, i: int)
    requires
        0 <= i,
        lex_from(a, b, i),
        lex_from(b, c, i),
    ensures
        lex_from(a, c, i),
    decreases a.len() - i,
{
    if i < a.len() && i < b.len() && i < c.len() && a[i] == b[i] && b[i] == c[i] {
        lemma_lex_transitive(a, b, c, i + 1);
    }
}

pub proof fn lemma_lex_total(a: Seq<char>, b: Seq<char>, i: int)
    requires
        0 <= i <= a.len(),
        i <= b.len(),
        a.subrange(i, a.len() as int) != b.subrange(i, b.len() as int),
    ensures
        lex_from(a, b, i) || lex_from(b, a, i),
    decreases a.len() - i,
{
    if i == a.len() || i == b.len() {
        if i == a.len() && i == b.len() {
            assert(a.subrange(i, a.len() as int) =~= b.subrange(i, b.len() as int));
        }
    } else if a[i] == b[i] {
        if a.subrange(i + 1, a.len() as int) == b.subrange(i + 1, b.len() as int) {
            assert(a.subrange(i, a.len() as int) =~= seq![a[i]] + a.subrange(i + 1, a.len() as int));
            assert(b.subrange(i, b.len() as int) =~= seq![b[i]] + b.subrange(i + 1, b.len() as int));
        }
        lemma_lex_total(a, b, i + 1);
    }
}

/// Distinct strings are ordered one way or the other.
pub proof fn lemma_lex_trichotomy(a: Seq<char>, b: Seq<char>)
    requires
        a != b,
    ensures
        lex_lt(a, b) || lex_lt(b, a),
{
    assert(a.subrange(0, a.len() as int) =~= a);
    assert(b.subrange(0, b.len() as int) =~= b);
    lemma_lex_total(a, b, 0);
}

/// [`lex_lt`].
pub fn str_less(a: &str, b: &str) -> (r: bool)
    ensures
        r == lex_lt(a@, b@),
{
    let x = chars_of(a);
    let y = chars_of(b);
    let mut i: usize = 0;
    while i < x.len() && i < y.len() && x[i] == y[i]
        invariant
            i <= x.len(),
            i <= y.len(),
            x@ == a@,
            y@ == b@,
            lex_from(a@, b@, i as int) == lex_from(a@, b@, 0),
        decreases x.len() - i,
    {
        i += 1;
    }
    if i == x.len() {
        i < y.len()
    } else if i == y.len() {
        false
    } else {
        x[i] < y[i]
    }
}


/// Where the search finds nothing, nothing occurs.
pub proof fn lemma_find_sub_absent(s: Seq<char>, pat: Seq<char>, i: int)
    requires
        0 <= i <= s.len(),
        pat.len() > 0,
        find_sub_from(s, pat, i) >= s.len(),
    ensures
        forall|k: int| i <= k ==> !occurs_at(s, pat, k),
    decreases s.len() - i,
{
    if i < s.len() {
        lemma_find_sub_absent(s, pat, i + 1);
    }
}

} // verus!
