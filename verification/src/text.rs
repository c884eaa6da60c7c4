//! Verified character-level text utilities.
//!
//! Configuration text is modelled as `Seq<char>`; every helper here has an
//! exact specification over that model.

use vstd::prelude::*;

verus! {

/// Whitespace as trimmed from statement text.
pub open spec fn is_space(c: char) -> bool {
    c == ' ' || c == '\t' || c == '\r' || c == '\n'
}

/// Decimal digit.
pub open spec fn is_digit(c: char) -> bool {
    48 <= c as u32 && c as u32 <= 57
}

/// First position at or after `i` whose character fails `p` (or the end).
pub open spec fn scan_while(s: Seq<char>, i: int, p: spec_fn(char) -> bool) -> int
    decreases s.len() - i,
    when 0 <= i <= s.len()
{
    if i >= s.len() {
        i
    } else if p(s[i]) {
        scan_while(s, i + 1, p)
    } else {
        i
    }
}

pub proof fn lemma_scan_while(s: Seq<char>, i: int, p: spec_fn(char) -> bool)
    requires
        0 <= i <= s.len(),
    ensures
        i <= scan_while(s, i, p) <= s.len(),
        forall|j: int| i <= j < scan_while(s, i, p) ==> p(s[j]),
        scan_while(s, i, p) < s.len() ==> !p(s[scan_while(s, i, p)]),
    decreases s.len() - i,
{
    if i < s.len() && p(s[i]) {
        lemma_scan_while(s, i + 1, p);
    }
}

/// Least position `j <= i` such that every character in `[j, i)` passes `p`
/// and `j` is either 0 or preceded by a character failing `p`.
pub open spec fn scan_back_while(s: Seq<char>, i: int, p: spec_fn(char) -> bool) -> int
    decreases i,
    when 0 <= i <= s.len()
{
    if i <= 0 {
        0
    } else if p(s[i - 1]) {
        scan_back_while(s, i - 1, p)
    } else {
        i
    }
}

pub proof fn lemma_scan_back_while(s: Seq<char>, i: int, p: spec_fn(char) -> bool)
    requires
        0 <= i <= s.len(),
    ensures
        0 <= scan_back_while(s, i, p) <= i,
        forall|j: int| scan_back_while(s, i, p) <= j < i ==> p(s[j]),
        scan_back_while(s, i, p) > 0 ==> !p(s[scan_back_while(s, i, p) - 1]),
    decreases i,
{
    if i > 0 && p(s[i - 1]) {
        lemma_scan_back_while(s, i - 1, p);
    }
}

/// Character count of a string.
pub fn str_len(s: &str) -> (n: usize)
    ensures
        n == s@.len(),
{
    s.unicode_len()
}

/// Exact character-sequence equality of two strings.
pub fn str_eq(a: &str, b: &str) -> (r: bool)
    ensures
        r == (a@ == b@),
{
    let na = a.unicode_len();
    let nb = b.unicode_len();
    if na != nb {
        return false;
    }
    let mut i: usize = 0;
    while i < na
        invariant
            0 <= i <= na,
            forall|j: int| 0 <= j < i ==> a@[j] == b@[j],
        decreases na - i,
    {
        if a.get_char(i) != b.get_char(i) {
            return false;
        }
        i += 1;
    }
    proof {
        assert(a@ =~= b@);
    }
    true
}

/// `p` is a prefix of `s`.
pub open spec fn has_prefix(s: Seq<char>, p: Seq<char>) -> bool {
    p.len() <= s.len() && s.subrange(0, p.len() as int) == p
}

pub fn starts_with_str(s: &str, p: &str) -> (r: bool)
    ensures
        r == has_prefix(s@, p@),
{
    let ns = s.unicode_len();
    let np = p.unicode_len();
    if np > ns {
        return false;
    }
    let mut i: usize = 0;
    while i < np
        invariant
            0 <= i <= np <= ns,
            forall|j: int| 0 <= j < i ==> s@[j] == p@[j],
        decreases np - i,
    {
        if s.get_char(i) != p.get_char(i) {
            proof {
                assert(s@.subrange(0, p@.len() as int)[i as int] != p@[i as int]);
            }
            return false;
        }
        i += 1;
    }
    proof {
        assert(s@.subrange(0, p@.len() as int) =~= p@);
    }
    true
}

/// `p` is a suffix of `s`.
pub open spec fn has_suffix(s: Seq<char>, p: Seq<char>) -> bool {
    p.len() <= s.len() && s.subrange(s.len() - p.len(), s.len() as int) == p
}

pub fn ends_with_str(s: &str, p: &str) -> (r: bool)
    ensures
        r == has_suffix(s@, p@),
{
    let ns = s.unicode_len();
    let np = p.unicode_len();
    if np > ns {
        return false;
    }
    let off = ns - np;
    let mut i: usize = 0;
    while i < np
        invariant
            0 <= i <= np <= ns,
            off == ns - np,
            ns == s@.len(),
            np == p@.len(),
            forall|j: int| 0 <= j < i ==> s@[off + j] == p@[j],
        decreases np - i,
    {
        if s.get_char(off + i) != p.get_char(i) {
            proof {
                assert(s@.subrange(s@.len() - p@.len(), s@.len() as int)[i as int] != p@[
                    i as int]);
            }
            return false;
        }
        i += 1;
    }
    proof {
        assert(s@.subrange(s@.len() - p@.len(), s@.len() as int) =~= p@);
    }
    true
}

/// The substring after prefix `p`, when `p` is a prefix of `s`.
pub fn strip_prefix_str<'a>(s: &'a str, p: &str) -> (r: Option<&'a str>)
    ensures
        match r {
            Some(t) => has_prefix(s@, p@) && t@ == s@.subrange(p@.len() as int, s@.len() as int),
            None => !has_prefix(s@, p@),
        },
{
    if starts_with_str(s, p) {
        let ns = s.unicode_len();
        let np = p.unicode_len();
        Some(s.substring_char(np, ns))
    } else {
        None
    }
}

/// Number of leading `' '` characters (indentation).
pub open spec fn spec_indent(s: Seq<char>) -> int {
    scan_while(s, 0, |c: char| c == ' ')
}

pub fn get_indent(s: &str) -> (n: usize)
    ensures
        n == spec_indent(s@),
        0 <= spec_indent(s@) <= s@.len(),
{
    proof {
        lemma_scan_while(s@, 0, |c: char| c == ' ');
    }
    let n = s.unicode_len();
    let mut i: usize = 0;
    while i < n && s.get_char(i) == ' '
        invariant
            0 <= i <= n,
            n == s@.len(),
            scan_while(s@, 0, |c: char| c == ' ') == scan_while(s@, i as int, |c: char| c == ' '),
        decreases n - i,
    {
        i += 1;
    }
    i
}

/// `s` with leading and trailing whitespace removed.
pub open spec fn spec_trim(s: Seq<char>) -> Seq<char> {
    let b = scan_while(s, 0, |c: char| is_space(c));
    let e = scan_back_while(s, s.len() as int, |c: char| is_space(c));
    if b >= e {
        Seq::empty()
    } else {
        s.subrange(b, e)
    }
}

/// `s` with trailing whitespace removed.
pub open spec fn spec_trim_end(s: Seq<char>) -> Seq<char> {
    s.subrange(0, scan_back_while(s, s.len() as int, |c: char| is_space(c)))
}

pub fn trim_end_str(s: &str) -> (r: &str)
    ensures
        r@ == spec_trim_end(s@),
{
    let n = s.unicode_len();
    proof {
        lemma_scan_back_while(s@, n as int, |c: char| is_space(c));
    }
    let mut e: usize = n;
    while e > 0 && is_space_exec(s.get_char(e - 1))
        invariant
            0 <= e <= n,
            n == s@.len(),
            scan_back_while(s@, n as int, |c: char| is_space(c)) == scan_back_while(
                s@,
                e as int,
                |c: char| is_space(c),
            ),
        decreases e,
    {
        e -= 1;
    }
    s.substring_char(0, e)
}

fn is_space_exec(c: char) -> (r: bool)
    ensures
        r == is_space(c),
{
    c == ' ' || c == '\t' || c == '\r' || c == '\n'
}

pub fn trim_str(s: &str) -> (r: &str)
    ensures
        r@ == spec_trim(s@),
{
    let n = s.unicode_len();
    proof {
        lemma_scan_while(s@, 0, |c: char| is_space(c));
        lemma_scan_back_while(s@, n as int, |c: char| is_space(c));
    }
    let mut b: usize = 0;
    while b < n && is_space_exec(s.get_char(b))
        invariant
            0 <= b <= n,
            n == s@.len(),
            scan_while(s@, 0, |c: char| is_space(c)) == scan_while(
                s@,
                b as int,
                |c: char| is_space(c),
            ),
        decreases n - b,
    {
        b += 1;
    }
    let mut e: usize = n;
    while e > 0 && is_space_exec(s.get_char(e - 1))
        invariant
            0 <= e <= n,
            n == s@.len(),
            scan_back_while(s@, n as int, |c: char| is_space(c)) == scan_back_while(
                s@,
                e as int,
                |c: char| is_space(c),
            ),
        decreases e,
    {
        e -= 1;
    }
    if b >= e {
        proof {
            assert(spec_trim(s@) =~= Seq::<char>::empty());
        }
        s.substring_char(0, 0)
    } else {
        s.substring_char(b, e)
    }
}

/// Value of a sequence of decimal digits.
pub open spec fn dec_val(s: Seq<char>) -> nat
    decreases s.len(),
{
    if s.len() == 0 {
        0
    } else {
        dec_val(s.drop_last()) * 10 + digit_val(s.last())
    }
}

pub open spec fn digit_val(c: char) -> nat {
    (c as u32 - 48) as nat
}

pub open spec fn all_digits(s: Seq<char>) -> bool {
    forall|i: int| 0 <= i < s.len() ==> is_digit(#[trigger] s[i])
}

/// What `str::parse::<u32>` accepts: optional `+`, then one or more digits,
/// with a value that fits in `u32`.
pub open spec fn spec_parse_u32(s: Seq<char>) -> Option<u32> {
    let t = if s.len() > 0 && s[0] == '+' {
        s.subrange(1, s.len() as int)
    } else {
        s
    };
    if t.len() > 0 && all_digits(t) && dec_val(t) <= u32::MAX {
        Some(dec_val(t) as u32)
    } else {
        None
    }
}

proof fn lemma_dec_val_take_step(t: Seq<char>, i: int)
    requires
        0 <= i < t.len(),
    ensures
        dec_val(t.take(i + 1)) == dec_val(t.take(i)) * 10 + digit_val(t[i]),
{
    assert(t.take(i + 1).drop_last() =~= t.take(i));
    assert(t.take(i + 1).last() == t[i]);
}

proof fn lemma_dec_val_take_le(t: Seq<char>, i: int)
    requires
        0 <= i <= t.len(),
    ensures
        dec_val(t.take(i)) <= dec_val(t),
    decreases t.len() - i,
{
    if i < t.len() {
        lemma_dec_val_take_step(t, i);
        lemma_dec_val_take_le(t, i + 1);
        assert(dec_val(t.take(i)) <= dec_val(t.take(i)) * 10 + digit_val(t[i]));
    } else {
        assert(t.take(i) =~= t);
    }
}

/// Parse an unsigned decimal number as `str::parse::<u32>` would.
pub fn parse_u32_str(s: &str) -> (r: Option<u32>)
    ensures
        r == spec_parse_u32(s@),
{
    let n = s.unicode_len();
    let start: usize = if n > 0 && s.get_char(0) == '+' {
        1
    } else {
        0
    };
    let ghost t = if s@.len() > 0 && s@[0] == '+' {
        s@.subrange(1, s@.len() as int)
    } else {
        s@
    };
    assert(t.len() == n - start);
    assert(forall|j: int| 0 <= j < t.len() ==> t[j] == s@[j + start]);
    if start >= n {
        return None;
    }
    let mut acc: u64 = 0;
    let mut i: usize = start;
    while i < n
        invariant
            start <= i <= n,
            n == s@.len(),
            t.len() == n - start,
            forall|j: int| 0 <= j < t.len() ==> t[j] == s@[j + start],
            all_digits(t.take(i - start)),
            acc == dec_val(t.take(i - start)),
            acc <= u32::MAX,
        decreases n - i,
    {
        let c = s.get_char(i);
        let cu = c as u32;
        if cu < 48 || cu > 57 {
            assert(!is_digit(t[i - start]));
            return None;
        }
        let d = (cu - 48) as u64;
        let next = acc * 10 + d;
        proof {
            lemma_dec_val_take_step(t, i - start);
        }
        if next > u32::MAX as u64 {
            proof {
                lemma_dec_val_take_le(t, i - start + 1);
            }
            return None;
        }
        acc = next;
        i += 1;
    }
    proof {
        assert(t.take(n - start) =~= t);
    }
    Some(acc as u32)
}

/// Decimal rendering of `n`, most significant digit first.
pub open spec fn dec_str(n: nat) -> Seq<char>
    decreases n,
{
    if n < 10 {
        seq![digit_char(n)]
    } else {
        dec_str(n / 10).push(digit_char(n % 10))
    }
}

pub open spec fn digit_char(d: nat) -> char {
    if d == 0 {
        '0'
    } else if d == 1 {
        '1'
    } else if d == 2 {
        '2'
    } else if d == 3 {
        '3'
    } else if d == 4 {
        '4'
    } else if d == 5 {
        '5'
    } else if d == 6 {
        '6'
    } else if d == 7 {
        '7'
    } else if d == 8 {
        '8'
    } else {
        '9'
    }
}

fn digit_char_exec(d: u32) -> (c: char)
    requires
        d < 10,
    ensures
        c == digit_char(d as nat),
{
    if d == 0 {
        '0'
    } else if d == 1 {
        '1'
    } else if d == 2 {
        '2'
    } else if d == 3 {
        '3'
    } else if d == 4 {
        '4'
    } else if d == 5 {
        '5'
    } else if d == 6 {
        '6'
    } else if d == 7 {
        '7'
    } else if d == 8 {
        '8'
    } else {
        '9'
    }
}

/// Relies on `String::push`: appends exactly one character to the string.
#[verifier::external_body]
pub fn push_char(s: &mut String, c: char)
    ensures
        final(s)@ == old(s)@.push(c),
{
    s.push(c)
}

/// Render `n` in decimal.
pub fn u32_to_string(n: u32) -> (r: String)
    ensures
        r@ == dec_str(n as nat),
    decreases n,
{
    if n < 10 {
        let mut s = String::new();
        push_char(&mut s, digit_char_exec(n));
        proof {
            assert(s@ =~= dec_str(n as nat));
        }
        s
    } else {
        let mut s = u32_to_string(n / 10);
        push_char(&mut s, digit_char_exec(n % 10));
        s
    }
}

/// Strict lexicographic order on character sequences, by code point.
///
/// On valid strings this coincides with the byte-wise `Ord` of `String`.
pub open spec fn lex_lt(a: Seq<char>, b: Seq<char>) -> bool
    decreases a.len(),
{
    if b.len() == 0 {
        false
    } else if a.len() == 0 {
        true
    } else if (a[0] as u32) < (b[0] as u32) {
        true
    } else if a[0] == b[0] {
        lex_lt(a.drop_first(), b.drop_first())
    } else {
        false
    }
}

pub proof fn lemma_lex_trichotomy(a: Seq<char>, b: Seq<char>)
    ensures
        lex_lt(a, b) || lex_lt(b, a) || a == b,
        lex_lt(a, b) ==> !lex_lt(b, a) && a != b,
        lex_lt(b, a) ==> !lex_lt(a, b) && a != b,
    decreases a.len(),
{
    if a.len() == 0 && b.len() == 0 {
        assert(a =~= b);
    } else if a.len() > 0 && b.len() > 0 {
        if a[0] == b[0] {
            lemma_lex_trichotomy(a.drop_first(), b.drop_first());
            if a.drop_first() == b.drop_first() {
                assert forall|i: int| 0 <= i < a.len() implies a[i] == b[i] by {
                    if i > 0 {
                        assert(a[i] == a.drop_first()[i - 1]);
                        assert(b[i] == b.drop_first()[i - 1]);
                    }
                }
                assert(a =~= b);
            }
            if a == b {
                assert(a.drop_first() =~= b.drop_first());
            }
        } else {
            vstd::utf8::char_u32_cast(a[0], a[0] as u32);
            vstd::utf8::char_u32_cast(b[0], b[0] as u32);
            assert(a[0] as u32 != b[0] as u32);
            assert(a != b);
        }
    }
}

pub proof fn lemma_lex_trans(a: Seq<char>, b: Seq<char>, c: Seq<char>)
    requires
        lex_lt(a, b),
        lex_lt(b, c),
    ensures
        lex_lt(a, c),
    decreases a.len(),
{
    if a.len() > 0 && b.len() > 0 && c.len() > 0 {
        if a[0] == b[0] && b[0] == c[0] {
            lemma_lex_trans(a.drop_first(), b.drop_first(), c.drop_first());
        }
    }
}

/// Exact comparison: whether `a` orders strictly before `b`.
pub fn str_lt(a: &str, b: &str) -> (r: bool)
    ensures
        r == lex_lt(a@, b@),
{
    let na = a.unicode_len();
    let nb = b.unicode_len();
    proof {
        assert(a@.skip(0) =~= a@);
        assert(b@.skip(0) =~= b@);
    }
    let mut i: usize = 0;
    loop
        invariant
            0 <= i <= na,
            i <= nb,
            na == a@.len(),
            nb == b@.len(),
            lex_lt(a@, b@) == lex_lt(a@.skip(i as int), b@.skip(i as int)),
        decreases na - i,
    {
        if i >= nb {
            // b exhausted: a@.skip(i) is not before the empty sequence
            return false;
        }
        if i >= na {
            return true;
        }
        let ca = a.get_char(i) as u32;
        let cb = b.get_char(i) as u32;
        if ca < cb {
            return true;
        }
        if ca > cb {
            return false;
        }
        proof {
            assert(a@.skip(i as int)[0] == b@.skip(i as int)[0]);
            assert(a@.skip(i as int).drop_first() =~= a@.skip(i + 1));
            assert(b@.skip(i as int).drop_first() =~= b@.skip(i + 1));
        }
        i += 1;
    }
}

/// The lines of `s`, split as `str::lines` does: at each `'\n'`, with a
/// `'\r'` immediately before the `'\n'` dropped, and no final empty line
/// after a trailing terminator.
pub open spec fn spec_lines_from(s: Seq<char>, i: int) -> Seq<Seq<char>>
    decreases s.len() - i,
    when 0 <= i <= s.len()
{
    if i >= s.len() {
        Seq::empty()
    } else {
        let j0 = scan_while(s, i, |c: char| c != '\n');
        let j = if i <= j0 <= s.len() {
            j0
        } else {
            i
        };
        if j == s.len() {
            seq![s.subrange(i, j)]
        } else {
            seq![strip_final_cr(s.subrange(i, j))] + spec_lines_from(s, j + 1)
        }
    }
}

pub open spec fn strip_final_cr(t: Seq<char>) -> Seq<char> {
    if t.len() > 0 && t.last() == '\r' {
        t.drop_last()
    } else {
        t
    }
}

pub open spec fn spec_lines(s: Seq<char>) -> Seq<Seq<char>> {
    spec_lines_from(s, 0)
}

fn split_lines_from(s: &str, from: usize, out: &mut Vec<String>)
    requires
        from <= s@.len(),
    ensures
        final(out)@.len() == old(out)@.len() + spec_lines_from(s@, from as int).len(),
        forall|k: int| 0 <= k < old(out)@.len() ==> final(out)@[k] == old(out)@[k],
        forall|k: int|
            0 <= k < spec_lines_from(s@, from as int).len() ==> final(out)@[old(out)@.len() + k]@
                == spec_lines_from(s@, from as int)[k],
    decreases s@.len() - from,
{
    let n = s.unicode_len();
    if from >= n {
        return ;
    }
    proof {
        lemma_scan_while(s@, from as int, |c: char| c != '\n');
    }
    let mut j: usize = from;
    while j < n && s.get_char(j) != '\n'
        invariant
            from <= j <= n,
            n == s@.len(),
            scan_while(s@, from as int, |c: char| c != '\n') == scan_while(
                s@,
                j as int,
                |c: char| c != '\n',
            ),
        decreases n - j,
    {
        j += 1;
    }
    assert(j == scan_while(s@, from as int, |c: char| c != '\n'));
    if j == n {
        let line = s.substring_char(from, j);
        out.push(line.to_owned());
    } else {
        let end = if j > from && s.get_char(j - 1) == '\r' {
            j - 1
        } else {
            j
        };
        let line = s.substring_char(from, end);
        proof {
            assert(line@ =~= strip_final_cr(s@.subrange(from as int, j as int)));
        }
        out.push(line.to_owned());
        split_lines_from(s, j + 1, out);
    }
}

/// Split into lines as `str::lines` does.
pub fn split_lines(s: &str) -> (out: Vec<String>)
    ensures
        out@.len() == spec_lines(s@).len(),
        forall|k: int| 0 <= k < out@.len() ==> out@[k]@ == spec_lines(s@)[k],
{
    let mut out: Vec<String> = Vec::new();
    split_lines_from(s, 0, &mut out);
    out
}

/// The lines joined with `'\n'` between them (no trailing terminator).
pub open spec fn spec_join_from(ls: Seq<Seq<char>>, i: int) -> Seq<char>
    decreases ls.len() - i,
    when 0 <= i <= ls.len()
{
    if i >= ls.len() {
        Seq::empty()
    } else if i == ls.len() - 1 {
        ls[i]
    } else {
        ls[i] + seq!['\n'] + spec_join_from(ls, i + 1)
    }
}

pub open spec fn spec_join(ls: Seq<Seq<char>>) -> Seq<char> {
    spec_join_from(ls, 0)
}

fn join_lines_from(ls: &Vec<String>, i: usize, out: &mut String)
    requires
        i <= ls@.len(),
    ensures
        final(out)@ == old(out)@ + spec_join_from(ls@.map_values(|l: String| l@), i as int),
    decreases ls@.len() - i,
{
    let n = ls.len();
    let ghost lsv = ls@.map_values(|l: String| l@);
    if i >= n {
        proof {
            assert(out@ =~= out@ + spec_join_from(lsv, i as int));
        }
        return ;
    }
    out.append(ls[i].as_str());
    if i == n - 1 {
        return ;
    }
    push_char(out, '\n');
    join_lines_from(ls, i + 1, out);
    proof {
        assert(old(out)@ + (lsv[i as int] + seq!['\n'] + spec_join_from(lsv, i + 1)) =~= (old(
            out,
        )@ + lsv[i as int]).push('\n') + spec_join_from(lsv, i + 1));
    }
}

/// Join lines with `'\n'`.
pub fn join_lines(ls: &Vec<String>) -> (out: String)
    ensures
        out@ == spec_join(ls@.map_values(|l: String| l@)),
{
    let mut out = String::new();
    join_lines_from(ls, 0, &mut out);
    proof {
        assert(Seq::<char>::empty() + spec_join(ls@.map_values(|l: String| l@)) =~= spec_join(
            ls@.map_values(|l: String| l@),
        ));
    }
    out
}

/// Whitespace-separated tokens of `s`, scanning from `i`.
pub open spec fn spec_tokens_from(s: Seq<char>, i: int) -> Seq<Seq<char>>
    decreases s.len() - i,
    when 0 <= i <= s.len()
{
    let b0 = scan_while(s, i, |c: char| is_space(c));
    let b = if i <= b0 <= s.len() {
        b0
    } else {
        i
    };
    if b >= s.len() {
        Seq::empty()
    } else {
        let e0 = scan_while(s, b, |c: char| !is_space(c));
        let e = if e0 > b {
            e0
        } else {
            b + 1
        };
        if e <= s.len() {
            seq![s.subrange(b, e)] + spec_tokens_from(s, e)
        } else {
            Seq::empty()
        }
    }
}

pub open spec fn spec_tokens(s: Seq<char>) -> Seq<Seq<char>> {
    spec_tokens_from(s, 0)
}

fn split_tokens_from(s: &str, from: usize, out: &mut Vec<String>)
    requires
        from <= s@.len(),
    ensures
        final(out)@.len() == old(out)@.len() + spec_tokens_from(s@, from as int).len(),
        forall|k: int| 0 <= k < old(out)@.len() ==> final(out)@[k] == old(out)@[k],
        forall|k: int|
            0 <= k < spec_tokens_from(s@, from as int).len() ==> final(out)@[old(out)@.len() + k]@
                == spec_tokens_from(s@, from as int)[k],
    decreases s@.len() - from,
{
    let n = s.unicode_len();
    proof {
        lemma_scan_while(s@, from as int, |c: char| is_space(c));
    }
    let mut b: usize = from;
    while b < n && is_space_exec(s.get_char(b))
        invariant
            from <= b <= n,
            n == s@.len(),
            scan_while(s@, from as int, |c: char| is_space(c)) == scan_while(
                s@,
                b as int,
                |c: char| is_space(c),
            ),
        decreases n - b,
    {
        b += 1;
    }
    assert(b == scan_while(s@, from as int, |c: char| is_space(c)));
    if b >= n {
        return ;
    }
    proof {
        lemma_scan_while(s@, b as int, |c: char| !is_space(c));
    }
    let mut e: usize = b;
    while e < n && !is_space_exec(s.get_char(e))
        invariant
            b <= e <= n,
            n == s@.len(),
            scan_while(s@, b as int, |c: char| !is_space(c)) == scan_while(
                s@,
                e as int,
                |c: char| !is_space(c),
            ),
        decreases n - e,
    {
        e += 1;
    }
    assert(e == scan_while(s@, b as int, |c: char| !is_space(c)));
    assert(e > b);
    let tok = s.substring_char(b, e);
    out.push(tok.to_owned());
    split_tokens_from(s, e, out);
}

/// Split into whitespace-separated tokens as `str::split_whitespace` does
/// (for the whitespace characters recognised by [`is_space`]).
pub fn split_tokens(s: &str) -> (out: Vec<String>)
    ensures
        out@.len() == spec_tokens(s@).len(),
        forall|k: int| 0 <= k < out@.len() ==> out@[k]@ == spec_tokens(s@)[k],
{
    let mut out: Vec<String> = Vec::new();
    split_tokens_from(s, 0, &mut out);
    out
}

/// Position of the first occurrence of `c` at or after position 0.
pub fn find_char(s: &str, c: char) -> (r: Option<usize>)
    ensures
        match r {
            Some(j) => j == scan_while(s@, 0, |x: char| x != c) && j < s@.len() && s@[j as int]
                == c,
            None => scan_while(s@, 0, |x: char| x != c) == s@.len(),
        },
{
    find_char_from(s, 0, c)
}

/// Position of the first occurrence of `c` at or after `from`.
pub fn find_char_from(s: &str, from: usize, c: char) -> (r: Option<usize>)
    requires
        from <= s@.len(),
    ensures
        match r {
            Some(j) => j == scan_while(s@, from as int, |x: char| x != c) && from <= j < s@.len()
                && s@[j as int] == c,
            None => scan_while(s@, from as int, |x: char| x != c) == s@.len(),
        },
{
    let n = s.unicode_len();
    proof {
        lemma_scan_while(s@, from as int, |x: char| x != c);
    }
    let mut j: usize = from;
    while j < n && s.get_char(j) != c
        invariant
            from <= j <= n,
            n == s@.len(),
            scan_while(s@, from as int, |x: char| x != c) == scan_while(
                s@,
                j as int,
                |x: char| x != c,
            ),
        decreases n - j,
    {
        j += 1;
    }
    if j < n {
        Some(j)
    } else {
        None
    }
}

/// Whether `s` contains `c`.
pub fn contains_char(s: &str, c: char) -> (r: bool)
    ensures
        r == s@.contains(c),
{
    proof {
        lemma_scan_while(s@, 0, |x: char| x != c);
    }
    match find_char(s, c) {
        Some(j) => {
            assert(s@[j as int] == c);
            true
        },
        None => {
            assert(forall|j: int| 0 <= j < s@.len() ==> s@[j] != c);
            false
        },
    }
}

/// Take a substring by character positions.
pub fn substr(s: &str, from: usize, to: usize) -> (r: &str)
    requires
        from <= to <= s@.len(),
    ensures
        r@ == s@.subrange(from as int, to as int),
{
    s.substring_char(from, to)
}

pub proof fn lemma_join_from_skip(ls: Seq<Seq<char>>, k: int)
    requires
        0 <= k <= ls.len(),
    ensures
        spec_join_from(ls, k) == spec_join_from(ls.skip(k), 0),
    decreases ls.len() - k,
{
    let t = ls.skip(k);
    if k >= ls.len() {
        assert(t.len() == 0);
    } else if k == ls.len() - 1 {
        assert(t.len() == 1);
        assert(t[0] == ls[k as int]);
    } else {
        lemma_join_from_skip(ls, k + 1);
        assert(ls.skip(k + 1) =~= t.skip(1));
        assert(t[0] == ls[k as int]);
        lemma_join_from_skip(t, 1);
    }
}

/// Joining lines no longer than those split from `s` (scanning from `i`)
/// gives at most the remaining character count.
pub proof fn lemma_join_len_le(ls: Seq<Seq<char>>, s: Seq<char>, i: int)
    requires
        0 <= i <= s.len(),
        ls.len() == spec_lines_from(s, i).len(),
        forall|k: int|
            0 <= k < ls.len() ==> #[trigger] ls[k].len() <= spec_lines_from(s, i)[k].len(),
    ensures
        spec_join(ls).len() <= s.len() - i,
    decreases s.len() - i,
{
    if i >= s.len() {
        assert(ls.len() == 0);
    } else {
        let j0 = scan_while(s, i, |c: char| c != '\n');
        lemma_scan_while(s, i, |c: char| c != '\n');
        let j = j0;
        if j == s.len() {
            assert(spec_lines_from(s, i) =~= seq![s.subrange(i, j)]);
            assert(ls.len() == 1);
            assert(spec_join(ls) == ls[0]);
            assert(ls[0].len() <= spec_lines_from(s, i)[0].len());
        } else {
            let line0 = strip_final_cr(s.subrange(i, j));
            assert(spec_lines_from(s, i) == seq![line0] + spec_lines_from(s, j + 1));
            let rest = spec_lines_from(s, j + 1);
            let lt = ls.skip(1);
            assert(lt.len() == rest.len());
            assert(forall|k: int|
                0 <= k < lt.len() ==> #[trigger] lt[k].len() <= rest[k].len()) by {
                assert(forall|k: int| 0 <= k < lt.len() ==> lt[k] == ls[k + 1]);
                assert(forall|k: int|
                    0 <= k < rest.len() ==> spec_lines_from(s, i)[k + 1] == rest[k]);
            }
            lemma_join_len_le(lt, s, j + 1);
            assert(ls[0].len() <= line0.len());
            assert(line0.len() <= j - i);
            if ls.len() == 1 {
                assert(spec_join(ls) == ls[0]);
            } else {
                assert(spec_join(ls) == ls[0] + seq!['\n'] + spec_join_from(ls, 1));
                lemma_join_from_skip(ls, 1);
                assert(spec_join_from(ls, 1) == spec_join(lt));
            }
        }
    }
}

/// The pieces joined with `' '` between them.
pub open spec fn spec_join_sp_from(ls: Seq<Seq<char>>, i: int) -> Seq<char>
    decreases ls.len() - i,
    when 0 <= i <= ls.len()
{
    if i >= ls.len() {
        Seq::empty()
    } else if i == ls.len() - 1 {
        ls[i]
    } else {
        ls[i] + seq![' '] + spec_join_sp_from(ls, i + 1)
    }
}

pub open spec fn spec_join_sp(ls: Seq<Seq<char>>) -> Seq<char> {
    spec_join_sp_from(ls, 0)
}

fn join_spaces_from(ls: &Vec<String>, i: usize, out: &mut String)
    requires
        i <= ls@.len(),
    ensures
        final(out)@ == old(out)@ + spec_join_sp_from(ls@.map_values(|l: String| l@), i as int),
    decreases ls@.len() - i,
{
    let n = ls.len();
    let ghost lsv = ls@.map_values(|l: String| l@);
    if i >= n {
        proof {
            assert(out@ =~= out@ + spec_join_sp_from(lsv, i as int));
        }
        return ;
    }
    out.append(ls[i].as_str());
    if i == n - 1 {
        return ;
    }
    push_char(out, ' ');
    join_spaces_from(ls, i + 1, out);
    proof {
        assert(old(out)@ + (lsv[i as int] + seq![' '] + spec_join_sp_from(lsv, i + 1)) =~= (old(
            out,
        )@ + lsv[i as int]).push(' ') + spec_join_sp_from(lsv, i + 1));
    }
}

/// Join pieces with `' '`.
pub fn join_spaces(ls: &Vec<String>) -> (out: String)
    ensures
        out@ == spec_join_sp(ls@.map_values(|l: String| l@)),
{
    let mut out = String::new();
    join_spaces_from(ls, 0, &mut out);
    proof {
        assert(Seq::<char>::empty() + spec_join_sp(ls@.map_values(|l: String| l@))
            =~= spec_join_sp(ls@.map_values(|l: String| l@)));
    }
    out
}

} // verus!
