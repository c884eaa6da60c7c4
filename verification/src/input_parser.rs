//! Parser for the simplified change-description language.

use vstd::prelude::*;
use crate::diagnostic::{Diagnostic, ErrorKind, SpecDiag, SpecErrorKind, diag_view, ek_view};
use crate::model::{
    BaseIf, ChangeSpec, InterfaceChange, SpecChangeSpec, SpecInterfaceChange, VlanId, cs_view,
    ic_view, empty_cs, empty_ic, f_vlan_name, f_ic, f_bvi_stmts,
};
use crate::node::{SpannedNode, SpannedNodeBlock, SpannedNodeStmt};
use crate::omap::{
    omap_insert, omap_get, omap_remove, u32_lt, name_lt, oset_insert, VlanMap, lemma_map_vals_get,
    lemma_map_vals_insert, lemma_map_vals_remove,
};
use crate::span::{Span, Spanned};
use crate::text::{
    has_prefix, is_space, is_digit, scan_while, lemma_scan_while, spec_trim, spec_trim_end,
    spec_indent, spec_parse_u32, spec_lines, spec_join, spec_tokens, dec_val, split_lines,
    join_lines, split_tokens, trim_str, trim_end_str, get_indent, str_len, str_eq,
    strip_prefix_str, starts_with_str, parse_u32_str, substr,
};

verus! {

// ---------------------------------------------------------------------------
// Indentation normalization
// ---------------------------------------------------------------------------
/// Minimum leading-space count over the non-blank lines (after trailing
/// whitespace is removed), or 0 when every line is blank.
pub open spec fn spec_min_indent(lines: Seq<Seq<char>>, i: int, cur: Option<int>) -> Option<int>
    decreases lines.len() - i,
    when 0 <= i <= lines.len()
{
    if i >= lines.len() {
        cur
    } else {
        let t = spec_trim_end(lines[i]);
        let next = if spec_trim(t).len() == 0 {
            cur
        } else {
            let ind = spec_indent(t);
            match cur {
                Some(m) => if ind < m {
                    Some(ind)
                } else {
                    cur
                },
                None => Some(ind),
            }
        };
        spec_min_indent(lines, i + 1, next)
    }
}

/// One line with its trailing whitespace removed and up to `m` leading
/// spaces stripped.
pub open spec fn spec_norm_line(line: Seq<char>, m: int) -> Seq<char> {
    let t = spec_trim_end(line);
    let ind = spec_indent(t);
    let drop = if m < ind {
        m
    } else {
        ind
    };
    if 0 <= drop <= t.len() {
        t.skip(drop)
    } else {
        t
    }
}

/// The change input with a common indentation baseline stripped, so the
/// caller's indentation level is irrelevant.
pub open spec fn spec_normalize(s: Seq<char>) -> Seq<char> {
    let lines = spec_lines(s);
    let m = match spec_min_indent(lines, 0, None) {
        Some(m) => m,
        None => 0,
    };
    spec_join(lines.map_values(|l: Seq<char>| spec_norm_line(l, m)))
}

/// Strip the common indentation baseline from every line.
pub fn normalize_indent(input: &str) -> (r: String)
    ensures
        r@ == spec_normalize(input@),
{
    let lines = split_lines(input);
    let ghost lv = lines@.map_values(|l: String| l@);
    proof {
        assert(lv =~= spec_lines(input@));
    }
    let n = lines.len();
    let mut min: Option<usize> = None;
    let mut i: usize = 0;
    while i < n
        invariant
            0 <= i <= n,
            n == lines@.len(),
            lv == spec_lines(input@),
            lv.len() == n,
            forall|k: int| 0 <= k < n ==> #[trigger] lines@[k]@ == lv[k],
            spec_min_indent(lv, 0, None) == spec_min_indent(lv, i as int, match min {
                Some(m) => Some(m as int),
                None => None,
            }),
        decreases n - i,
    {
        let t = trim_end_str(lines[i].as_str());
        let trimmed = trim_str(t);
        if str_len(trimmed) != 0 {
            let ind = get_indent(t);
            min = match min {
                Some(m) => if ind < m {
                    Some(ind)
                } else {
                    Some(m)
                },
                None => Some(ind),
            };
        }
        i += 1;
    }
    let m: usize = match min {
        Some(m) => m,
        None => 0,
    };
    let mut out: Vec<String> = Vec::new();
    let mut i: usize = 0;
    while i < n
        invariant
            0 <= i <= n,
            n == lines@.len(),
            lv == spec_lines(input@),
            lv.len() == n,
            forall|k: int| 0 <= k < n ==> #[trigger] lines@[k]@ == lv[k],
            out@.len() == i,
            forall|k: int|
                0 <= k < i ==> #[trigger] out@[k]@ == spec_norm_line(lv[k], m as int),
        decreases n - i,
    {
        let t = trim_end_str(lines[i].as_str());
        let ind = get_indent(t);
        let drop = if m < ind {
            m
        } else {
            ind
        };
        let stripped = substr(t, drop, str_len(t));
        out.push(stripped.to_owned());
        i += 1;
    }
    let r = join_lines(&out);
    proof {
        assert(out@.map_values(|l: String| l@) =~= lv.map_values(
            |l: Seq<char>| spec_norm_line(l, m as int),
        ));
    }
    r
}

// ---------------------------------------------------------------------------
// Statement matchers
// ---------------------------------------------------------------------------
/// `^<kw>\s+(.+)$`: the keyword, at least one whitespace character, then a
/// nonempty remainder, which is returned.
pub open spec fn spec_kw_arg(s: Seq<char>, kw: Seq<char>) -> Option<Seq<char>> {
    if has_prefix(s, kw) && kw.len() < s.len() && is_space(s[kw.len() as int]) {
        let w = scan_while(s, kw.len() as int, |c: char| is_space(c));
        if 0 <= w < s.len() {
            Some(s.skip(w))
        } else {
            None
        }
    } else {
        None
    }
}

/// Match `^<kw>\s+(.+)$` and return the remainder.
pub fn match_kw_arg<'a>(s: &'a str, kw: &str) -> (r: Option<&'a str>)
    ensures
        match r {
            Some(t) => spec_kw_arg(s@, kw@) == Some(t@),
            None => spec_kw_arg(s@, kw@) is None,
        },
{
    if !starts_with_str(s, kw) {
        return None;
    }
    let n = str_len(s);
    let k = str_len(kw);
    if k >= n {
        return None;
    }
    let c0 = s.get_char(k);
    if !(c0 == ' ' || c0 == '\t' || c0 == '\r' || c0 == '\n') {
        return None;
    }
    proof {
        lemma_scan_while(s@, k as int, |c: char| is_space(c));
    }
    let mut w: usize = k;
    while w < n && is_space_c(s.get_char(w))
        invariant
            k <= w <= n,
            n == s@.len(),
            k == kw@.len(),
            scan_while(s@, k as int, |c: char| is_space(c)) == scan_while(
                s@,
                w as int,
                |c: char| is_space(c),
            ),
        decreases n - w,
    {
        w += 1;
    }
    if w < n {
        Some(substr(s, w, n))
    } else {
        None
    }
}

fn is_space_c(c: char) -> (r: bool)
    ensures
        r == is_space(c),
{
    c == ' ' || c == '\t' || c == '\r' || c == '\n'
}

// ---------------------------------------------------------------------------
// VLAN declarations
// ---------------------------------------------------------------------------
/// Model of `parse_vlan_line`: a `vlan <n> name <text>` declaration gives
/// the tag and its trimmed name; a bare `vlan <n>` is an error; anything
/// else starting `vlan ` is ignored.
pub open spec fn spec_parse_vlan_line(line: Seq<char>, span: Span) -> Result<
    Option<(u32, Option<(Seq<char>, Span)>)>,
    SpecDiag,
> {
    if !has_prefix(line, "vlan "@) {
        Ok(None)
    } else {
        let w = scan_while(line, 4, |c: char| is_space(c));
        let d = scan_while(line, w, |c: char| is_digit(c));
        if !(4 <= w <= d <= line.len()) || d == w {
            Ok(None)
        } else {
            let dig = line.subrange(w, d);
            let w2 = scan_while(line, d, |c: char| is_space(c));
            if w2 == line.len() {
                Err(SpecDiag { kind: SpecErrorKind::VlanNameRequired { vlan: None }, span: Some(span) })
            } else if w2 > d && has_prefix(line.skip(w2), "name"@) && w2 + 4 < line.len()
                && is_space(line[w2 + 4]) {
                let w3 = scan_while(line, w2 + 4, |c: char| is_space(c));
                if 0 <= w3 < line.len() {
                    if dec_val(dig) <= u32::MAX {
                        let name = spec_trim(line.skip(w3));
                        if name.len() == 0 {
                            Err(
                                SpecDiag {
                                    kind: SpecErrorKind::VlanNameRequired {
                                        vlan: Some(dec_val(dig) as u32),
                                    },
                                    span: Some(span),
                                },
                            )
                        } else {
                            Ok(Some((dec_val(dig) as u32, Some((name, span)))))
                        }
                    } else {
                        Err(
                            SpecDiag {
                                kind: SpecErrorKind::InvalidVlanId { text: line },
                                span: None,
                            },
                        )
                    }
                } else {
                    Ok(None)
                }
            } else {
                Ok(None)
            }
        }
    }
}

/// Parse a single `vlan` statement, returning the tag and optional name.
pub fn parse_vlan_line(line: &str, span: Span) -> (r: Result<
    Option<(VlanId, Option<Spanned<String>>)>,
    Diagnostic,
>)
    ensures
        match r {
            Ok(o) => spec_parse_vlan_line(line@, span) == Ok::<_, SpecDiag>(
                match o {
                    Some(p) => Some(
                        (
                            p.0.0,
                            match p.1 {
                                Some(sp) => Some((sp.value@, sp.span)),
                                None => None,
                            },
                        ),
                    ),
                    None => None,
                },
            ),
            Err(d) => spec_parse_vlan_line(line@, span) == Err::<Option<(u32, Option<(Seq<char>, Span)>)>, _>(diag_view(d)),
        },
{
    if !starts_with_str(line, "vlan ") {
        return Ok(None);
    }
    let n = str_len(line);
    proof {
        reveal_strlit("vlan ");
        lemma_scan_while(line@, 4, |c: char| is_space(c));
    }
    let mut w: usize = 4;
    while w < n && is_space_c(line.get_char(w))
        invariant
            4 <= w <= n,
            n == line@.len(),
            scan_while(line@, 4, |c: char| is_space(c)) == scan_while(
                line@,
                w as int,
                |c: char| is_space(c),
            ),
        decreases n - w,
    {
        w += 1;
    }
    proof {
        lemma_scan_while(line@, w as int, |c: char| is_digit(c));
    }
    let mut d: usize = w;
    while d < n && is_digit_c(line.get_char(d))
        invariant
            w <= d <= n,
            n == line@.len(),
            scan_while(line@, w as int, |c: char| is_digit(c)) == scan_while(
                line@,
                d as int,
                |c: char| is_digit(c),
            ),
        decreases n - d,
    {
        d += 1;
    }
    if d == w {
        return Ok(None);
    }
    let dig = substr(line, w, d);
    proof {
        lemma_scan_while(line@, d as int, |c: char| is_space(c));
    }
    let mut w2: usize = d;
    while w2 < n && is_space_c(line.get_char(w2))
        invariant
            d <= w2 <= n,
            n == line@.len(),
            scan_while(line@, d as int, |c: char| is_space(c)) == scan_while(
                line@,
                w2 as int,
                |c: char| is_space(c),
            ),
        decreases n - w2,
    {
        w2 += 1;
    }
    if w2 == n {
        return Err(Diagnostic::with_span(ErrorKind::VlanNameRequired { vlan: None }, span));
    }
    let rest = substr(line, w2, n);
    if w2 > d && starts_with_str(rest, "name") && n - w2 > 4 && is_space_c(line.get_char(w2 + 4)) {
        proof {
            lemma_scan_while(line@, w2 + 4, |c: char| is_space(c));
        }
        let mut w3: usize = w2 + 4;
        while w3 < n && is_space_c(line.get_char(w3))
            invariant
                w2 + 4 <= w3 <= n,
                n == line@.len(),
                scan_while(line@, w2 + 4, |c: char| is_space(c)) == scan_while(
                    line@,
                    w3 as int,
                    |c: char| is_space(c),
                ),
            decreases n - w3,
        {
            w3 += 1;
        }
        if w3 < n {
            assert(dig@[0] != '+');
            match parse_u32_str(dig) {
                Some(v) => {
                    let name = trim_str(substr(line, w3, n));
                    if str_len(name) == 0 {
                        Err(
                            Diagnostic::with_span(
                                ErrorKind::VlanNameRequired { vlan: Some(v) },
                                span,
                            ),
                        )
                    } else {
                        Ok(Some((VlanId::new(v), Some(Spanned::new(name.to_owned(), span)))))
                    }
                },
                None => {
                    proof {
                        lemma_scan_while(line@, w as int, |c: char| is_digit(c));
                    }
                    Err(
                        Diagnostic::new(
                            ErrorKind::InvalidVlanId { text: line.to_owned() },
                        ),
                    )
                },
            }
        } else {
            Ok(None)
        }
    } else {
        Ok(None)
    }
}

fn is_digit_c(c: char) -> (r: bool)
    ensures
        r == is_digit(c),
{
    let cu = c as u32;
    cu >= 48 && cu <= 57
}

// ---------------------------------------------------------------------------
// VLAN lists and ranges
// ---------------------------------------------------------------------------
/// The tags `start..=end`, ascending.
pub open spec fn spec_range_seq(start: u32, end: u32) -> Seq<u32> {
    Seq::new((end - start + 1) as nat, |i: int| (start + i) as u32)
}

/// Expansion of a single VLAN list token: either a number or an inclusive
/// `start-end` range.
pub open spec fn spec_vlan_token(t: Seq<char>) -> Result<Seq<u32>, SpecErrorKind> {
    let d1 = scan_while(t, 0, |c: char| c != '-');
    if !(0 <= d1 <= t.len()) {
        Err(SpecErrorKind::InvalidVlanNumber { text: t })
    } else if d1 == t.len() {
        match spec_parse_u32(t) {
            Some(v) => Ok(seq![v]),
            None => Err(SpecErrorKind::InvalidVlanNumber { text: t }),
        }
    } else {
        let d2 = scan_while(t, d1 + 1, |c: char| c != '-');
        if !(d1 + 1 <= d2 <= t.len()) || d2 < t.len() {
            Err(SpecErrorKind::InvalidVlanNumber { text: t })
        } else {
            match spec_parse_u32(t.subrange(0, d1)) {
                Some(start) => match spec_parse_u32(t.skip(d1 + 1)) {
                    Some(end) => if start > end {
                        Err(SpecErrorKind::InvalidVlanRange { text: t })
                    } else {
                        Ok(spec_range_seq(start, end))
                    },
                    None => Err(SpecErrorKind::InvalidVlanNumber { text: t }),
                },
                None => Err(SpecErrorKind::InvalidVlanNumber { text: t }),
            }
        }
    }
}

/// Expansion of the whole list from token `i` on.
pub open spec fn spec_vlan_list_from(toks: Seq<Seq<char>>, i: int) -> Result<
    Seq<u32>,
    SpecErrorKind,
>
    decreases toks.len() - i,
    when 0 <= i <= toks.len()
{
    if i >= toks.len() {
        Ok(Seq::empty())
    } else {
        match spec_vlan_token(toks[i]) {
            Ok(vs) => match spec_vlan_list_from(toks, i + 1) {
                Ok(rest) => Ok(vs + rest),
                Err(e) => Err(e),
            },
            Err(e) => Err(e),
        }
    }
}

/// Model of `parse_vlan_list`: whitespace-separated numbers and inclusive
/// ranges; an empty list, a malformed number, or a backwards range is
/// rejected.
pub open spec fn spec_parse_vlan_list(list: Seq<char>) -> Result<Seq<u32>, SpecErrorKind> {
    if spec_trim(list).len() == 0 {
        Err(SpecErrorKind::VlanListEmpty)
    } else {
        spec_vlan_list_from(spec_tokens(list), 0)
    }
}

/// Expand one token of a VLAN list.
fn parse_vlan_token(t: &str) -> (r: Result<Vec<VlanId>, Diagnostic>)
    ensures
        match r {
            Ok(vs) => spec_vlan_token(t@) == Ok::<_, SpecErrorKind>(
                vs@.map_values(|v: VlanId| v.0),
            ),
            Err(d) => spec_vlan_token(t@) == Err::<Seq<u32>, _>(ek_view(d.kind)) && d.span is None,
        },
{
    let n = str_len(t);
    let d1 = match crate::text::find_char(t, '-') {
        Some(j) => j,
        None => n,
    };
    if d1 == n {
        match parse_u32_str(t) {
            Some(v) => {
                let mut out: Vec<VlanId> = Vec::new();
                out.push(VlanId::new(v));
                proof {
                    assert(out@.map_values(|v: VlanId| v.0) =~= seq![v]);
                }
                Ok(out)
            },
            None => Err(Diagnostic::new(ErrorKind::InvalidVlanNumber { text: t.to_owned() })),
        }
    } else {
        let d2 = match crate::text::find_char_from(t, d1 + 1, '-') {
            Some(j) => j,
            None => n,
        };
        if d2 < n {
            return Err(Diagnostic::new(ErrorKind::InvalidVlanNumber { text: t.to_owned() }));
        }
        let part0 = substr(t, 0, d1);
        let part1 = substr(t, d1 + 1, n);
        proof {
            assert(part1@ =~= t@.skip(d1 + 1));
        }
        match parse_u32_str(part0) {
            Some(start) => match parse_u32_str(part1) {
                Some(end) => {
                    if start > end {
                        Err(
                            Diagnostic::new(ErrorKind::InvalidVlanRange { text: t.to_owned() }),
                        )
                    } else {
                        let count: u64 = ((end - start) as u64) + 1;
                        let mut out: Vec<VlanId> = Vec::new();
                        let mut k: u64 = 0;
                        while k < count
                            invariant
                                0 <= k <= count,
                                count == end - start + 1,
                                start <= end,
                                out@.len() == k,
                                forall|j: int|
                                    0 <= j < k ==> #[trigger] out@[j].0 == start + j,
                            decreases count - k,
                        {
                            out.push(VlanId::new(start + (k as u32)));
                            k += 1;
                        }
                        proof {
                            assert(out@.map_values(|v: VlanId| v.0) =~= spec_range_seq(
                                start,
                                end,
                            ));
                        }
                        Ok(out)
                    }
                },
                None => Err(
                    Diagnostic::new(ErrorKind::InvalidVlanNumber { text: t.to_owned() }),
                ),
            },
            None => Err(Diagnostic::new(ErrorKind::InvalidVlanNumber { text: t.to_owned() })),
        }
    }
}

/// Parse a whitespace-separated VLAN list (supports ranges like `300-305`).
pub fn parse_vlan_list(list: &str) -> (r: Result<Vec<VlanId>, Diagnostic>)
    ensures
        match r {
            Ok(vs) => spec_parse_vlan_list(list@) == Ok::<_, SpecErrorKind>(
                vs@.map_values(|v: VlanId| v.0),
            ),
            Err(d) => spec_parse_vlan_list(list@) == Err::<Seq<u32>, _>(ek_view(d.kind))
                && d.span is None,
        },
{
    let trimmed = trim_str(list);
    if str_len(trimmed) == 0 {
        return Err(Diagnostic::new(ErrorKind::VlanListEmpty));
    }
    let toks = split_tokens(list);
    let ghost tv = spec_tokens(list@);
    let n = toks.len();
    let mut out: Vec<VlanId> = Vec::new();
    let mut i: usize = 0;
    while i < n
        invariant
            0 <= i <= n,
            n == toks@.len(),
            tv == spec_tokens(list@),
            tv.len() == n,
            forall|k: int| 0 <= k < n ==> #[trigger] toks@[k]@ == tv[k],
            spec_vlan_list_from(tv, 0) matches Ok(all) && all == out@.map_values(|v: VlanId| v.0)
                + (match spec_vlan_list_from(tv, i as int) {
                Ok(rest) => rest,
                Err(_) => Seq::empty(),
            }) || spec_vlan_list_from(tv, 0) == spec_vlan_list_from(tv, i as int),
            spec_vlan_list_from(tv, 0) is Err ==> spec_vlan_list_from(tv, 0)
                == spec_vlan_list_from(tv, i as int),
            spec_vlan_list_from(tv, 0) is Ok ==> spec_vlan_list_from(tv, i as int) is Ok
                && spec_vlan_list_from(tv, 0)->Ok_0 == out@.map_values(|v: VlanId| v.0)
                + spec_vlan_list_from(tv, i as int)->Ok_0,
        decreases n - i,
    {
        let ghost pre = out@;
        match parse_vlan_token(toks[i].as_str()) {
            Ok(mut vs) => {
                let ghost vsv = vs@.map_values(|v: VlanId| v.0);
                out.append(&mut vs);
                proof {
                    assert(out@.map_values(|v: VlanId| v.0) =~= pre.map_values(|v: VlanId| v.0)
                        + vsv);
                    if spec_vlan_list_from(tv, 0) is Ok {
                        assert((pre.map_values(|v: VlanId| v.0) + vsv) + spec_vlan_list_from(
                            tv,
                            i + 1,
                        )->Ok_0 =~= pre.map_values(|v: VlanId| v.0) + (vsv + spec_vlan_list_from(
                            tv,
                            i + 1,
                        )->Ok_0));
                    }
                }
            },
            Err(d) => {
                return Err(d);
            },
        }
        i += 1;
    }
    proof {
        assert(spec_vlan_list_from(tv, n as int) == Ok::<Seq<u32>, SpecErrorKind>(Seq::empty()));
        if spec_vlan_list_from(tv, 0) is Ok {
            assert(out@.map_values(|v: VlanId| v.0) + Seq::<u32>::empty() =~= out@.map_values(
                |v: VlanId| v.0,
            ));
        }
    }
    Ok(out)
}

// ---------------------------------------------------------------------------
// Trunk statements
// ---------------------------------------------------------------------------
/// `^switchport trunk allowed vlan (add|remove)\s+(.+)$`: the action and
/// the VLAN list text.
pub open spec fn spec_trunk_stmt(t: Seq<char>) -> Option<(bool, Seq<char>)> {
    if has_prefix(t, "switchport trunk allowed vlan "@) {
        let r = t.skip("switchport trunk allowed vlan "@.len() as int);
        match spec_kw_arg(r, "add"@) {
            Some(l) => Some((true, l)),
            None => match spec_kw_arg(r, "remove"@) {
                Some(l) => Some((false, l)),
                None => None,
            },
        }
    } else {
        None
    }
}

/// Match a trunk add/remove statement; `true` means add.
pub fn match_trunk_stmt<'a>(t: &'a str) -> (r: Option<(bool, &'a str)>)
    ensures
        match r {
            Some(p) => spec_trunk_stmt(t@) == Some((p.0, p.1@)),
            None => spec_trunk_stmt(t@) is None,
        },
{
    match strip_prefix_str(t, "switchport trunk allowed vlan ") {
        Some(rest) => {
            match match_kw_arg(rest, "add") {
                Some(l) => Some((true, l)),
                None => match match_kw_arg(rest, "remove") {
                    Some(l) => Some((false, l)),
                    None => None,
                },
            }
        },
        None => None,
    }
}

/// Register each listed VLAN with the statement's span, later statements
/// overwriting earlier spans for the same tag.
pub open spec fn spec_add_vlans(m: Seq<(u32, Span)>, vs: Seq<u32>, i: int, span: Span) -> Seq<
    (u32, Span),
>
    decreases vs.len() - i,
    when 0 <= i <= vs.len()
{
    if i >= vs.len() {
        m
    } else {
        spec_add_vlans(omap_insert(m, vs[i], span, u32_lt()), vs, i + 1, span)
    }
}

// ---------------------------------------------------------------------------
// Scanning the statements of an interface block
// ---------------------------------------------------------------------------
/// How one statement of an interface block updates the gathered change.
///
/// The rules are tried in priority order: `description`, exact
/// `switchport mode trunk`, any other `switchport mode`, `switchport
/// access vlan`, trunk add/remove, then pass-through for any line not
/// starting `switchport`.
pub open spec fn spec_if_stmt_step(
    ic: SpecInterfaceChange,
    has: bool,
    text: Seq<char>,
    span: Span,
) -> Result<(SpecInterfaceChange, bool), SpecDiag> {
    let t = spec_trim_end(text);
    match spec_kw_arg(t, "description"@) {
        Some(rest) => {
            let desc = spec_trim(rest);
            let ic2 = if desc.len() > 0 {
                SpecInterfaceChange {
                    description: if ic.description is None {
                        Some((desc, span))
                    } else {
                        ic.description
                    },
                    other_statements: ic.other_statements.push(("description "@ + desc, span)),
                    ..ic
                }
            } else {
                ic
            };
            Ok((ic2, true))
        },
        None => match spec_kw_arg(t, "switchport mode"@) {
            Some(mode) => if mode == "trunk"@ {
                Ok((ic, true))
            } else {
                Err(
                    SpecDiag {
                        kind: SpecErrorKind::UnsupportedSwitchportMode { mode },
                        span: Some(span),
                    },
                )
            },
            None => {
                if has_prefix(t, "switchport access vlan"@) {
                    Err(SpecDiag { kind: SpecErrorKind::AccessModeNotSupported, span: Some(span) })
                } else {
                    match spec_trunk_stmt(t) {
                        Some((is_add, list)) => match spec_parse_vlan_list(list) {
                            Ok(vs) => {
                                let ic2 = if is_add {
                                    SpecInterfaceChange {
                                        trunk_add: spec_add_vlans(ic.trunk_add, vs, 0, span),
                                        ..ic
                                    }
                                } else {
                                    SpecInterfaceChange {
                                        trunk_remove: spec_add_vlans(ic.trunk_remove, vs, 0, span),
                                        ..ic
                                    }
                                };
                                Ok((ic2, true))
                            },
                            Err(k) => Err(SpecDiag { kind: k, span: None }),
                        },
                        None => {
                            if !has_prefix(t, "switchport"@) {
                                Ok(
                                    (
                                        SpecInterfaceChange {
                                            other_statements: ic.other_statements.push((t, span)),
                                            ..ic
                                        },
                                        true,
                                    ),
                                )
                            } else {
                                Ok((ic, has))
                            }
                        },
                    }
                }
            },
        },
    }
}

/// Scan the statements of an interface block from child `j` on.
pub open spec fn spec_scan_if_stmts(
    children: Seq<crate::parse::SpecNode>,
    j: int,
    ic: SpecInterfaceChange,
    has: bool,
) -> Result<(SpecInterfaceChange, bool), SpecDiag>
    decreases children.len() - j,
    when 0 <= j <= children.len()
{
    if j >= children.len() {
        Ok((ic, has))
    } else {
        match children[j] {
            crate::parse::SpecNode::Stmt { text, span } => match spec_if_stmt_step(
                ic,
                has,
                text,
                span,
            ) {
                Ok(p) => spec_scan_if_stmts(children, j + 1, p.0, p.1),
                Err(e) => Err(e),
            },
            crate::parse::SpecNode::Block { .. } => spec_scan_if_stmts(children, j + 1, ic, has),
        }
    }
}

/// Apply one interface-block statement to the gathered change.
fn apply_if_stmt(ic: &mut InterfaceChange, has: &mut bool, text: &str, span: Span) -> (r: Result<
    (),
    Diagnostic,
>)
    requires
        old(ic).wf(),
    ensures
        match r {
            Ok(_) => final(ic).wf() && spec_if_stmt_step(
                ic_view(*old(ic)),
                *old(has),
                text@,
                span,
            ) == Ok::<_, SpecDiag>((ic_view(*final(ic)), *final(has))),
            Err(d) => spec_if_stmt_step(ic_view(*old(ic)), *old(has), text@, span) == Err::<
                (SpecInterfaceChange, bool),
                _,
            >(diag_view(d)),
        },
{
    let t = trim_end_str(text);
    match match_kw_arg(t, "description") {
        Some(rest) => {
            let desc = trim_str(rest);
            if str_len(desc) > 0 {
                if ic.description.is_none() {
                    ic.description = Some(Spanned::new(desc.to_owned(), span));
                }
                let ghost pre = ic.other_statements@;
                let mut st = String::new();
                st.append("description ");
                st.append(desc);
                ic.other_statements.push(SpannedNodeStmt { stmt: st, span });
                proof {
                    assert(crate::model::stmts_view(ic.other_statements@)
                        =~= crate::model::stmts_view(pre).push(("description "@ + desc@, span)));
                }
            }
            *has = true;
            Ok(())
        },
        None => {
            match match_kw_arg(t, "switchport mode") {
                Some(mode) => {
                    if str_eq(mode, "trunk") {
                        *has = true;
                        Ok(())
                    } else {
                        Err(
                            Diagnostic::with_span(
                                ErrorKind::UnsupportedSwitchportMode { mode: mode.to_owned() },
                                span,
                            ),
                        )
                    }
                },
                None => {
                    if starts_with_str(t, "switchport access vlan") {
                        return Err(
                            Diagnostic::with_span(ErrorKind::AccessModeNotSupported, span),
                        );
                    }
                    match match_trunk_stmt(t) {
                        Some(p) => {
                            let vs = match parse_vlan_list(p.1) {
                                Ok(vs) => vs,
                                Err(d) => {
                                    return Err(d);
                                },
                            };
                            let ghost vsv = vs@.map_values(|v: VlanId| v.0);
                            let n = vs.len();
                            let mut k: usize = 0;
                            if p.0 {
                                while k < n
                                    invariant
                                        0 <= k <= n,
                                        n == vs@.len(),
                                        vsv == vs@.map_values(|v: VlanId| v.0),
                                        ic.trunk_add.wf(),
                                        spec_add_vlans(
                                            ic_view(*old(ic)).trunk_add,
                                            vsv,
                                            0,
                                            span,
                                        ) == spec_add_vlans(ic.trunk_add@, vsv, k as int, span),
                                        ic.trunk_remove == old(ic).trunk_remove,
                                        ic.description == old(ic).description,
                                        ic.trunk_clear == old(ic).trunk_clear,
                                        ic.trunk_set == old(ic).trunk_set,
                                        ic.other_statements == old(ic).other_statements,
                                        old(ic).wf(),
                                    decreases n - k,
                                {
                                    ic.trunk_add.insert(vs[k].get(), span);
                                    k += 1;
                                }
                            } else {
                                while k < n
                                    invariant
                                        0 <= k <= n,
                                        n == vs@.len(),
                                        vsv == vs@.map_values(|v: VlanId| v.0),
                                        ic.trunk_remove.wf(),
                                        spec_add_vlans(
                                            ic_view(*old(ic)).trunk_remove,
                                            vsv,
                                            0,
                                            span,
                                        ) == spec_add_vlans(ic.trunk_remove@, vsv, k as int, span),
                                        ic.trunk_add == old(ic).trunk_add,
                                        ic.description == old(ic).description,
                                        ic.trunk_clear == old(ic).trunk_clear,
                                        ic.trunk_set == old(ic).trunk_set,
                                        ic.other_statements == old(ic).other_statements,
                                        old(ic).wf(),
                                    decreases n - k,
                                {
                                    ic.trunk_remove.insert(vs[k].get(), span);
                                    k += 1;
                                }
                            }
                            *has = true;
                            Ok(())
                        },
                        None => {
                            if !starts_with_str(t, "switchport") {
                                let ghost pre = ic.other_statements@;
                                ic.other_statements.push(
                                    SpannedNodeStmt { stmt: t.to_owned(), span },
                                );
                                proof {
                                    assert(crate::model::stmts_view(ic.other_statements@)
                                        =~= crate::model::stmts_view(pre).push((t@, span)));
                                }
                                *has = true;
                                Ok(())
                            } else {
                                Ok(())
                            }
                        },
                    }
                },
            }
        },
    }
}

// ---------------------------------------------------------------------------
// BVI interfaces
// ---------------------------------------------------------------------------
/// Register a bare `interface BVI<n>` declaration: the VLAN joins the BVI
/// additions.  A non-BVI name is left untouched here.
pub open spec fn spec_parse_interface_stmt(cs: SpecChangeSpec, ifname: Seq<char>) -> Result<
    SpecChangeSpec,
    SpecDiag,
> {
    if has_prefix(ifname, "BVI"@) {
        let suffix = ifname.skip(3);
        match spec_parse_u32(suffix) {
            Some(v) => Ok(
                SpecChangeSpec { bvi_additions: oset_insert(cs.bvi_additions, v), ..cs },
            ),
            None => Err(
                SpecDiag { kind: SpecErrorKind::InvalidBviNumber { text: suffix }, span: None },
            ),
        }
    } else {
        Ok(cs)
    }
}

/// The trimmed, nonempty statement lines under a BVI block, in order.
pub open spec fn spec_bvi_stmts(
    children: Seq<crate::parse::SpecNode>,
    j: int,
    acc: Seq<(Seq<char>, Span)>,
) -> Seq<(Seq<char>, Span)>
    decreases children.len() - j,
    when 0 <= j <= children.len()
{
    if j >= children.len() {
        acc
    } else {
        match children[j] {
            crate::parse::SpecNode::Stmt { text, span } => {
                let t = spec_trim_end(text);
                if t.len() > 0 {
                    spec_bvi_stmts(children, j + 1, acc.push((t, span)))
                } else {
                    spec_bvi_stmts(children, j + 1, acc)
                }
            },
            crate::parse::SpecNode::Block { .. } => spec_bvi_stmts(children, j + 1, acc),
        }
    }
}

/// Record the pass-through statements of an `interface BVI<n>` block.
pub open spec fn spec_parse_bvi_block(
    cs: SpecChangeSpec,
    ifname: Seq<char>,
    children: Seq<crate::parse::SpecNode>,
) -> Result<SpecChangeSpec, SpecDiag> {
    if has_prefix(ifname, "BVI"@) {
        let suffix = ifname.skip(3);
        match spec_parse_u32(suffix) {
            Some(v) => Ok(
                SpecChangeSpec {
                    bvi_statements: omap_insert(
                        cs.bvi_statements,
                        v,
                        spec_bvi_stmts(children, 0, Seq::empty()),
                        u32_lt(),
                    ),
                    ..cs
                },
            ),
            None => Err(
                SpecDiag { kind: SpecErrorKind::InvalidBviNumber { text: suffix }, span: None },
            ),
        }
    } else {
        Ok(cs)
    }
}

/// Handle a bare interface declaration (a BVI addition).
fn parse_interface_stmt(cs: &mut ChangeSpec, ifname: &str) -> (r: Result<(), Diagnostic>)
    requires
        old(cs).wf(),
    ensures
        match r {
            Ok(_) => final(cs).wf() && spec_parse_interface_stmt(cs_view(*old(cs)), ifname@)
                == Ok::<_, SpecDiag>(cs_view(*final(cs))),
            Err(d) => spec_parse_interface_stmt(cs_view(*old(cs)), ifname@) == Err::<
                SpecChangeSpec,
                _,
            >(diag_view(d)),
        },
{
    proof {
        reveal_strlit("BVI");
    }
    match strip_prefix_str(ifname, "BVI") {
        Some(suffix) => {
            match parse_u32_str(suffix) {
                Some(v) => {
                    cs.bvi_additions.insert(v);
                    Ok(())
                },
                None => Err(
                    Diagnostic::new(ErrorKind::InvalidBviNumber { text: suffix.to_owned() }),
                ),
            }
        },
        None => Ok(()),
    }
}

/// Collect the pass-through statements of a BVI block.
fn parse_bvi_block(cs: &mut ChangeSpec, ifname: &str, block: &SpannedNodeBlock) -> (r: Result<
    (),
    Diagnostic,
>)
    requires
        old(cs).wf(),
    ensures
        match r {
            Ok(_) => final(cs).wf() && spec_parse_bvi_block(
                cs_view(*old(cs)),
                ifname@,
                crate::parse::nodes_view(block.stmts@),
            ) == Ok::<_, SpecDiag>(cs_view(*final(cs))),
            Err(d) => spec_parse_bvi_block(
                cs_view(*old(cs)),
                ifname@,
                crate::parse::nodes_view(block.stmts@),
            ) == Err::<SpecChangeSpec, _>(diag_view(d)),
        },
{
    let ghost ms = crate::parse::nodes_view(block.stmts@);
    proof {
        crate::parse::lemma_nodes_view(block.stmts@);
        reveal_strlit("BVI");
    }
    match strip_prefix_str(ifname, "BVI") {
        Some(suffix) => {
            let v = match parse_u32_str(suffix) {
                Some(v) => v,
                None => {
                    return Err(
                        Diagnostic::new(ErrorKind::InvalidBviNumber { text: suffix.to_owned() }),
                    );
                },
            };
            let n = block.stmts.len();
            let mut stmts: Vec<Spanned<String>> = Vec::new();
            proof {
                assert(crate::model::spanned_strs_view(stmts@) =~= Seq::<(Seq<char>, Span)>::empty());
            }
            let mut j: usize = 0;
            while j < n
                invariant
                    0 <= j <= n,
                    n == block.stmts@.len(),
                    ms == crate::parse::nodes_view(block.stmts@),
                    ms.len() == n,
                    forall|k: int|
                        0 <= k < n ==> #[trigger] ms[k] == crate::parse::node_view(
                            block.stmts@[k],
                        ),
                    spec_bvi_stmts(ms, 0, Seq::empty()) == spec_bvi_stmts(
                        ms,
                        j as int,
                        crate::model::spanned_strs_view(stmts@),
                    ),
                decreases n - j,
            {
                let ghost pre = stmts@;
                match &block.stmts[j] {
                    SpannedNode::Stmt(st) => {
                        let t = trim_end_str(st.stmt.as_str());
                        if str_len(t) > 0 {
                            stmts.push(Spanned::new(t.to_owned(), st.span));
                            proof {
                                assert(crate::model::spanned_strs_view(stmts@)
                                    =~= crate::model::spanned_strs_view(pre).push((t@, st.span)));
                            }
                        }
                    },
                    SpannedNode::Block(_) => {},
                }
                j += 1;
            }
            proof {
                lemma_map_vals_insert(cs.bvi_statements@, v, stmts, u32_lt(), f_bvi_stmts());
            }
            cs.bvi_statements.insert(v, stmts);
            Ok(())
        },
        None => Ok(()),
    }
}

// ---------------------------------------------------------------------------
// Interface blocks
// ---------------------------------------------------------------------------
/// Everything an `interface <name>` block contributes: the BVI addition or
/// the scanned interface change, rejecting blocks with no supported
/// statement.
pub open spec fn spec_parse_interface_block(
    cs: SpecChangeSpec,
    ifname: Seq<char>,
    children: Seq<crate::parse::SpecNode>,
    block_span: Span,
) -> Result<SpecChangeSpec, SpecDiag> {
    match spec_parse_interface_stmt(cs, ifname) {
        Err(e) => Err(e),
        Ok(cs2) => {
            if has_prefix(ifname, "BVI"@) {
                spec_parse_bvi_block(cs2, ifname, children)
            } else {
                let prev = match omap_get(cs2.interface_changes, ifname) {
                    Some(c) => c,
                    None => empty_ic(),
                };
                let rest = match omap_get(cs2.interface_changes, ifname) {
                    Some(_) => omap_remove(cs2.interface_changes, ifname),
                    None => cs2.interface_changes,
                };
                match spec_scan_if_stmts(children, 0, prev, false) {
                    Err(e) => Err(e),
                    Ok(p) => {
                        if !p.1 {
                            Err(
                                SpecDiag {
                                    kind: SpecErrorKind::InterfaceRequiresStatements {
                                        interface: ifname,
                                    },
                                    span: Some(block_span),
                                },
                            )
                        } else {
                            Ok(
                                SpecChangeSpec {
                                    interface_changes: omap_insert(rest, ifname, p.0, name_lt()),
                                    ..cs2
                                },
                            )
                        }
                    },
                }
            }
        },
    }
}

/// Parse an `interface <name>` block of the change input.
fn parse_interface_block(cs: &mut ChangeSpec, ifname: &str, block: &SpannedNodeBlock) -> (r:
    Result<(), Diagnostic>)
    requires
        old(cs).wf(),
    ensures
        match r {
            Ok(_) => final(cs).wf() && spec_parse_interface_block(
                cs_view(*old(cs)),
                ifname@,
                crate::parse::nodes_view(block.stmts@),
                block.span,
            ) == Ok::<_, SpecDiag>(cs_view(*final(cs))),
            Err(d) => spec_parse_interface_block(
                cs_view(*old(cs)),
                ifname@,
                crate::parse::nodes_view(block.stmts@),
                block.span,
            ) == Err::<SpecChangeSpec, _>(diag_view(d)),
        },
{
    let ghost ms = crate::parse::nodes_view(block.stmts@);
    proof {
        crate::parse::lemma_nodes_view(block.stmts@);
    }
    match parse_interface_stmt(cs, ifname) {
        Ok(_) => {},
        Err(d) => {
            return Err(d);
        },
    }
    if starts_with_str(ifname, "BVI") {
        return parse_bvi_block(cs, ifname, block);
    }
    let ghost cs2v = cs_view(*cs);
    let ghost preifc = cs.interface_changes@;
    proof {
        lemma_map_vals_get(cs.interface_changes@, ifname@, f_ic());
        lemma_map_vals_remove(cs.interface_changes@, ifname@, f_ic());
    }
    let mut ic: InterfaceChange = match cs.interface_changes.take(ifname) {
        Some(c) => {
            proof {
                crate::omap::lemma_omap_get_index(preifc, ifname@);
                let k = choose|k: int|
                    0 <= k < preifc.len() && #[trigger] preifc[k] == (ifname@, c);
                assert(preifc[k].1 == c);
            }
            c
        },
        None => InterfaceChange::new(),
    };
    proof {
        crate::omap::lemma_omap_remove_vals(preifc, ifname@);
        assert forall|k2: int|
            0 <= k2 < cs.interface_changes@.len() implies (
        #[trigger] cs.interface_changes@[k2].1).wf() by {
            if cs.interface_changes@ == preifc {
            } else {
                let i0 = choose|i0: int|
                    0 <= i0 < preifc.len() && #[trigger] preifc[i0] == cs.interface_changes@[k2];
            }
        }
    }
    let ghost restv = map_vals_now(cs.interface_changes@);
    let mut has_supported = false;
    let ghost ic0v = ic_view(ic);
    let n = block.stmts.len();
    let mut j: usize = 0;
    while j < n
        invariant
            0 <= j <= n,
            n == block.stmts@.len(),
            ms.len() == n,
            forall|k: int|
                0 <= k < n ==> #[trigger] ms[k] == crate::parse::node_view(block.stmts@[k]),
            ic.wf(),
            spec_scan_if_stmts(ms, 0, ic0v, false) == spec_scan_if_stmts(
                ms,
                j as int,
                ic_view(ic),
                has_supported,
            ),
        decreases n - j,
    {
        match &block.stmts[j] {
            SpannedNode::Stmt(st) => {
                match apply_if_stmt(&mut ic, &mut has_supported, st.stmt.as_str(), st.span) {
                    Ok(_) => {},
                    Err(d) => {
                        return Err(d);
                    },
                }
            },
            SpannedNode::Block(_) => {},
        }
        j += 1;
    }
    if !has_supported {
        return Err(
            Diagnostic::with_span(
                ErrorKind::InterfaceRequiresStatements { interface: ifname.to_owned() },
                block.span,
            ),
        );
    }
    let ghost preifs = cs.interface_changes@;
    proof {
        lemma_map_vals_insert(cs.interface_changes@, ifname@, ic, name_lt(), f_ic());
    }
    let ghost icfinal = ic;
    cs.interface_changes.insert(ifname.to_owned(), ic);
    proof {
        crate::omap::lemma_omap_insert_vals(preifs, ifname@, icfinal, name_lt());
        assert forall|k2: int|
            0 <= k2 < cs.interface_changes@.len() implies (
        #[trigger] cs.interface_changes@[k2].1).wf() by {
            if cs.interface_changes@[k2].1 == icfinal {
            } else {
                let i0 = choose|i0: int|
                    0 <= i0 < preifs.len() && #[trigger] preifs[i0] == cs.interface_changes@[k2];
            }
        }
    }
    Ok(())
}

/// The interface-change models of an association sequence.
pub open spec fn map_vals_now(
    s: Seq<(Seq<char>, InterfaceChange)>,
) -> Seq<(Seq<char>, SpecInterfaceChange)> {
    crate::omap::map_vals(s, f_ic())
}

// ---------------------------------------------------------------------------
// Top-level handling of tokenized change input
// ---------------------------------------------------------------------------
/// Register the `vlan <n> name <text>` declarations of a `vlan database`
/// block, scanning from child `j`.
pub open spec fn spec_vlan_block(
    children: Seq<crate::parse::SpecNode>,
    j: int,
    vlans: Seq<(u32, Option<(Seq<char>, Span)>)>,
) -> Result<Seq<(u32, Option<(Seq<char>, Span)>)>, SpecDiag>
    decreases children.len() - j,
    when 0 <= j <= children.len()
{
    if j >= children.len() {
        Ok(vlans)
    } else {
        match children[j] {
            crate::parse::SpecNode::Stmt { text, span } => match spec_parse_vlan_line(
                text,
                span,
            ) {
                Ok(Some(p)) => spec_vlan_block(
                    children,
                    j + 1,
                    omap_insert(vlans, p.0, p.1, u32_lt()),
                ),
                Ok(None) => spec_vlan_block(children, j + 1, vlans),
                Err(e) => Err(e),
            },
            crate::parse::SpecNode::Block { .. } => spec_vlan_block(children, j + 1, vlans),
        }
    }
}

/// What one block of the change input contributes to the specification.
pub open spec fn spec_handle_block(
    cs: SpecChangeSpec,
    name: Seq<char>,
    span: Span,
    children: Seq<crate::parse::SpecNode>,
) -> Result<SpecChangeSpec, SpecDiag> {
    if name == "vlan database"@ {
        match spec_vlan_block(children, 0, cs.vlans) {
            Ok(v) => Ok(SpecChangeSpec { vlans: v, ..cs }),
            Err(e) => Err(e),
        }
    } else if has_prefix(name, "interface "@) {
        let ifname = name.skip("interface "@.len() as int);
        let cs1 = SpecChangeSpec {
            interface_spans: omap_insert(cs.interface_spans, ifname, span, name_lt()),
            ..cs
        };
        spec_parse_interface_block(cs1, ifname, children, span)
    } else {
        Ok(cs)
    }
}

/// What one bare statement of the change input contributes.
pub open spec fn spec_handle_stmt(cs: SpecChangeSpec, text0: Seq<char>, span: Span) -> Result<
    SpecChangeSpec,
    SpecDiag,
> {
    let text = spec_trim(text0);
    if text.len() == 0 {
        Ok(cs)
    } else if has_prefix(text, "vlan "@) {
        match spec_parse_vlan_line(text, span) {
            Ok(Some(p)) => Ok(
                SpecChangeSpec { vlans: omap_insert(cs.vlans, p.0, p.1, u32_lt()), ..cs },
            ),
            Ok(None) => Ok(cs),
            Err(e) => Err(e),
        }
    } else if has_prefix(text, "interface "@) {
        let ifname = text.skip("interface "@.len() as int);
        let cs1 = SpecChangeSpec {
            interface_spans: omap_insert(cs.interface_spans, ifname, span, name_lt()),
            ..cs
        };
        if has_prefix(ifname, "BVI"@) {
            spec_parse_interface_stmt(cs1, ifname)
        } else {
            Err(
                SpecDiag {
                    kind: SpecErrorKind::InterfaceRequiresStatements { interface: ifname },
                    span: Some(span),
                },
            )
        }
    } else {
        Ok(cs)
    }
}

/// Fold every tokenized node of the change input into the specification,
/// stopping at the first error.
pub open spec fn spec_parse_nodes(
    ms: Seq<crate::parse::SpecNode>,
    i: int,
    cs: SpecChangeSpec,
) -> Result<SpecChangeSpec, SpecDiag>
    decreases ms.len() - i,
    when 0 <= i <= ms.len()
{
    if i >= ms.len() {
        Ok(cs)
    } else {
        let step = match ms[i] {
            crate::parse::SpecNode::Block { name, span, children } => spec_handle_block(
                cs,
                name,
                span,
                children,
            ),
            crate::parse::SpecNode::Stmt { text, span } => spec_handle_stmt(cs, text, span),
        };
        match step {
            Ok(cs2) => spec_parse_nodes(ms, i + 1, cs2),
            Err(e) => Err(e),
        }
    }
}

/// Model of `parse_change_input`: normalize the indentation baseline,
/// tokenize, and fold every node, stopping at the first error.
pub open spec fn spec_parse_change_input(input: Seq<char>) -> Result<SpecChangeSpec, SpecDiag> {
    let norm = spec_normalize(input);
    spec_parse_nodes(crate::parse::spec_tok(spec_lines(norm), 0).0, 0, empty_cs())
}

/// Process a parsed block node.
fn handle_block(block: &SpannedNodeBlock, cs: &mut ChangeSpec) -> (r: Result<(), Diagnostic>)
    requires
        old(cs).wf(),
    ensures
        match r {
            Ok(_) => final(cs).wf() && spec_handle_block(
                cs_view(*old(cs)),
                block.name@,
                block.span,
                crate::parse::nodes_view(block.stmts@),
            ) == Ok::<_, SpecDiag>(cs_view(*final(cs))),
            Err(d) => spec_handle_block(
                cs_view(*old(cs)),
                block.name@,
                block.span,
                crate::parse::nodes_view(block.stmts@),
            ) == Err::<SpecChangeSpec, _>(diag_view(d)),
        },
{
    let ghost ms = crate::parse::nodes_view(block.stmts@);
    proof {
        crate::parse::lemma_nodes_view(block.stmts@);
        reveal_strlit("interface ");
    }
    if str_eq(block.name.as_str(), "vlan database") {
        let n = block.stmts.len();
        let mut j: usize = 0;
        while j < n
            invariant
                0 <= j <= n,
                n == block.stmts@.len(),
                ms.len() == n,
                forall|k: int|
                    0 <= k < n ==> #[trigger] ms[k] == crate::parse::node_view(block.stmts@[k]),
                cs.wf(),
                cs_view(*cs) == (SpecChangeSpec { vlans: cs_view(*cs).vlans, ..cs_view(*old(cs)) }),
                spec_vlan_block(ms, 0, cs_view(*old(cs)).vlans) == spec_vlan_block(
                    ms,
                    j as int,
                    cs_view(*cs).vlans,
                ),
            decreases n - j,
        {
            match &block.stmts[j] {
                SpannedNode::Stmt(st) => {
                    match parse_vlan_line(st.stmt.as_str(), st.span) {
                        Ok(Some(p)) => {
                            proof {
                                lemma_map_vals_insert(
                                    cs.vlans@,
                                    p.0.0,
                                    p.1,
                                    u32_lt(),
                                    f_vlan_name(),
                                );
                            }
                            let (vid, name) = p;
                            cs.vlans.insert(vid.get(), name);
                        },
                        Ok(None) => {},
                        Err(d) => {
                            return Err(d);
                        },
                    }
                },
                SpannedNode::Block(_) => {},
            }
            j += 1;
        }
        return Ok(());
    }
    match strip_prefix_str(block.name.as_str(), "interface ") {
        Some(ifname) => {
            cs.interface_spans.insert(ifname.to_owned(), block.span);
            parse_interface_block(cs, ifname, block)
        },
        None => Ok(()),
    }
}

/// Process a standalone statement node.
fn handle_stmt(stmt: &SpannedNodeStmt, cs: &mut ChangeSpec) -> (r: Result<(), Diagnostic>)
    requires
        old(cs).wf(),
    ensures
        match r {
            Ok(_) => final(cs).wf() && spec_handle_stmt(cs_view(*old(cs)), stmt.stmt@, stmt.span)
                == Ok::<_, SpecDiag>(cs_view(*final(cs))),
            Err(d) => spec_handle_stmt(cs_view(*old(cs)), stmt.stmt@, stmt.span) == Err::<
                SpecChangeSpec,
                _,
            >(diag_view(d)),
        },
{
    proof {
        reveal_strlit("interface ");
        reveal_strlit("BVI");
    }
    let text = trim_str(stmt.stmt.as_str());
    if str_len(text) == 0 {
        return Ok(());
    }
    if starts_with_str(text, "vlan ") {
        match parse_vlan_line(text, stmt.span) {
            Ok(Some(p)) => {
                proof {
                    lemma_map_vals_insert(cs.vlans@, p.0.0, p.1, u32_lt(), f_vlan_name());
                }
                let (vid, name) = p;
                cs.vlans.insert(vid.get(), name);
                return Ok(());
            },
            Ok(None) => {
                return Ok(());
            },
            Err(d) => {
                return Err(d);
            },
        }
    }
    match strip_prefix_str(text, "interface ") {
        Some(ifname) => {
            cs.interface_spans.insert(ifname.to_owned(), stmt.span);
            if starts_with_str(ifname, "BVI") {
                parse_interface_stmt(cs, ifname)
            } else {
                Err(
                    Diagnostic::with_span(
                        ErrorKind::InterfaceRequiresStatements { interface: ifname.to_owned() },
                        stmt.span,
                    ),
                )
            }
        },
        None => Ok(()),
    }
}

proof fn lemma_norm_line_len(l: Seq<char>, m: int)
    ensures
        spec_norm_line(l, m).len() <= l.len(),
{
    crate::text::lemma_scan_back_while(l, l.len() as int, |c: char| is_space(c));
}

/// Parse simplified change input text into a `ChangeSpec`.
///
/// Fails with the first diagnostic encountered; there is no recovery and
/// no aggregation of several errors.
pub fn parse_change_input(input: &str) -> (r: Result<ChangeSpec, Diagnostic>)
    requires
        input@.len() < 0xFFFF_FFFFusize,
    ensures
        match r {
            Ok(cs) => cs.wf() && spec_parse_change_input(input@) == Ok::<_, SpecDiag>(
                cs_view(cs),
            ),
            Err(d) => spec_parse_change_input(input@) == Err::<SpecChangeSpec, _>(diag_view(d)),
        },
{
    let norm = normalize_indent(input);
    proof {
        let lines = spec_lines(input@);
        let m = match spec_min_indent(lines, 0, None) {
            Some(m) => m,
            None => 0,
        };
        let mapped = lines.map_values(|l: Seq<char>| spec_norm_line(l, m));
        assert forall|k: int| 0 <= k < mapped.len() implies #[trigger] mapped[k].len()
            <= lines[k].len() by {
            lemma_norm_line_len(lines[k], m);
        }
        crate::text::lemma_join_len_le(mapped, input@, 0);
    }
    let nodes = crate::parse::tokenize_spanned(norm.as_str());
    let ghost ms = crate::parse::spec_tokenize(norm@);
    proof {
        crate::parse::lemma_nodes_view(nodes@);
    }
    let mut cs = ChangeSpec::new();
    let n = nodes.len();
    let mut i: usize = 0;
    while i < n
        invariant
            0 <= i <= n,
            n == nodes@.len(),
            ms == crate::parse::nodes_view(nodes@),
            ms.len() == n,
            forall|k: int|
                0 <= k < n ==> #[trigger] ms[k] == crate::parse::node_view(nodes@[k]),
            cs.wf(),
            spec_parse_nodes(ms, 0, empty_cs()) == spec_parse_nodes(ms, i as int, cs_view(cs)),
        decreases n - i,
    {
        match &nodes[i] {
            SpannedNode::Block(b) => {
                match handle_block(b, &mut cs) {
                    Ok(_) => {},
                    Err(d) => {
                        return Err(d);
                    },
                }
            },
            SpannedNode::Stmt(st) => {
                match handle_stmt(st, &mut cs) {
                    Ok(_) => {},
                    Err(d) => {
                        return Err(d);
                    },
                }
            },
        }
        i += 1;
    }
    Ok(cs)
}

} // verus!
