//! Semantic analysis of the base configuration: bridge-domains and their
//! member interfaces.

use vstd::prelude::*;
use crate::node::{Node, NodeBlock};
use crate::parse::{PNode, pnode_view, pnodes_view, lemma_pnodes_view};
use crate::text::{
    all_digits, dec_val, spec_trim, spec_parse_u32, has_prefix, has_suffix, is_space, scan_while,
    str_len, str_eq, find_char, substr, trim_str, starts_with_str, ends_with_str,
    strip_prefix_str, parse_u32_str, contains_char,
};

verus! {

/// Model of a bridge-domain found in the base configuration.
pub struct SpecBridgeDomain {
    /// VLAN tag from the `bridge-domain VLAN<n>` header.
    pub vlan_tag: u32,
    /// Member interface names, in source order.
    pub interfaces: Seq<Seq<char>>,
    /// First `description` statement, trimmed, if any.
    pub description: Option<Seq<char>>,
}

/// Splitting of `<base>.<suffix>` where the base holds no dot and the
/// suffix is all digits (possibly empty).  The numeric part is `None` when
/// the suffix is empty or does not fit in `u32`.
pub open spec fn spec_split_subif(s: Seq<char>) -> Option<(Seq<char>, Option<u32>)> {
    let d = scan_while(s, 0, |c: char| c != '.');
    if 0 < d < s.len() {
        let base = s.subrange(0, d);
        let suffix = s.subrange(d + 1, s.len() as int);
        if all_digits(suffix) {
            if suffix.len() > 0 && dec_val(suffix) <= u32::MAX {
                Some((base, Some(dec_val(suffix) as u32)))
            } else {
                Some((base, None))
            }
        } else {
            None
        }
    } else {
        None
    }
}

/// Split an interface name into its base name and numeric subinterface
/// suffix, as in `TenGigE0/0/0/1.300`.
pub fn split_subinterface_id(name: &str) -> (r: Result<(String, Option<u32>), String>)
    ensures
        match r {
            Ok(p) => spec_split_subif(name@) == Some((p.0@, p.1)),
            Err(e) => spec_split_subif(name@) is None && e@ == "invalid ifname"@,
        },
{
    let n = str_len(name);
    match find_char(name, '.') {
        Some(d) if d > 0 => {
            let suffix = substr(name, d + 1, n);
            let m = str_len(suffix);
            let mut i: usize = 0;
            while i < m
                invariant
                    0 <= i <= m,
                    m == suffix@.len(),
                    forall|k: int| 0 <= k < i ==> crate::text::is_digit(#[trigger] suffix@[k]),
                decreases m - i,
            {
                let c = suffix.get_char(i);
                let cu = c as u32;
                if cu < 48 || cu > 57 {
                    return Err("invalid ifname".to_owned());
                }
                i += 1;
            }
            let base = substr(name, 0, d).to_owned();
            if m == 0 {
                Ok((base, None))
            } else {
                match parse_u32_str(suffix) {
                    Some(v) => {
                        assert(suffix@[0] != '+');
                        Ok((base, Some(v)))
                    },
                    None => {
                        assert(suffix@[0] != '+');
                        Ok((base, None))
                    },
                }
            }
        },
        _ => Err("invalid ifname".to_owned()),
    }
}

/// First `description <text>` statement among the children, trimmed.
pub open spec fn spec_first_description(ns: Seq<PNode>) -> Option<Seq<char>>
    decreases ns,
{
    if ns.len() == 0 {
        None
    } else {
        match ns[0] {
            PNode::Stmt { text } => {
                if has_prefix(text, "description "@) {
                    Some(spec_trim(text.skip("description "@.len() as int)))
                } else {
                    spec_first_description(ns.drop_first())
                }
            },
            PNode::Block { .. } => spec_first_description(ns.drop_first()),
        }
    }
}

/// Find the first `description` statement of a block's children.
pub fn find_description(stmts: &Vec<Node>) -> (r: Option<String>)
    ensures
        match r {
            Some(d) => spec_first_description(pnodes_view(stmts@)) == Some(d@),
            None => spec_first_description(pnodes_view(stmts@)) is None,
        },
{
    let ghost ms = pnodes_view(stmts@);
    proof {
        lemma_pnodes_view(stmts@);
        assert(ms.skip(0) =~= ms);
    }
    let n = stmts.len();
    let mut i: usize = 0;
    while i < n
        invariant
            0 <= i <= n,
            n == stmts@.len(),
            ms == pnodes_view(stmts@),
            ms.len() == n,
            forall|k: int| 0 <= k < n ==> #[trigger] ms[k] == pnode_view(stmts@[k]),
            spec_first_description(ms) == spec_first_description(ms.skip(i as int)),
        decreases n - i,
    {
        proof {
            assert(ms.skip(i as int)[0] == ms[i as int]);
            assert(ms.skip(i as int).drop_first() =~= ms.skip(i + 1));
        }
        match &stmts[i] {
            Node::Stmt(s) => {
                match strip_prefix_str(s.stmt.as_str(), "description ") {
                    Some(rest) => {
                        let d = trim_str(rest).to_owned();
                        return Some(d);
                    },
                    None => {},
                }
            },
            Node::Block(_) => {},
        }
        i += 1;
    }
    assert(ms.skip(n as int) =~= Seq::<PNode>::empty());
    None
}

/// `interface <token>` with a single space and a whitespace-free token.
pub open spec fn spec_if_member(s: Seq<char>) -> Option<Seq<char>> {
    if has_prefix(s, "interface "@) {
        let t = s.skip("interface "@.len() as int);
        if t.len() > 0 && (forall|k: int| 0 <= k < t.len() ==> !is_space(#[trigger] t[k])) {
            Some(t)
        } else {
            None
        }
    } else {
        None
    }
}

/// Match a bridge-domain member line `interface <name>`.
pub fn match_if_member(s: &str) -> (r: Option<String>)
    ensures
        match r {
            Some(t) => spec_if_member(s@) == Some(t@),
            None => spec_if_member(s@) is None,
        },
{
    match strip_prefix_str(s, "interface ") {
        Some(rest) => {
            let m = str_len(rest);
            if m == 0 {
                return None;
            }
            let mut i: usize = 0;
            while i < m
                invariant
                    0 <= i <= m,
                    m == rest@.len(),
                    forall|k: int| 0 <= k < i ==> !is_space(#[trigger] rest@[k]),
                decreases m - i,
            {
                let c = rest.get_char(i);
                if c == ' ' || c == '\t' || c == '\r' || c == '\n' {
                    return None;
                }
                i += 1;
            }
            Some(rest.to_owned())
        },
        None => None,
    }
}

/// The trailing decimal tag of a header `"<prefix><digits>"`, when the
/// whole header is exactly the prefix followed by one or more digits whose
/// value fits in `u32`.
pub open spec fn spec_tag_after(s: Seq<char>, prefix: Seq<char>) -> Option<u32> {
    if has_prefix(s, prefix) {
        let t = s.skip(prefix.len() as int);
        if t.len() > 0 && all_digits(t) && dec_val(t) <= u32::MAX {
            Some(dec_val(t) as u32)
        } else {
            None
        }
    } else {
        None
    }
}

/// Match a header of the shape `"<prefix><digits>"`.
pub fn match_tag_after(s: &str, prefix: &str) -> (r: Option<u32>)
    ensures
        r == spec_tag_after(s@, prefix@),
{
    match strip_prefix_str(s, prefix) {
        Some(rest) => {
            let m = str_len(rest);
            if m == 0 {
                return None;
            }
            let mut i: usize = 0;
            while i < m
                invariant
                    0 <= i <= m,
                    m == rest@.len(),
                    forall|k: int| 0 <= k < i ==> crate::text::is_digit(#[trigger] rest@[k]),
                decreases m - i,
            {
                let c = rest.get_char(i);
                let cu = c as u32;
                if cu < 48 || cu > 57 {
                    return None;
                }
                i += 1;
            }
            assert(rest@[0] != '+');
            parse_u32_str(rest)
        },
        None => None,
    }
}

/// Member interface lines of a bridge-domain block, in order.
pub open spec fn spec_bd_interfaces(ns: Seq<PNode>) -> Seq<Seq<char>>
    decreases ns,
{
    if ns.len() == 0 {
        Seq::empty()
    } else {
        let rest = spec_bd_interfaces(ns.drop_first());
        match ns[0] {
            PNode::Stmt { text } => match spec_if_member(text) {
                Some(t) => seq![t] + rest,
                None => rest,
            },
            PNode::Block { .. } => rest,
        }
    }
}

/// Model of `BridgeDomain::try_new`: what a `bridge-domain VLAN<n>` block
/// with its members and description parses to.
pub open spec fn spec_try_bd(m: PNode) -> Option<SpecBridgeDomain> {
    match m {
        PNode::Stmt { .. } => None,
        PNode::Block { name, children } => match spec_tag_after(name, "bridge-domain VLAN"@) {
            Some(tag) => Some(
                SpecBridgeDomain {
                    vlan_tag: tag,
                    interfaces: spec_bd_interfaces(children),
                    description: spec_first_description(children),
                },
            ),
            None => None,
        },
    }
}

/// A Layer-2 bridge-domain: one VLAN and its member interfaces.
#[derive(Debug)]
pub struct BridgeDomain {
    /// VLAN tag from the block header.
    pub vlan_tag: u32,
    /// Member interface names, in source order.
    pub interfaces: Vec<String>,
    /// First `description` statement of the block, trimmed.
    pub description: Option<String>,
}

/// Model of a bridge domain value.
pub open spec fn bd_view(b: BridgeDomain) -> SpecBridgeDomain {
    SpecBridgeDomain {
        vlan_tag: b.vlan_tag,
        interfaces: b.interfaces@.map_values(|s: String| s@),
        description: match b.description {
            Some(d) => Some(d@),
            None => None,
        },
    }
}

impl BridgeDomain {
    /// Parse a `bridge-domain VLAN<n>` block.
    pub fn try_new(block: &Node) -> (r: Option<BridgeDomain>)
        ensures
            match r {
                Some(b) => spec_try_bd(pnode_view(*block)) == Some(bd_view(b)),
                None => spec_try_bd(pnode_view(*block)) is None,
            },
    {
        let node_block = match block.as_block() {
            Some(b) => b,
            None => {
                return None;
            },
        };
        let vlan_tag = match match_tag_after(node_block.name.as_str(), "bridge-domain VLAN") {
            Some(t) => t,
            None => {
                return None;
            },
        };
        let ghost ms = pnodes_view(node_block.stmts@);
        proof {
            lemma_pnodes_view(node_block.stmts@);
        }
        let n = node_block.stmts.len();
        let mut interfaces: Vec<String> = Vec::new();
        proof {
            assert(ms.skip(0) =~= ms);
            assert(interfaces@.map_values(|s: String| s@) =~= Seq::<Seq<char>>::empty());
            assert(Seq::<Seq<char>>::empty() + spec_bd_interfaces(ms) =~= spec_bd_interfaces(ms));
        }
        let mut i: usize = 0;
        while i < n
            invariant
                0 <= i <= n,
                n == node_block.stmts@.len(),
                ms == pnodes_view(node_block.stmts@),
                ms.len() == n,
                forall|k: int| 0 <= k < n ==> #[trigger] ms[k] == pnode_view(node_block.stmts@[k]),
                spec_bd_interfaces(ms) == interfaces@.map_values(|s: String| s@)
                    + spec_bd_interfaces(ms.skip(i as int)),
            decreases n - i,
        {
            proof {
                assert(ms.skip(i as int)[0] == ms[i as int]);
                assert(ms.skip(i as int).drop_first() =~= ms.skip(i + 1));
            }
            let ghost pre = interfaces@;
            match &node_block.stmts[i] {
                Node::Stmt(s) => {
                    match match_if_member(s.stmt.as_str()) {
                        Some(t) => {
                            interfaces.push(t);
                            proof {
                                assert(interfaces@.map_values(|s: String| s@) =~= pre.map_values(
                                    |s: String| s@,
                                ).push(interfaces@[interfaces@.len() - 1]@));
                                assert(pre.map_values(|s: String| s@) + (seq![
                                    spec_if_member(ms[i as int]->Stmt_text)->0,
                                ] + spec_bd_interfaces(ms.skip(i + 1))) =~= (pre.map_values(
                                    |s: String| s@,
                                ).push(interfaces@[interfaces@.len() - 1]@)) + spec_bd_interfaces(
                                    ms.skip(i + 1),
                                ));
                            }
                        },
                        None => {},
                    }
                },
                Node::Block(_) => {},
            }
            i += 1;
        }
        proof {
            assert(ms.skip(n as int) =~= Seq::<PNode>::empty());
            assert(spec_bd_interfaces(Seq::<PNode>::empty()) =~= Seq::<Seq<char>>::empty());
            assert(interfaces@.map_values(|s: String| s@) + Seq::<Seq<char>>::empty()
                =~= interfaces@.map_values(|s: String| s@));
        }
        let description = find_description(&node_block.stmts);
        Some(BridgeDomain { vlan_tag, interfaces, description })
    }

    /// The bridge-domain's description, if one was declared.
    pub fn description(&self) -> (r: Option<&str>)
        ensures
            match r {
                Some(d) => bd_view(*self).description == Some(d@),
                None => bd_view(*self).description is None,
            },
    {
        match &self.description {
            Some(d) => Some(d.as_str()),
            None => None,
        }
    }
}

/// The children of the first block named `name`, scanning in order.
pub open spec fn spec_first_block_named(ns: Seq<PNode>, name: Seq<char>) -> Option<Seq<PNode>>
    decreases ns,
{
    if ns.len() == 0 {
        None
    } else {
        match ns[0] {
            PNode::Block { name: bn, children } => {
                if bn == name {
                    Some(children)
                } else {
                    spec_first_block_named(ns.drop_first(), name)
                }
            },
            PNode::Stmt { .. } => spec_first_block_named(ns.drop_first(), name),
        }
    }
}

/// Bridge-domain models recognised among the given nodes, in order.
pub open spec fn spec_bds_of(ns: Seq<PNode>) -> Seq<SpecBridgeDomain>
    decreases ns,
{
    if ns.len() == 0 {
        Seq::empty()
    } else {
        let rest = spec_bds_of(ns.drop_first());
        match spec_try_bd(ns[0]) {
            Some(b) => seq![b] + rest,
            None => rest,
        }
    }
}

/// Model of `get_bridge_domains`: the bridge-domains under
/// `l2vpn / bridge group VLAN`, when that nesting exists.
pub open spec fn spec_bridge_domains(ns: Seq<PNode>) -> Option<Seq<SpecBridgeDomain>> {
    match spec_first_block_named(ns, "l2vpn"@) {
        None => None,
        Some(ch) => match spec_first_block_named(ch, "bridge group VLAN"@) {
            None => None,
            Some(ch2) => Some(spec_bds_of(ch2)),
        },
    }
}

/// The models of the collected bridge domains.
pub open spec fn bds_view(ds: Seq<BridgeDomain>) -> Seq<SpecBridgeDomain> {
    ds.map_values(|d: BridgeDomain| bd_view(d))
}

/// Find the first block named `name` among the nodes.
fn find_block_named<'a>(config: &'a Vec<Node>, name: &str) -> (r: Option<&'a NodeBlock>)
    ensures
        match r {
            Some(b) => spec_first_block_named(pnodes_view(config@), name@) == Some(
                pnodes_view(b.stmts@),
            ),
            None => spec_first_block_named(pnodes_view(config@), name@) is None,
        },
{
    let ghost ms = pnodes_view(config@);
    proof {
        lemma_pnodes_view(config@);
        assert(ms.skip(0) =~= ms);
    }
    let n = config.len();
    let mut i: usize = 0;
    while i < n
        invariant
            0 <= i <= n,
            n == config@.len(),
            ms == pnodes_view(config@),
            ms.len() == n,
            forall|k: int| 0 <= k < n ==> #[trigger] ms[k] == pnode_view(config@[k]),
            spec_first_block_named(ms, name@) == spec_first_block_named(
                ms.skip(i as int),
                name@,
            ),
        decreases n - i,
    {
        proof {
            assert(ms.skip(i as int)[0] == ms[i as int]);
            assert(ms.skip(i as int).drop_first() =~= ms.skip(i + 1));
        }
        match &config[i] {
            Node::Block(b) => {
                if str_eq(b.name.as_str(), name) {
                    return Some(b);
                }
            },
            Node::Stmt(_) => {},
        }
        i += 1;
    }
    assert(ms.skip(n as int) =~= Seq::<PNode>::empty());
    None
}

/// Collect the bridge-domains declared under `l2vpn / bridge group VLAN`.
pub fn get_bridge_domains(config: &Vec<Node>) -> (r: Option<Vec<BridgeDomain>>)
    ensures
        match r {
            Some(ds) => spec_bridge_domains(pnodes_view(config@)) == Some(bds_view(ds@)),
            None => spec_bridge_domains(pnodes_view(config@)) is None,
        },
{
    let l2vpn = match find_block_named(config, "l2vpn") {
        Some(b) => b,
        None => {
            return None;
        },
    };
    let group = match find_block_named(&l2vpn.stmts, "bridge group VLAN") {
        Some(b) => b,
        None => {
            return None;
        },
    };
    let ghost ms = pnodes_view(group.stmts@);
    proof {
        lemma_pnodes_view(group.stmts@);
        assert(ms.skip(0) =~= ms);
    }
    let n = group.stmts.len();
    let mut out: Vec<BridgeDomain> = Vec::new();
    let mut i: usize = 0;
    while i < n
        invariant
            0 <= i <= n,
            n == group.stmts@.len(),
            ms == pnodes_view(group.stmts@),
            ms.len() == n,
            forall|k: int| 0 <= k < n ==> #[trigger] ms[k] == pnode_view(group.stmts@[k]),
            spec_bds_of(ms) == bds_view(out@) + spec_bds_of(ms.skip(i as int)),
        decreases n - i,
    {
        proof {
            assert(ms.skip(i as int)[0] == ms[i as int]);
            assert(ms.skip(i as int).drop_first() =~= ms.skip(i + 1));
        }
        let ghost pre = out@;
        match BridgeDomain::try_new(&group.stmts[i]) {
            Some(b) => {
                out.push(b);
                proof {
                    assert(bds_view(out@) =~= bds_view(pre).push(bd_view(out@[out@.len() - 1])));
                    assert(bds_view(pre) + (seq![bd_view(out@[out@.len() - 1])] + spec_bds_of(
                        ms.skip(i + 1),
                    )) =~= bds_view(pre).push(bd_view(out@[out@.len() - 1])) + spec_bds_of(
                        ms.skip(i + 1),
                    ));
                }
            },
            None => {},
        }
        i += 1;
    }
    proof {
        assert(ms.skip(n as int) =~= Seq::<PNode>::empty());
        assert(spec_bds_of(Seq::<PNode>::empty()) =~= Seq::<SpecBridgeDomain>::empty());
        assert(bds_view(out@) + Seq::<SpecBridgeDomain>::empty() =~= bds_view(out@));
    }
    Some(out)
}

// ---------------------------------------------------------------------------
// Consistency lint of the existing configuration
// ---------------------------------------------------------------------------
/// Model of an l2transport subinterface block.
pub struct SpecL2Transport {
    pub baseif: Seq<char>,
    pub sub_if_num: u32,
    pub encap: Option<u32>,
    pub has_rewrite: bool,
}

/// Header of the shape `interface <base>.<digits> l2transport`, where the
/// base holds no dot and the tag fits in `u32`.
pub open spec fn spec_l2_header(name: Seq<char>) -> Option<(Seq<char>, u32)> {
    if has_prefix(name, "interface "@) && has_suffix(name, " l2transport"@) && name.len()
        > "interface "@.len() + " l2transport"@.len() {
        let mid = name.subrange("interface "@.len() as int, name.len() - " l2transport"@.len());
        let d = scan_while(mid, 0, |c: char| c != '.');
        if 0 < d < mid.len() {
            let suffix = mid.subrange(d + 1, mid.len() as int);
            if suffix.len() > 0 && all_digits(suffix) && dec_val(suffix) <= u32::MAX {
                Some((mid.subrange(0, d), dec_val(suffix) as u32))
            } else {
                None
            }
        } else {
            None
        }
    } else {
        None
    }
}

/// First `encapsulation dot1q <n>` statement whose tag parses.
pub open spec fn spec_find_encap(ns: Seq<PNode>) -> Option<u32>
    decreases ns,
{
    if ns.len() == 0 {
        None
    } else {
        match ns[0] {
            PNode::Stmt { text } => match spec_encap_of(text) {
                Some(v) => Some(v),
                None => spec_find_encap(ns.drop_first()),
            },
            PNode::Block { .. } => spec_find_encap(ns.drop_first()),
        }
    }
}

/// `encapsulation dot1q <digits>` with a tag that fits in `u32`.
pub open spec fn spec_encap_of(text: Seq<char>) -> Option<u32> {
    if has_prefix(text, "encapsulation dot1q "@) {
        let t = text.skip("encapsulation dot1q "@.len() as int);
        if t.len() > 0 && all_digits(t) && dec_val(t) <= u32::MAX {
            Some(dec_val(t) as u32)
        } else {
            None
        }
    } else {
        None
    }
}

/// Whether any statement is the exact rewrite command.
pub open spec fn spec_has_rewrite(ns: Seq<PNode>) -> bool {
    exists|i: int|
        0 <= i < ns.len() && ((#[trigger] ns[i]) matches PNode::Stmt { text } && text
            == "rewrite ingress tag pop 1 symmetric"@)
}

/// Model of `L2TransportConfig::try_new`.
pub open spec fn spec_try_l2(m: PNode) -> Option<SpecL2Transport> {
    match m {
        PNode::Stmt { .. } => None,
        PNode::Block { name, children } => match spec_l2_header(name) {
            Some(p) => Some(
                SpecL2Transport {
                    baseif: p.0,
                    sub_if_num: p.1,
                    encap: spec_find_encap(children),
                    has_rewrite: spec_has_rewrite(children),
                },
            ),
            None => None,
        },
    }
}

/// An l2transport subinterface of the existing configuration, with the
/// facts the lint inspects.
#[derive(Debug)]
pub struct L2TransportConfig {
    /// Base interface name.
    pub baseif: String,
    /// Subinterface number from the header.
    pub sub_if_num: u32,
    /// The dot1q tag, when an encapsulation statement parses.
    pub encap: Option<u32>,
    /// Whether the ingress rewrite command is present.
    pub has_rewrite: bool,
}

/// Model of an l2transport value.
pub open spec fn l2_view(c: L2TransportConfig) -> SpecL2Transport {
    SpecL2Transport {
        baseif: c.baseif@,
        sub_if_num: c.sub_if_num,
        encap: c.encap,
        has_rewrite: c.has_rewrite,
    }
}

/// The lint messages of one l2transport subinterface.
pub open spec fn spec_l2_lint(c: SpecL2Transport) -> Seq<Seq<char>> {
    let a = Seq::<Seq<char>>::empty();
    let b = if !(c.encap matches Some(e) && e == c.sub_if_num) {
        a.push("sub-interface number と encapsulation tag が一致していない"@)
    } else {
        a
    };
    if !c.has_rewrite {
        b.push("rewrite ingress tag pop 1 symmetric が存在しない"@)
    } else {
        b
    }
}

impl L2TransportConfig {
    /// Parse an `interface <base>.<n> l2transport` block.
    pub fn try_new(node: &Node) -> (r: Option<L2TransportConfig>)
        ensures
            match r {
                Some(c) => spec_try_l2(pnode_view(*node)) == Some(l2_view(c)),
                None => spec_try_l2(pnode_view(*node)) is None,
            },
    {
        let block = match node.as_block() {
            Some(b) => b,
            None => {
                return None;
            },
        };
        let name = block.name.as_str();
        let n = str_len(name);
        proof {
            reveal_strlit("interface ");
            reveal_strlit(" l2transport");
        }
        if !starts_with_str(name, "interface ") || !ends_with_str(name, " l2transport")
            || n <= 22 {
            return None;
        }
        let mid = substr(name, 10, n - 12);
        let m = str_len(mid);
        let d = match find_char(mid, '.') {
            Some(j) => j,
            None => {
                return None;
            },
        };
        if d == 0 {
            return None;
        }
        let suffix = substr(mid, d + 1, m);
        let sl = str_len(suffix);
        if sl == 0 {
            return None;
        }
        let mut i: usize = 0;
        while i < sl
            invariant
                0 <= i <= sl,
                sl == suffix@.len(),
                forall|k: int| 0 <= k < i ==> crate::text::is_digit(#[trigger] suffix@[k]),
            decreases sl - i,
        {
            let c = suffix.get_char(i);
            let cu = c as u32;
            if cu < 48 || cu > 57 {
                return None;
            }
            i += 1;
        }
        assert(suffix@[0] != '+');
        let sub_if_num = match parse_u32_str(suffix) {
            Some(v) => v,
            None => {
                return None;
            },
        };
        let baseif = substr(mid, 0, d).to_owned();
        let encap = find_encap(&block.stmts);
        let has_rewrite = find_rewrite(&block.stmts);
        Some(L2TransportConfig { baseif, sub_if_num, encap, has_rewrite })
    }

    /// Internal-consistency findings for this subinterface.
    pub fn lint(&self) -> (r: Vec<String>)
        ensures
            r@.map_values(|s: String| s@) == spec_l2_lint(l2_view(*self)),
    {
        let mut ret: Vec<String> = Vec::new();
        let ok_encap = match self.encap {
            Some(e) => e == self.sub_if_num,
            None => false,
        };
        if !ok_encap {
            ret.push("sub-interface number と encapsulation tag が一致していない".to_owned());
        }
        if !self.has_rewrite {
            ret.push("rewrite ingress tag pop 1 symmetric が存在しない".to_owned());
        }
        proof {
            assert(ret@.map_values(|s: String| s@) =~= spec_l2_lint(l2_view(*self)));
        }
        ret
    }
}

/// Find the first parsable `encapsulation dot1q` statement.
fn find_encap(stmts: &Vec<Node>) -> (r: Option<u32>)
    ensures
        r == spec_find_encap(pnodes_view(stmts@)),
{
    let ghost ms = pnodes_view(stmts@);
    proof {
        lemma_pnodes_view(stmts@);
        assert(ms.skip(0) =~= ms);
        reveal_strlit("encapsulation dot1q ");
    }
    let n = stmts.len();
    let mut i: usize = 0;
    while i < n
        invariant
            0 <= i <= n,
            n == stmts@.len(),
            ms == pnodes_view(stmts@),
            ms.len() == n,
            forall|k: int| 0 <= k < n ==> #[trigger] ms[k] == pnode_view(stmts@[k]),
            spec_find_encap(ms) == spec_find_encap(ms.skip(i as int)),
        decreases n - i,
    {
        proof {
            assert(ms.skip(i as int)[0] == ms[i as int]);
            assert(ms.skip(i as int).drop_first() =~= ms.skip(i + 1));
        }
        match &stmts[i] {
            Node::Stmt(st) => {
                match strip_prefix_str(st.stmt.as_str(), "encapsulation dot1q ") {
                    Some(rest) => {
                        let rl = str_len(rest);
                        let mut all = rl > 0;
                        let mut k: usize = 0;
                        while k < rl
                            invariant
                                0 <= k <= rl,
                                rl == rest@.len(),
                                all == (rl > 0 && forall|j: int|
                                    0 <= j < k ==> crate::text::is_digit(#[trigger] rest@[j])),
                            decreases rl - k,
                        {
                            let c = rest.get_char(k);
                            let cu = c as u32;
                            if cu < 48 || cu > 57 {
                                all = false;
                            }
                            k += 1;
                        }
                        if all {
                            assert(rest@[0] != '+');
                            match parse_u32_str(rest) {
                                Some(v) => {
                                    return Some(v);
                                },
                                None => {},
                            }
                        } else {
                            assert(spec_encap_of(ms[i as int]->Stmt_text) is None) by {
                                if rest@.len() > 0 {
                                    let j = choose|j: int|
                                        0 <= j < rest@.len() && !crate::text::is_digit(
                                            #[trigger] rest@[j],
                                        );
                                }
                            }
                        }
                    },
                    None => {},
                }
            },
            Node::Block(_) => {},
        }
        i += 1;
    }
    assert(ms.skip(n as int) =~= Seq::<PNode>::empty());
    None
}

/// Whether the exact rewrite statement occurs.
fn find_rewrite(stmts: &Vec<Node>) -> (r: bool)
    ensures
        r == spec_has_rewrite(pnodes_view(stmts@)),
{
    let ghost ms = pnodes_view(stmts@);
    proof {
        lemma_pnodes_view(stmts@);
    }
    let n = stmts.len();
    let mut i: usize = 0;
    while i < n
        invariant
            0 <= i <= n,
            n == stmts@.len(),
            ms == pnodes_view(stmts@),
            ms.len() == n,
            forall|k: int| 0 <= k < n ==> #[trigger] ms[k] == pnode_view(stmts@[k]),
            forall|k: int|
                0 <= k < i ==> !((#[trigger] ms[k]) matches PNode::Stmt { text } && text
                    == "rewrite ingress tag pop 1 symmetric"@),
        decreases n - i,
    {
        match &stmts[i] {
            Node::Stmt(st) => {
                if str_eq(st.stmt.as_str(), "rewrite ingress tag pop 1 symmetric") {
                    assert(ms[i as int] matches PNode::Stmt { text } && text
                        == "rewrite ingress tag pop 1 symmetric"@);
                    return true;
                }
            },
            Node::Block(_) => {},
        }
        i += 1;
    }
    false
}

/// The lint messages of one bridge-domain: members whose BVI number or
/// subinterface number disagrees with the domain's VLAN tag.
pub open spec fn spec_bd_lint_from(b: SpecBridgeDomain, j: int, acc: Seq<Seq<char>>) -> Seq<
    Seq<char>,
>
    decreases b.interfaces.len() - j,
    when 0 <= j <= b.interfaces.len()
{
    if j >= b.interfaces.len() {
        acc
    } else {
        let m = b.interfaces[j];
        let acc2 = if has_prefix(m, "BVI"@) {
            match crate::text::spec_parse_u32(m.skip(3)) {
                Some(v) => if v != b.vlan_tag {
                    acc.push("BVI number がブリッジ名と異なる: "@ + m)
                } else {
                    acc
                },
                None => acc,
            }
        } else {
            match spec_split_subif(m) {
                Some(p) => if p.1 != Some(b.vlan_tag) {
                    acc.push("sub-interface number がブリッジ名と異なる: "@ + m)
                } else {
                    acc
                },
                None => acc,
            }
        };
        spec_bd_lint_from(b, j + 1, acc2)
    }
}

pub open spec fn spec_bd_lint(b: SpecBridgeDomain) -> Seq<Seq<char>> {
    spec_bd_lint_from(b, 0, Seq::empty())
}

impl BridgeDomain {
    /// Internal-consistency findings for this bridge-domain.
    pub fn lint(&self) -> (r: Vec<String>)
        ensures
            r@.map_values(|s: String| s@) == spec_bd_lint(bd_view(*self)),
    {
        let ghost bv = bd_view(*self);
        let n = self.interfaces.len();
        let mut ret: Vec<String> = Vec::new();
        proof {
            reveal_strlit("BVI");
            assert(ret@.map_values(|s: String| s@) =~= Seq::<Seq<char>>::empty());
        }
        let mut j: usize = 0;
        while j < n
            invariant
                0 <= j <= n,
                n == self.interfaces@.len(),
                bv == bd_view(*self),
                bv.interfaces.len() == n,
                forall|k: int| 0 <= k < n ==> #[trigger] bv.interfaces[k] == self.interfaces@[k]@,
                spec_bd_lint(bv) == spec_bd_lint_from(
                    bv,
                    j as int,
                    ret@.map_values(|s: String| s@),
                ),
            decreases n - j,
        {
            let ghost pre = ret@.map_values(|s: String| s@);
            let member = &self.interfaces[j];
            match strip_prefix_str(member.as_str(), "BVI") {
                Some(suffix) => {
                    match parse_u32_str(suffix) {
                        Some(v) => {
                            if v != self.vlan_tag {
                                let mut msg = String::new();
                                msg.append("BVI number がブリッジ名と異なる: ");
                                msg.append(member.as_str());
                                ret.push(msg);
                                proof {
                                    assert(ret@.map_values(|s: String| s@) =~= pre.push(
                                        "BVI number がブリッジ名と異なる: "@ + member@,
                                    ));
                                }
                            }
                        },
                        None => {},
                    }
                },
                None => {
                    match split_subinterface_id(member.as_str()) {
                        Ok(p) => {
                            let matches_tag = match p.1 {
                                Some(sub) => sub == self.vlan_tag,
                                None => false,
                            };
                            if !matches_tag {
                                let mut msg = String::new();
                                msg.append("sub-interface number がブリッジ名と異なる: ");
                                msg.append(member.as_str());
                                ret.push(msg);
                                proof {
                                    assert(ret@.map_values(|s: String| s@) =~= pre.push(
                                        "sub-interface number がブリッジ名と異なる: "@ + member@,
                                    ));
                                }
                            }
                        },
                        Err(_) => {},
                    }
                },
            }
            j += 1;
        }
        ret
    }
}

/// Value mapper for l2transport groups.
pub open spec fn f_l2s() -> spec_fn(Vec<L2TransportConfig>) -> Seq<SpecL2Transport> {
    |v: Vec<L2TransportConfig>| v@.map_values(|c: L2TransportConfig| l2_view(c))
}

/// l2transport subinterfaces grouped by base interface, scanning from `i`.
pub open spec fn spec_l2_groups(
    ns: Seq<PNode>,
    i: int,
    acc: Seq<(Seq<char>, Seq<SpecL2Transport>)>,
) -> Seq<(Seq<char>, Seq<SpecL2Transport>)>
    decreases ns.len() - i,
    when 0 <= i <= ns.len()
{
    if i >= ns.len() {
        acc
    } else {
        let acc2 = match spec_try_l2(ns[i]) {
            Some(c) => {
                let prev = match crate::omap::omap_get(acc, c.baseif) {
                    Some(v) => v,
                    None => Seq::empty(),
                };
                let rest = match crate::omap::omap_get(acc, c.baseif) {
                    Some(_) => crate::omap::omap_remove(acc, c.baseif),
                    None => acc,
                };
                crate::omap::omap_insert(rest, c.baseif, prev.push(c), crate::omap::name_lt())
            },
            None => acc,
        };
        spec_l2_groups(ns, i + 1, acc2)
    }
}

/// Group every l2transport subinterface block by its base interface,
/// ascending by name.
pub fn get_l2_transports(config: &Vec<Node>) -> (r: crate::omap::NameMap<Vec<L2TransportConfig>>)
    ensures
        r.wf(),
        crate::omap::map_vals(r@, f_l2s()) == spec_l2_groups(pnodes_view(config@), 0, Seq::empty()),
{
    let ghost ms = pnodes_view(config@);
    proof {
        lemma_pnodes_view(config@);
    }
    let n = config.len();
    let mut groups: crate::omap::NameMap<Vec<L2TransportConfig>> = crate::omap::NameMap::new();
    proof {
        assert(crate::omap::map_vals(groups@, f_l2s()) =~= Seq::<
            (Seq<char>, Seq<SpecL2Transport>),
        >::empty());
    }
    let mut i: usize = 0;
    while i < n
        invariant
            0 <= i <= n,
            n == config@.len(),
            ms == pnodes_view(config@),
            ms.len() == n,
            forall|k: int| 0 <= k < n ==> #[trigger] ms[k] == pnode_view(config@[k]),
            groups.wf(),
            spec_l2_groups(ms, 0, Seq::empty()) == spec_l2_groups(
                ms,
                i as int,
                crate::omap::map_vals(groups@, f_l2s()),
            ),
        decreases n - i,
    {
        let ghost accv = crate::omap::map_vals(groups@, f_l2s());
        match L2TransportConfig::try_new(&config[i]) {
            Some(c) => {
                let ghost cm = l2_view(c);
                let base = c.baseif.as_str().to_owned();
                let ghost preg = groups@;
                proof {
                    assert(spec_try_l2(ms[i as int]) == Some(cm));
                    crate::omap::lemma_map_vals_get(groups@, base@, f_l2s());
                    crate::omap::lemma_map_vals_remove(groups@, base@, f_l2s());
                }
                let mut v: Vec<L2TransportConfig> = match groups.take(base.as_str()) {
                    Some(v) => v,
                    None => Vec::new(),
                };
                let ghost prev = f_l2s()(v);
                proof {
                    assert(prev == (match crate::omap::omap_get(accv, cm.baseif) {
                        Some(v0) => v0,
                        None => Seq::<SpecL2Transport>::empty(),
                    })) by {
                        if crate::omap::omap_get(accv, cm.baseif) is None {
                            assert(prev =~= Seq::<SpecL2Transport>::empty());
                        }
                    }
                }
                v.push(c);
                proof {
                    assert(f_l2s()(v) =~= prev.push(cm));
                    crate::omap::lemma_map_vals_insert(
                        groups@,
                        base@,
                        v,
                        crate::omap::name_lt(),
                        f_l2s(),
                    );
                }
                groups.insert(base, v);
                proof {
                    assert(crate::omap::map_vals(groups@, f_l2s()) == crate::omap::omap_insert(
                        (match crate::omap::omap_get(accv, cm.baseif) {
                            Some(_) => crate::omap::omap_remove(accv, cm.baseif),
                            None => accv,
                        }),
                        cm.baseif,
                        prev.push(cm),
                        crate::omap::name_lt(),
                    ));
                }
            },
            None => {},
        }
        i += 1;
    }
    groups
}

// ---------------------------------------------------------------------------
// The lint report
// ---------------------------------------------------------------------------
/// The report block of one l2transport subinterface: empty when it has no
/// findings.
pub open spec fn spec_l2_msgs(c: SpecL2Transport) -> Seq<char> {
    let res = spec_l2_lint(c);
    if res.len() > 0 {
        "--- interface "@ + c.baseif + "."@ + crate::text::dec_str(c.sub_if_num as nat)
            + " l2transport ---\n"@ + crate::text::spec_join(res) + "\n"@
    } else {
        Seq::empty()
    }
}

pub open spec fn spec_lint_items(items: Seq<SpecL2Transport>, j: int, acc: Seq<char>) -> Seq<char>
    decreases items.len() - j,
    when 0 <= j <= items.len()
{
    if j >= items.len() {
        acc
    } else {
        spec_lint_items(items, j + 1, acc + spec_l2_msgs(items[j]))
    }
}

pub open spec fn spec_lint_groups(
    groups: Seq<(Seq<char>, Seq<SpecL2Transport>)>,
    i: int,
    acc: Seq<char>,
) -> Seq<char>
    decreases groups.len() - i,
    when 0 <= i <= groups.len()
{
    if i >= groups.len() {
        acc
    } else {
        spec_lint_groups(groups, i + 1, spec_lint_items(groups[i].1, 0, acc))
    }
}

/// The report block of one bridge-domain.
pub open spec fn spec_bd_msgs(b: SpecBridgeDomain) -> Seq<char> {
    let res = spec_bd_lint(b);
    if res.len() > 0 {
        "--- bridge-domain VLAN"@ + crate::text::dec_str(b.vlan_tag as nat) + " ---\n"@
            + crate::text::spec_join(res) + "\n"@
    } else {
        Seq::empty()
    }
}

pub open spec fn spec_lint_domains(ds: Seq<SpecBridgeDomain>, i: int, acc: Seq<char>) -> Seq<char>
    decreases ds.len() - i,
    when 0 <= i <= ds.len()
{
    if i >= ds.len() {
        acc
    } else {
        spec_lint_domains(ds, i + 1, acc + spec_bd_msgs(ds[i]))
    }
}

/// Model of `build_lint_output`.
pub open spec fn spec_build_lint(
    groups: Seq<(Seq<char>, Seq<SpecL2Transport>)>,
    ds: Seq<SpecBridgeDomain>,
) -> Seq<char> {
    spec_lint_domains(ds, 0, spec_lint_groups(groups, 0, Seq::empty()))
}

/// Collect the findings of every l2transport subinterface and every
/// bridge-domain into one report.
pub fn build_lint_output(
    l2transport: &crate::omap::NameMap<Vec<L2TransportConfig>>,
    domains: &Vec<BridgeDomain>,
) -> (r: String)
    requires
        l2transport.wf(),
    ensures
        r@ == spec_build_lint(
            crate::omap::map_vals(l2transport@, f_l2s()),
            bds_view(domains@),
        ),
{
    let ghost gv = crate::omap::map_vals(l2transport@, f_l2s());
    let ghost dsv = bds_view(domains@);
    let mut msg = String::new();
    proof {
        assert(msg@ =~= Seq::<char>::empty());
    }
    let ng = l2transport.len();
    let mut i: usize = 0;
    while i < ng
        invariant
            0 <= i <= ng,
            ng == l2transport@.len(),
            l2transport.wf(),
            gv == crate::omap::map_vals(l2transport@, f_l2s()),
            gv.len() == ng,
            msg@ == old_msg_of(gv, i as int),
        decreases ng - i,
    {
        let items = l2transport.val_at(i);
        let ghost itemsv = items@.map_values(|c: L2TransportConfig| l2_view(c));
        proof {
            assert(gv[i as int].1 == itemsv);
        }
        let nj = items.len();
        let mut j: usize = 0;
        while j < nj
            invariant
                0 <= j <= nj,
                nj == items@.len(),
                itemsv == items@.map_values(|c: L2TransportConfig| l2_view(c)),
                itemsv.len() == nj,
                spec_lint_items(itemsv, j as int, msg@) == spec_lint_items(
                    itemsv,
                    0,
                    old_msg_of(gv, i as int),
                ),
            decreases nj - j,
        {
            let trans = &items[j];
            let res = trans.lint();
            if res.len() > 0 {
                let ghost pre = msg@;
                msg.append("--- interface ");
                msg.append(trans.baseif.as_str());
                msg.append(".");
                let num = crate::text::u32_to_string(trans.sub_if_num);
                msg.append(num.as_str());
                msg.append(" l2transport ---\n");
                let joined = crate::text::join_lines(&res);
                msg.append(joined.as_str());
                msg.append("\n");
                proof {
                    assert(msg@ =~= pre + spec_l2_msgs(itemsv[j as int]));
                }
            } else {
                proof {
                    assert(msg@ =~= msg@ + spec_l2_msgs(itemsv[j as int]));
                }
            }
            j += 1;
        }
        proof {
            assert(spec_lint_items(itemsv, nj as int, msg@) == msg@);
        }
        i += 1;
    }
    proof {
        lemma_old_msg(gv, ng as int);
        assert(spec_lint_groups(gv, ng as int, old_msg_of(gv, ng as int)) == old_msg_of(
            gv,
            ng as int,
        ));
    }
    let ghost after_groups = msg@;
    let nd = domains.len();
    let mut i: usize = 0;
    while i < nd
        invariant
            0 <= i <= nd,
            nd == domains@.len(),
            dsv == bds_view(domains@),
            dsv.len() == nd,
            forall|k: int| 0 <= k < nd ==> #[trigger] dsv[k] == bd_view(domains@[k]),
            spec_lint_domains(dsv, 0, after_groups) == spec_lint_domains(dsv, i as int, msg@),
        decreases nd - i,
    {
        let domain = &domains[i];
        let res = domain.lint();
        if res.len() > 0 {
            let ghost pre = msg@;
            msg.append("--- bridge-domain VLAN");
            let num = crate::text::u32_to_string(domain.vlan_tag);
            msg.append(num.as_str());
            msg.append(" ---\n");
            let joined = crate::text::join_lines(&res);
            msg.append(joined.as_str());
            msg.append("\n");
            proof {
                assert(msg@ =~= pre + spec_bd_msgs(dsv[i as int]));
            }
        } else {
            proof {
                assert(msg@ =~= msg@ + spec_bd_msgs(dsv[i as int]));
            }
        }
        i += 1;
    }
    msg
}

/// The report text as it stands when the group fold reaches group `i`.
pub open spec fn old_msg_of(groups: Seq<(Seq<char>, Seq<SpecL2Transport>)>, i: int) -> Seq<char>
    decreases i,
    when 0 <= i <= groups.len()
{
    if i <= 0 {
        Seq::empty()
    } else {
        spec_lint_items(groups[i - 1].1, 0, old_msg_of(groups, i - 1))
    }
}

proof fn lemma_old_msg(groups: Seq<(Seq<char>, Seq<SpecL2Transport>)>, i: int)
    requires
        0 <= i <= groups.len(),
    ensures
        spec_lint_groups(groups, i, old_msg_of(groups, i)) == spec_lint_groups(
            groups,
            0,
            Seq::empty(),
        ),
    decreases i,
{
    if i > 0 {
        lemma_old_msg(groups, i - 1);
        assert(spec_lint_groups(groups, i - 1, old_msg_of(groups, i - 1)) == spec_lint_groups(
            groups,
            i,
            spec_lint_items(groups[i - 1].1, 0, old_msg_of(groups, i - 1)),
        ));
    }
}

// ---------------------------------------------------------------------------
// Gathering the summary data and the analyzed configuration
// ---------------------------------------------------------------------------
/// The statement texts of a block's children, in order.
pub open spec fn spec_stmt_texts(ns: Seq<PNode>, j: int, acc: Seq<Seq<char>>) -> Seq<Seq<char>>
    decreases ns.len() - j,
    when 0 <= j <= ns.len()
{
    if j >= ns.len() {
        acc
    } else {
        match ns[j] {
            PNode::Stmt { text } => spec_stmt_texts(ns, j + 1, acc.push(text)),
            PNode::Block { .. } => spec_stmt_texts(ns, j + 1, acc),
        }
    }
}

/// What one top-level node contributes to the summary tables.
pub open spec fn spec_collect_step(
    base: Seq<(Seq<char>, Seq<Seq<char>>)>,
    bvi: Seq<(Seq<char>, Option<Seq<char>>)>,
    m: PNode,
) -> (Seq<(Seq<char>, Seq<Seq<char>>)>, Seq<(Seq<char>, Option<Seq<char>>)>) {
    match m {
        PNode::Block { name, children } => {
            if has_prefix(name, "interface "@) {
                let ifname = name.skip("interface "@.len() as int);
                if ifname.contains('.') || has_suffix(name, " l2transport"@) {
                    (base, bvi)
                } else if has_prefix(ifname, "BVI"@) {
                    if crate::omap::omap_contains(bvi, ifname) {
                        (base, bvi)
                    } else {
                        (
                            base,
                            crate::omap::omap_insert(
                                bvi,
                                ifname,
                                spec_first_description(children),
                                crate::omap::name_lt(),
                            ),
                        )
                    }
                } else {
                    let sts = spec_stmt_texts(children, 0, Seq::empty());
                    if sts.len() > 0 {
                        (crate::omap::omap_insert(base, ifname, sts, crate::omap::name_lt()), bvi)
                    } else {
                        (base, bvi)
                    }
                }
            } else {
                (base, bvi)
            }
        },
        PNode::Stmt { .. } => (base, bvi),
    }
}

pub open spec fn spec_collect(
    ns: Seq<PNode>,
    i: int,
    base: Seq<(Seq<char>, Seq<Seq<char>>)>,
    bvi: Seq<(Seq<char>, Option<Seq<char>>)>,
) -> (Seq<(Seq<char>, Seq<Seq<char>>)>, Seq<(Seq<char>, Option<Seq<char>>)>)
    decreases ns.len() - i,
    when 0 <= i <= ns.len()
{
    if i >= ns.len() {
        (base, bvi)
    } else {
        let p = spec_collect_step(base, bvi, ns[i]);
        spec_collect(ns, i + 1, p.0, p.1)
    }
}

/// Gather the per-interface statements and BVI descriptions the summary
/// renderer shows, alongside the analyzed bridge-domains.
pub fn collect_simplified_data(
    config: &Vec<Node>,
    domains: Vec<BridgeDomain>,
) -> (r: crate::simplified_config::SimplifiedConfigData)
    ensures
        r.wf(),
        r.domains == domains,
        crate::omap::map_vals(r.base_interfaces@, crate::simplified_config::f_strs())
            == spec_collect(pnodes_view(config@), 0, Seq::empty(), Seq::empty()).0,
        crate::omap::map_vals(r.bvi_interfaces@, crate::model::f_opt_str()) == spec_collect(
            pnodes_view(config@),
            0,
            Seq::empty(),
            Seq::empty(),
        ).1,
        r.bundle_members@ == Seq::<(Seq<char>, crate::omap::NameSet)>::empty(),
{
    let ghost ms = pnodes_view(config@);
    proof {
        lemma_pnodes_view(config@);
        reveal_strlit("BVI");
    }
    let n = config.len();
    let mut base: crate::omap::NameMap<Vec<String>> = crate::omap::NameMap::new();
    let mut bvi: crate::omap::NameMap<Option<String>> = crate::omap::NameMap::new();
    proof {
        assert(crate::omap::map_vals(base@, crate::simplified_config::f_strs()) =~= Seq::<
            (Seq<char>, Seq<Seq<char>>),
        >::empty());
        assert(crate::omap::map_vals(bvi@, crate::model::f_opt_str()) =~= Seq::<
            (Seq<char>, Option<Seq<char>>),
        >::empty());
    }
    let mut i: usize = 0;
    while i < n
        invariant
            0 <= i <= n,
            n == config@.len(),
            ms == pnodes_view(config@),
            ms.len() == n,
            forall|k: int| 0 <= k < n ==> #[trigger] ms[k] == pnode_view(config@[k]),
            base.wf(),
            bvi.wf(),
            spec_collect(ms, 0, Seq::empty(), Seq::empty()) == spec_collect(
                ms,
                i as int,
                crate::omap::map_vals(base@, crate::simplified_config::f_strs()),
                crate::omap::map_vals(bvi@, crate::model::f_opt_str()),
            ),
        decreases n - i,
    {
        let ghost basev = crate::omap::map_vals(base@, crate::simplified_config::f_strs());
        let ghost bviv = crate::omap::map_vals(bvi@, crate::model::f_opt_str());
        match &config[i] {
            Node::Block(b) => {
                match strip_prefix_str(b.name.as_str(), "interface ") {
                    Some(ifname) => {
                        let has_dot = contains_char(ifname, '.');
                        let is_l2 = ends_with_str(b.name.as_str(), " l2transport");
                        if !has_dot && !is_l2 {
                            if starts_with_str(ifname, "BVI") {
                                proof {
                                    crate::omap::lemma_map_vals_get(
                                        bvi@,
                                        ifname@,
                                        crate::model::f_opt_str(),
                                    );
                                }
                                if !bvi.contains_key(ifname) {
                                    let d = find_description(&b.stmts);
                                    proof {
                                        crate::omap::lemma_map_vals_insert(
                                            bvi@,
                                            ifname@,
                                            d,
                                            crate::omap::name_lt(),
                                            crate::model::f_opt_str(),
                                        );
                                    }
                                    bvi.insert(ifname.to_owned(), d);
                                }
                            } else {
                                let ns2 = b.stmts.len();
                                let ghost cms = pnodes_view(b.stmts@);
                                proof {
                                    lemma_pnodes_view(b.stmts@);
                                }
                                let mut sts: Vec<String> = Vec::new();
                                proof {
                                    assert(sts@.map_values(|s: String| s@) =~= Seq::<
                                        Seq<char>,
                                    >::empty());
                                }
                                let mut j: usize = 0;
                                while j < ns2
                                    invariant
                                        0 <= j <= ns2,
                                        ns2 == b.stmts@.len(),
                                        cms == pnodes_view(b.stmts@),
                                        cms.len() == ns2,
                                        forall|k: int|
                                            0 <= k < ns2 ==> #[trigger] cms[k] == pnode_view(
                                                b.stmts@[k],
                                            ),
                                        spec_stmt_texts(cms, 0, Seq::empty()) == spec_stmt_texts(
                                            cms,
                                            j as int,
                                            sts@.map_values(|s: String| s@),
                                        ),
                                    decreases ns2 - j,
                                {
                                    let ghost pre = sts@.map_values(|s: String| s@);
                                    match &b.stmts[j] {
                                        Node::Stmt(st) => {
                                            sts.push(st.stmt.as_str().to_owned());
                                            proof {
                                                assert(sts@.map_values(|s: String| s@)
                                                    =~= pre.push(st.stmt@));
                                            }
                                        },
                                        Node::Block(_) => {},
                                    }
                                    j += 1;
                                }
                                if sts.len() > 0 {
                                    proof {
                                        crate::omap::lemma_map_vals_insert(
                                            base@,
                                            ifname@,
                                            sts,
                                            crate::omap::name_lt(),
                                            crate::simplified_config::f_strs(),
                                        );
                                    }
                                    base.insert(ifname.to_owned(), sts);
                                }
                            }
                        }
                    },
                    None => {},
                }
            },
            Node::Stmt(_) => {},
        }
        i += 1;
    }
    crate::simplified_config::SimplifiedConfigData::new(
        domains,
        base,
        bvi,
        crate::omap::NameMap::new(),
    )
}

/// The analyzed configuration: its bridge-domains, the lint report, and
/// the compact summary.
#[derive(Debug)]
pub struct Config {
    /// Bridge-domains found under `l2vpn / bridge group VLAN`.
    pub domains: Vec<BridgeDomain>,
    /// Consistency findings over the whole configuration.
    pub lint_output: String,
    /// The compact human-readable summary.
    pub simplified_config: String,
}

impl Config {
    /// The lint report.
    pub fn lint(&self) -> (r: String)
        ensures
            r@ == self.lint_output@,
    {
        self.lint_output.as_str().to_owned()
    }
}

/// The bridge-domain models an analysis of these nodes yields.
pub open spec fn spec_domains_of(ms: Seq<PNode>) -> Seq<SpecBridgeDomain> {
    match spec_bridge_domains(ms) {
        Some(d) => d,
        None => Seq::empty(),
    }
}

/// Analyze a tokenized configuration: collect its bridge-domains, lint
/// it, and render the compact summary.
pub fn analyze(config: &Vec<Node>) -> (r: Config)
    ensures
        bds_view(r.domains@) == spec_domains_of(pnodes_view(config@)),
        r.lint_output@ == spec_build_lint(
            spec_l2_groups(pnodes_view(config@), 0, Seq::empty()),
            spec_domains_of(pnodes_view(config@)),
        ),
        r.simplified_config@ == crate::simplified_config::spec_build_simplified(
            crate::simplified_config::SpecSimplifiedData {
                domains: spec_domains_of(pnodes_view(config@)),
                base_interfaces: spec_collect(
                    pnodes_view(config@),
                    0,
                    Seq::empty(),
                    Seq::empty(),
                ).0,
                bvi_interfaces: spec_collect(
                    pnodes_view(config@),
                    0,
                    Seq::empty(),
                    Seq::empty(),
                ).1,
                bundle_members: Seq::empty(),
            },
        ),
{
    let l2transport = get_l2_transports(config);
    let domains: Vec<BridgeDomain> = match get_bridge_domains(config) {
        Some(ds) => ds,
        None => Vec::new(),
    };
    proof {
        if spec_bridge_domains(pnodes_view(config@)) is None {
            assert(bds_view(domains@) =~= Seq::<SpecBridgeDomain>::empty());
        }
    }
    let lint_output = build_lint_output(&l2transport, &domains);
    let copies = copy_domains(&domains);
    let data = collect_simplified_data(config, copies);
    let simplified_config = crate::simplified_config::build_simplified_config(&data);
    proof {
        assert(crate::omap::map_vals(
            data.bundle_members@,
            crate::simplified_config::f_set(),
        ) =~= Seq::<(Seq<char>, Seq<Seq<char>>)>::empty());
    }
    Config { domains, lint_output, simplified_config }
}

/// Independent copies of the analyzed bridge-domains.
fn copy_domains(domains: &Vec<BridgeDomain>) -> (r: Vec<BridgeDomain>)
    ensures
        bds_view(r@) == bds_view(domains@),
{
    let n = domains.len();
    let mut out: Vec<BridgeDomain> = Vec::new();
    let mut i: usize = 0;
    while i < n
        invariant
            0 <= i <= n,
            n == domains@.len(),
            out@.len() == i,
            forall|k: int| 0 <= k < i ==> bd_view(#[trigger] out@[k]) == bd_view(domains@[k]),
        decreases n - i,
    {
        let d = &domains[i];
        let nm = d.interfaces.len();
        let mut members: Vec<String> = Vec::new();
        let mut j: usize = 0;
        while j < nm
            invariant
                0 <= j <= nm,
                nm == d.interfaces@.len(),
                members@.len() == j,
                forall|k: int| 0 <= k < j ==> #[trigger] members@[k]@ == d.interfaces@[k]@,
            decreases nm - j,
        {
            members.push(d.interfaces[j].as_str().to_owned());
            j += 1;
        }
        let description = match &d.description {
            Some(s) => Some(s.as_str().to_owned()),
            None => None,
        };
        out.push(BridgeDomain { vlan_tag: d.vlan_tag, interfaces: members, description });
        proof {
            assert(out@[out@.len() - 1].interfaces@.map_values(|s: String| s@)
                =~= domains@[i as int].interfaces@.map_values(|s: String| s@));
        }
        i += 1;
    }
    proof {
        assert(bds_view(out@) =~= bds_view(domains@));
    }
    out
}

} // verus!
