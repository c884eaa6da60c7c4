//! Compressing an existing configuration into a compact human-readable
//! summary, with VLAN ranges compacted.

use vstd::prelude::*;
use crate::omap::{
    NameMap, NameSet, omap_get, omap_insert, oset_insert, map_vals, u32_lt, name_lt,
    lemma_map_vals_get, lemma_map_vals_insert,
};
use crate::semantics::{BridgeDomain, SpecBridgeDomain, bds_view, spec_split_subif};
use crate::text::{
    dec_str, u32_to_string, spec_join, spec_join_sp, join_lines, join_spaces, str_len,
};
use crate::codegen::{spec_trim_trailing, lv};

verus! {

// ---------------------------------------------------------------------------
// VLAN range compaction
// ---------------------------------------------------------------------------
/// One segment: a single tag or an inclusive `a-b` range.
pub open spec fn spec_seg(a: u32, b: u32) -> Seq<char> {
    if a == b {
        dec_str(a as nat)
    } else {
        dec_str(a as nat) + "-"@ + dec_str(b as nat)
    }
}

/// The segments of an ascending tag sequence: runs of consecutive tags are
/// compacted, scanning from `i` with the current run `[rs, prev]`.
pub open spec fn spec_segs(tags: Seq<u32>, i: int, rs: u32, prev: u32, segs: Seq<Seq<char>>) -> Seq<
    Seq<char>,
>
    decreases tags.len() - i,
    when 0 <= i <= tags.len()
{
    if i >= tags.len() {
        segs.push(spec_seg(rs, prev))
    } else {
        let cur = tags[i];
        if cur != prev + 1 {
            spec_segs(tags, i + 1, cur, cur, segs.push(spec_seg(rs, prev)))
        } else {
            spec_segs(tags, i + 1, rs, cur, segs)
        }
    }
}

/// Model of `format_vlan_ranges`: `-` for the empty set, else the
/// compacted segments joined by spaces.
pub open spec fn spec_ranges(tags: Seq<u32>) -> Seq<char> {
    if tags.len() == 0 {
        "-"@
    } else {
        spec_join_sp(spec_segs(tags, 1, tags[0], tags[0], Seq::empty()))
    }
}

/// Compact an ascending VLAN set into a space-separated list of tags and
/// inclusive ranges, or `-` when empty.
pub fn format_vlan_ranges(tags: &crate::omap::VlanTagSet) -> (r: String)
    ensures
        r@ == spec_ranges(tags@),
{
    let n = tags.len();
    if n == 0 {
        return "-".to_owned();
    }
    let first = tags.get_at(0);
    let mut segs: Vec<String> = Vec::new();
    let mut rs: u32 = first;
    let mut prev: u32 = first;
    proof {
        assert(segs@.map_values(|s: String| s@) =~= Seq::<Seq<char>>::empty());
    }
    let mut i: usize = 1;
    while i < n
        invariant
            1 <= i <= n,
            n == tags@.len(),
            spec_segs(tags@, 1, tags@[0], tags@[0], Seq::empty()) == spec_segs(
                tags@,
                i as int,
                rs,
                prev,
                segs@.map_values(|s: String| s@),
            ),
        decreases n - i,
    {
        let cur = tags.get_at(i);
        if !(prev < u32::MAX && cur == prev + 1) {
            let ghost pre = segs@.map_values(|s: String| s@);
            segs.push(seg_string(rs, prev));
            proof {
                assert(segs@.map_values(|s: String| s@) =~= pre.push(spec_seg(rs, prev)));
            }
            rs = cur;
            prev = cur;
        } else {
            prev = cur;
        }
        i += 1;
    }
    let ghost pre = segs@.map_values(|s: String| s@);
    segs.push(seg_string(rs, prev));
    proof {
        assert(segs@.map_values(|s: String| s@) =~= pre.push(spec_seg(rs, prev)));
    }
    join_spaces(&segs)
}

/// Render one segment.
fn seg_string(a: u32, b: u32) -> (r: String)
    ensures
        r@ == spec_seg(a, b),
{
    let mut s = u32_to_string(a);
    if a != b {
        s.append("-");
        let bs = u32_to_string(b);
        s.append(bs.as_str());
    }
    s
}

// ---------------------------------------------------------------------------
// The gathered summary data
// ---------------------------------------------------------------------------
/// Model of a [`SimplifiedConfigData`].
pub struct SpecSimplifiedData {
    pub domains: Seq<SpecBridgeDomain>,
    pub base_interfaces: Seq<(Seq<char>, Seq<Seq<char>>)>,
    pub bvi_interfaces: Seq<(Seq<char>, Option<Seq<char>>)>,
    pub bundle_members: Seq<(Seq<char>, Seq<Seq<char>>)>,
}

/// Everything the simplified renderer needs from the analyzed
/// configuration.
#[derive(Debug)]
pub struct SimplifiedConfigData {
    /// Bridge-domains of the configuration.
    pub domains: Vec<BridgeDomain>,
    /// Statements under each base interface block.
    pub base_interfaces: NameMap<Vec<String>>,
    /// Description of each BVI interface block.
    pub bvi_interfaces: NameMap<Option<String>>,
    /// Member interfaces of each bundle.
    pub bundle_members: NameMap<NameSet>,
}

/// Value mapper for statement lists.
pub open spec fn f_strs() -> spec_fn(Vec<String>) -> Seq<Seq<char>> {
    |v: Vec<String>| v@.map_values(|s: String| s@)
}

/// Value mapper for member sets.
pub open spec fn f_set() -> spec_fn(NameSet) -> Seq<Seq<char>> {
    |v: NameSet| v@
}

/// Model of a summary-data value.
pub open spec fn sd_view(d: SimplifiedConfigData) -> SpecSimplifiedData {
    SpecSimplifiedData {
        domains: bds_view(d.domains@),
        base_interfaces: map_vals(d.base_interfaces@, f_strs()),
        bvi_interfaces: map_vals(d.bvi_interfaces@, crate::model::f_opt_str()),
        bundle_members: map_vals(d.bundle_members@, f_set()),
    }
}

impl SimplifiedConfigData {
    pub open spec fn wf(&self) -> bool {
        &&& self.base_interfaces.wf()
        &&& self.bvi_interfaces.wf()
        &&& self.bundle_members.wf()
    }

    /// Bundle the gathered facts.
    pub fn new(
        domains: Vec<BridgeDomain>,
        base_interfaces: NameMap<Vec<String>>,
        bvi_interfaces: NameMap<Option<String>>,
        bundle_members: NameMap<NameSet>,
    ) -> (r: SimplifiedConfigData)
        ensures
            r.domains == domains,
            r.base_interfaces == base_interfaces,
            r.bvi_interfaces == bvi_interfaces,
            r.bundle_members == bundle_members,
    {
        SimplifiedConfigData { domains, base_interfaces, bvi_interfaces, bundle_members }
    }
}

// ---------------------------------------------------------------------------
// Rendering
// ---------------------------------------------------------------------------
/// VLAN descriptions keyed by tag; the first domain with a description
/// wins for each tag.
pub open spec fn spec_vlan_map(
    ds: Seq<SpecBridgeDomain>,
    i: int,
    acc: Seq<(u32, Option<Seq<char>>)>,
) -> Seq<(u32, Option<Seq<char>>)>
    decreases ds.len() - i,
    when 0 <= i <= ds.len()
{
    if i >= ds.len() {
        acc
    } else {
        let v = match omap_get(acc, ds[i].vlan_tag) {
            Some(Some(d)) => Some(d),
            _ => ds[i].description,
        };
        spec_vlan_map(ds, i + 1, omap_insert(acc, ds[i].vlan_tag, v, u32_lt()))
    }
}

/// Trunk membership by base interface, derived from subinterface names.
pub open spec fn spec_trunk_members(
    members: Seq<Seq<char>>,
    tag: u32,
    j: int,
    acc: Seq<(Seq<char>, Seq<u32>)>,
) -> Seq<(Seq<char>, Seq<u32>)>
    decreases members.len() - j,
    when 0 <= j <= members.len()
{
    if j >= members.len() {
        acc
    } else {
        let acc2 = match spec_split_subif(members[j]) {
            Some(p) => {
                if p.1 is Some {
                    let prev = match omap_get(acc, p.0) {
                        Some(v) => v,
                        None => Seq::empty(),
                    };
                    omap_insert(acc, p.0, oset_insert(prev, tag), name_lt())
                } else {
                    acc
                }
            },
            None => acc,
        };
        spec_trunk_members(members, tag, j + 1, acc2)
    }
}

pub open spec fn spec_trunk_map(
    ds: Seq<SpecBridgeDomain>,
    i: int,
    acc: Seq<(Seq<char>, Seq<u32>)>,
) -> Seq<(Seq<char>, Seq<u32>)>
    decreases ds.len() - i,
    when 0 <= i <= ds.len()
{
    if i >= ds.len() {
        acc
    } else {
        spec_trunk_map(ds, i + 1, spec_trunk_members(ds[i].interfaces, ds[i].vlan_tag, 0, acc))
    }
}

/// Indented statement lines of one interface, when recorded.
pub open spec fn lines_if_stmts(
    acc: Seq<Seq<char>>,
    base_ifs: Seq<(Seq<char>, Seq<Seq<char>>)>,
    name: Seq<char>,
) -> Seq<Seq<char>> {
    match omap_get(base_ifs, name) {
        Some(sts) => lines_sts(acc, sts, 0),
        None => acc,
    }
}

pub open spec fn lines_sts(acc: Seq<Seq<char>>, sts: Seq<Seq<char>>, j: int) -> Seq<Seq<char>>
    decreases sts.len() - j,
    when 0 <= j <= sts.len()
{
    if j >= sts.len() {
        acc
    } else {
        lines_sts(acc.push("  "@ + sts[j]), sts, j + 1)
    }
}

/// Blocks for the members of one bundle.
pub open spec fn lines_bundle(
    acc: Seq<Seq<char>>,
    members: Seq<Seq<char>>,
    j: int,
    base_ifs: Seq<(Seq<char>, Seq<Seq<char>>)>,
) -> Seq<Seq<char>>
    decreases members.len() - j,
    when 0 <= j <= members.len()
{
    if j >= members.len() {
        acc
    } else {
        let a = lines_if_stmts(acc.push("interface "@ + members[j]), base_ifs, members[j]).push(
            Seq::empty(),
        );
        lines_bundle(a, members, j + 1, base_ifs)
    }
}

/// One trunked base interface: its block, the trunk summary lines, and
/// the blocks of its bundle members.
pub open spec fn lines_one_trunk(
    acc: Seq<Seq<char>>,
    name: Seq<char>,
    tags: Seq<u32>,
    base_ifs: Seq<(Seq<char>, Seq<Seq<char>>)>,
    bundles: Seq<(Seq<char>, Seq<Seq<char>>)>,
) -> Seq<Seq<char>> {
    let a = lines_if_stmts(acc.push("interface "@ + name), base_ifs, name).push(
        "  switchport mode trunk"@,
    ).push("  switchport trunk allowed vlan add "@ + spec_ranges(tags)).push(Seq::empty());
    match omap_get(bundles, name) {
        Some(members) => lines_bundle(a, members, 0, base_ifs),
        None => a,
    }
}

pub open spec fn lines_trunks(
    acc: Seq<Seq<char>>,
    trunks: Seq<(Seq<char>, Seq<u32>)>,
    i: int,
    base_ifs: Seq<(Seq<char>, Seq<Seq<char>>)>,
    bundles: Seq<(Seq<char>, Seq<Seq<char>>)>,
) -> Seq<Seq<char>>
    decreases trunks.len() - i,
    when 0 <= i <= trunks.len()
{
    if i >= trunks.len() {
        acc
    } else {
        lines_trunks(
            lines_one_trunk(acc, trunks[i].0, trunks[i].1, base_ifs, bundles),
            trunks,
            i + 1,
            base_ifs,
            bundles,
        )
    }
}

/// A separating blank line, only after a nonempty non-blank line.
pub open spec fn with_sep(acc: Seq<Seq<char>>) -> Seq<Seq<char>> {
    if acc.len() > 0 && acc.last().len() > 0 {
        acc.push(Seq::empty())
    } else {
        acc
    }
}

pub open spec fn lines_bvi_ifs(
    acc: Seq<Seq<char>>,
    bvis: Seq<(Seq<char>, Option<Seq<char>>)>,
    i: int,
) -> Seq<Seq<char>>
    decreases bvis.len() - i,
    when 0 <= i <= bvis.len()
{
    if i >= bvis.len() {
        acc
    } else {
        let a = acc.push("interface "@ + bvis[i].0);
        let b = match bvis[i].1 {
            Some(d) => a.push("  description "@ + d),
            None => a,
        };
        lines_bvi_ifs(b.push("  ! -- L3 config reduced --"@).push(Seq::empty()), bvis, i + 1)
    }
}

pub open spec fn lines_vlan_db(
    acc: Seq<Seq<char>>,
    vlans: Seq<(u32, Option<Seq<char>>)>,
    i: int,
) -> Seq<Seq<char>>
    decreases vlans.len() - i,
    when 0 <= i <= vlans.len()
{
    if i >= vlans.len() {
        acc
    } else {
        let line = match vlans[i].1 {
            Some(d) => "  vlan "@ + dec_str(vlans[i].0 as nat) + " name "@ + d,
            None => "  vlan "@ + dec_str(vlans[i].0 as nat),
        };
        lines_vlan_db(acc.push(line), vlans, i + 1)
    }
}

/// Model of `build_simplified_config`.
pub open spec fn spec_build_simplified(d: SpecSimplifiedData) -> Seq<char> {
    let vlans = spec_vlan_map(d.domains, 0, Seq::empty());
    let trunks = spec_trunk_map(d.domains, 0, Seq::empty());
    let a1 = if trunks.len() > 0 {
        lines_trunks(Seq::empty(), trunks, 0, d.base_interfaces, d.bundle_members)
    } else {
        Seq::empty()
    };
    let a2 = if d.bvi_interfaces.len() > 0 {
        lines_bvi_ifs(with_sep(a1), d.bvi_interfaces, 0)
    } else {
        a1
    };
    let a3 = if vlans.len() > 0 {
        lines_vlan_db(with_sep(a2).push("vlan database"@), vlans, 0)
    } else {
        a2
    };
    spec_join(spec_trim_trailing(a3))
}

/// Render the analyzed configuration as a compact summary: one trunk
/// block per base interface with a compacted VLAN list, the BVI
/// interfaces, and a reconstructed `vlan database`.
pub fn build_simplified_config(data: &SimplifiedConfigData) -> (r: String)
    requires
        data.wf(),
    ensures
        r@ == spec_build_simplified(sd_view(*data)),
{
    let ghost dv = sd_view(*data);
    let ghost dsv = dv.domains;
    proof {
        assert(dsv.len() == data.domains@.len());
        assert(forall|k: int|
            0 <= k < dsv.len() ==> #[trigger] dsv[k] == crate::semantics::bd_view(
                data.domains@[k],
            ));
    }

    // VLAN descriptions, first domain with a description winning.
    let nd = data.domains.len();
    let mut vlans: crate::omap::VlanMap<Option<String>> = crate::omap::VlanMap::new();
    proof {
        assert(map_vals(vlans@, crate::model::f_opt_str()) =~= Seq::<
            (u32, Option<Seq<char>>),
        >::empty());
    }
    let mut i: usize = 0;
    while i < nd
        invariant
            0 <= i <= nd,
            nd == data.domains@.len(),
            dsv == bds_view(data.domains@),
            dsv.len() == nd,
            forall|k: int|
                0 <= k < nd ==> #[trigger] dsv[k] == crate::semantics::bd_view(data.domains@[k]),
            vlans.wf(),
            spec_vlan_map(dsv, 0, Seq::empty()) == spec_vlan_map(
                dsv,
                i as int,
                map_vals(vlans@, crate::model::f_opt_str()),
            ),
        decreases nd - i,
    {
        let d = &data.domains[i];
        proof {
            lemma_map_vals_get(vlans@, d.vlan_tag, crate::model::f_opt_str());
        }
        let keep_existing = match vlans.get(d.vlan_tag) {
            Some(v) => v.is_some(),
            None => false,
        };
        let v: Option<String> = if keep_existing {
            match vlans.get(d.vlan_tag) {
                Some(v) => match v {
                    Some(s) => Some(s.as_str().to_owned()),
                    None => None,
                },
                None => None,
            }
        } else {
            match &d.description {
                Some(s) => Some(s.as_str().to_owned()),
                None => None,
            }
        };
        proof {
            lemma_map_vals_insert(vlans@, d.vlan_tag, v, u32_lt(), crate::model::f_opt_str());
        }
        vlans.insert(d.vlan_tag, v);
        i += 1;
    }

    // Trunk membership by base interface.
    let mut trunks: NameMap<crate::omap::VlanTagSet> = NameMap::new();
    proof {
        assert(map_vals(trunks@, f_tags()) =~= Seq::<(Seq<char>, Seq<u32>)>::empty());
    }
    let mut i: usize = 0;
    while i < nd
        invariant
            0 <= i <= nd,
            nd == data.domains@.len(),
            dsv == bds_view(data.domains@),
            dsv.len() == nd,
            forall|k: int|
                0 <= k < nd ==> #[trigger] dsv[k] == crate::semantics::bd_view(data.domains@[k]),
            trunks.wf(),
            forall|k: int| 0 <= k < trunks@.len() ==> (#[trigger] trunks@[k].1).wf(),
            map_vals(trunks@, f_tags()) == old_trunks_of(dsv, i as int),
        decreases nd - i,
    {
        let d = &data.domains[i];
        let nm = d.interfaces.len();
        let ghost membersv = dsv[i as int].interfaces;
        let mut j: usize = 0;
        while j < nm
            invariant
                0 <= j <= nm,
                0 <= i < nd,
                nm == d.interfaces@.len(),
                d == &data.domains[i as int],
                dsv[i as int] == crate::semantics::bd_view(data.domains@[i as int]),
                membersv == dsv[i as int].interfaces,
                membersv.len() == nm,
                trunks.wf(),
                forall|k: int| 0 <= k < trunks@.len() ==> (#[trigger] trunks@[k].1).wf(),
                spec_trunk_members(
                    membersv,
                    dsv[i as int].vlan_tag,
                    j as int,
                    map_vals(trunks@, f_tags()),
                ) == old_trunks_of(dsv, i + 1),
            decreases nm - j,
        {
            let ghost accv = map_vals(trunks@, f_tags());
            let member = &d.interfaces[j];
            proof {
                assert(membersv[j as int] == d.interfaces@[j as int]@);
            }
            match crate::semantics::split_subinterface_id(member.as_str()) {
                Ok(p) => {
                    if p.1.is_some() {
                        let base = p.0;
                        proof {
                            lemma_map_vals_get(trunks@, base@, f_tags());
                        }
                        let mut set: crate::omap::VlanTagSet = match trunks.get(base.as_str()) {
                            Some(s) => {
                                proof {
                                    crate::omap::lemma_omap_get_index(trunks@, base@);
                                    let k = choose|k: int|
                                        0 <= k < trunks@.len() && #[trigger] trunks@[k] == (
                                        base@,
                                        *s,
                                        );
                                    assert(trunks@[k].1 == *s);
                                }
                                s.copy_of()
                            },
                            None => crate::omap::VlanTagSet::new(),
                        };
                        set.insert(d.vlan_tag);
                        let ghost pret = trunks@;
                        proof {
                            lemma_map_vals_insert(trunks@, base@, set, name_lt(), f_tags());
                        }
                        let ghost setg = set;
                        trunks.insert(base, set);
                        proof {
                            crate::omap::lemma_omap_insert_vals(pret, base@, setg, name_lt());
                            assert forall|k2: int|
                                0 <= k2 < trunks@.len() implies (
                            #[trigger] trunks@[k2].1).wf() by {
                                if trunks@[k2].1 == setg {
                                } else {
                                    let i0 = choose|i0: int|
                                        0 <= i0 < pret.len() && #[trigger] pret[i0]
                                            == trunks@[k2];
                                }
                            }
                        }
                    }
                },
                Err(_) => {},
            }
            j += 1;
        }
        proof {
            assert(spec_trunk_members(
                membersv,
                dsv[i as int].vlan_tag,
                nm as int,
                map_vals(trunks@, f_tags()),
            ) == map_vals(trunks@, f_tags()));
        }
        i += 1;
    }
    proof {
        lemma_old_trunks(dsv, nd as int);
        assert(spec_trunk_map(dsv, nd as int, old_trunks_of(dsv, nd as int)) == old_trunks_of(
            dsv,
            nd as int,
        ));
    }
    let ghost trunksv = map_vals(trunks@, f_tags());
    let ghost vlansv = map_vals(vlans@, crate::model::f_opt_str());

    // Render.
    let mut lines: Vec<String> = Vec::new();
    proof {
        assert(lv(lines@) =~= Seq::<Seq<char>>::empty());
    }
    let nt = trunks.len();
    if nt > 0 {
        let mut i: usize = 0;
        while i < nt
            invariant
                0 <= i <= nt,
                nt == trunks@.len(),
                data.wf(),
                trunks.wf(),
                forall|k: int| 0 <= k < trunks@.len() ==> (#[trigger] trunks@[k].1).wf(),
                trunksv == map_vals(trunks@, f_tags()),
                trunksv.len() == nt,
                dv == sd_view(*data),
                lines_trunks(Seq::empty(), trunksv, 0, dv.base_interfaces, dv.bundle_members)
                    == lines_trunks(
                    lv(lines@),
                    trunksv,
                    i as int,
                    dv.base_interfaces,
                    dv.bundle_members,
                ),
            decreases nt - i,
        {
            let name = trunks.key_at(i);
            let tags = trunks.val_at(i);
            proof {
                assert(trunksv[i as int] == (name@, tags@));
            }
            let ghost pre = lv(lines@);
            let mut hdr = String::new();
            hdr.append("interface ");
            hdr.append(name.as_str());
            lines.push(hdr);
            proof {
                assert(lv(lines@) =~= pre.push("interface "@ + name@));
            }
            push_if_stmts(&mut lines, &data.base_interfaces, name.as_str());
            let ghost a_sts = lv(lines@);
            let vlan_list = format_vlan_ranges(tags);
            lines.push("  switchport mode trunk".to_owned());
            let mut tl = String::new();
            tl.append("  switchport trunk allowed vlan add ");
            tl.append(vlan_list.as_str());
            lines.push(tl);
            lines.push(String::new());
            proof {
                assert(lv(lines@) =~= a_sts.push("  switchport mode trunk"@).push(
                    "  switchport trunk allowed vlan add "@ + spec_ranges(tags@),
                ).push(Seq::<char>::empty()));
            }
            let ghost a_trunklines = lv(lines@);
            proof {
                lemma_map_vals_get(data.bundle_members@, name@, f_set());
            }
            match data.bundle_members.get(name.as_str()) {
                Some(members) => {
                    proof {
                        crate::omap::lemma_omap_get_index(data.bundle_members@, name@);
                        let k = choose|k: int|
                            0 <= k < data.bundle_members@.len()
                                && #[trigger] data.bundle_members@[k] == (name@, *members);
                        assert(data.bundle_members@[k].1 == *members);
                    }
                    let nmm = members.len();
                    let mut j: usize = 0;
                    while j < nmm
                        invariant
                            0 <= j <= nmm,
                            nmm == members@.len(),
                            data.wf(),
                            dv == sd_view(*data),
                            lines_bundle(
                                a_trunklines,
                                members@,
                                0,
                                dv.base_interfaces,
                            ) == lines_bundle(
                                lv(lines@),
                                members@,
                                j as int,
                                dv.base_interfaces,
                            ),
                        decreases nmm - j,
                    {
                        let m = members.get_at(j);
                        let ghost pre2 = lv(lines@);
                        let mut h = String::new();
                        h.append("interface ");
                        h.append(m.as_str());
                        lines.push(h);
                        proof {
                            assert(lv(lines@) =~= pre2.push("interface "@ + members@[j as int]));
                        }
                        push_if_stmts(&mut lines, &data.base_interfaces, m.as_str());
                        let ghost pre3 = lv(lines@);
                        lines.push(String::new());
                        proof {
                            assert(lv(lines@) =~= pre3.push(Seq::<char>::empty()));
                        }
                        j += 1;
                    }
                },
                None => {},
            }
            i += 1;
        }
    }
    let ghost a1 = lv(lines@);
    proof {
        if trunksv.len() == 0 {
            assert(a1 =~= Seq::<Seq<char>>::empty());
        }
    }

    // BVI interfaces.
    let nb = data.bvi_interfaces.len();
    if nb > 0 {
        let need_sep = if lines.len() > 0 {
            str_len(lines[lines.len() - 1].as_str()) > 0
        } else {
            false
        };
        if need_sep {
            let ghost pre = lv(lines@);
            lines.push(String::new());
            proof {
                assert(lv(lines@) =~= pre.push(Seq::<char>::empty()));
            }
        }
        proof {
            assert(lv(lines@) == with_sep(a1));
        }
        let ghost entry = lv(lines@);
        let mut i: usize = 0;
        while i < nb
            invariant
                0 <= i <= nb,
                nb == data.bvi_interfaces@.len(),
                data.wf(),
                dv == sd_view(*data),
                dv.bvi_interfaces.len() == nb,
                forall|k: int|
                    0 <= k < nb ==> #[trigger] dv.bvi_interfaces[k] == (
                    data.bvi_interfaces@[k].0,
                    crate::model::opt_str_view(data.bvi_interfaces@[k].1),
                    ),
                lines_bvi_ifs(entry, dv.bvi_interfaces, 0) == lines_bvi_ifs(
                    lv(lines@),
                    dv.bvi_interfaces,
                    i as int,
                ),
            decreases nb - i,
        {
            let name = data.bvi_interfaces.key_at(i);
            let desc = data.bvi_interfaces.val_at(i);
            let ghost pre = lv(lines@);
            let mut h = String::new();
            h.append("interface ");
            h.append(name.as_str());
            lines.push(h);
            match desc {
                Some(d) => {
                    let mut dl = String::new();
                    dl.append("  description ");
                    dl.append(d.as_str());
                    lines.push(dl);
                },
                None => {},
            }
            lines.push("  ! -- L3 config reduced --".to_owned());
            lines.push(String::new());
            proof {
                let a = pre.push("interface "@ + name@);
                let b = match dv.bvi_interfaces[i as int].1 {
                    Some(d) => a.push("  description "@ + d),
                    None => a,
                };
                assert(lv(lines@) =~= b.push("  ! -- L3 config reduced --"@).push(
                    Seq::<char>::empty(),
                ));
            }
            i += 1;
        }
    }
    let ghost a2 = lv(lines@);
    proof {
        if dv.bvi_interfaces.len() == 0 {
            assert(a2 == a1);
        }
    }

    // Reconstructed vlan database.
    let nv = vlans.len();
    if nv > 0 {
        let need_sep = if lines.len() > 0 {
            str_len(lines[lines.len() - 1].as_str()) > 0
        } else {
            false
        };
        if need_sep {
            let ghost pre = lv(lines@);
            lines.push(String::new());
            proof {
                assert(lv(lines@) =~= pre.push(Seq::<char>::empty()));
            }
        }
        proof {
            assert(lv(lines@) == with_sep(a2));
        }
        lines.push("vlan database".to_owned());
        let ghost entry = lv(lines@);
        proof {
            assert(entry =~= with_sep(a2).push("vlan database"@));
        }
        let mut i: usize = 0;
        while i < nv
            invariant
                0 <= i <= nv,
                nv == vlans@.len(),
                vlans.wf(),
                vlansv == map_vals(vlans@, crate::model::f_opt_str()),
                vlansv.len() == nv,
                lines_vlan_db(entry, vlansv, 0) == lines_vlan_db(lv(lines@), vlansv, i as int),
            decreases nv - i,
        {
            let tag = vlans.key_at(i);
            let desc = vlans.val_at(i);
            let ghost pre = lv(lines@);
            let num = u32_to_string(tag);
            let mut line = String::new();
            line.append("  vlan ");
            line.append(num.as_str());
            match desc {
                Some(d) => {
                    line.append(" name ");
                    line.append(d.as_str());
                },
                None => {},
            }
            lines.push(line);
            proof {
                assert(vlansv[i as int] == (tag, crate::model::opt_str_view(*desc)));
                assert(lv(lines@) =~= pre.push(
                    match vlansv[i as int].1 {
                        Some(d) => "  vlan "@ + dec_str(tag as nat) + " name "@ + d,
                        None => "  vlan "@ + dec_str(tag as nat),
                    },
                ));
            }
            i += 1;
        }
    }
    proof {
        if vlansv.len() == 0 {
            assert(lv(lines@) == a2);
        }
    }

    // Trim trailing blank lines and join.
    let ghost full = lv(lines@);
    while lines.len() > 0 && str_len(lines[lines.len() - 1].as_str()) == 0
        invariant
            spec_trim_trailing(full) == spec_trim_trailing(lv(lines@)),
        decreases lines@.len(),
    {
        let ghost pre = lv(lines@);
        lines.pop();
        proof {
            assert(lv(lines@) =~= pre.drop_last());
        }
    }
    proof {
        assert(spec_trim_trailing(lv(lines@)) == lv(lines@));
    }
    join_lines(&lines)
}

/// Value mapper for trunk tag sets.
pub open spec fn f_tags() -> spec_fn(crate::omap::VlanTagSet) -> Seq<u32> {
    |v: crate::omap::VlanTagSet| v@
}

proof fn lemma_old_trunks(ds: Seq<SpecBridgeDomain>, i: int)
    requires
        0 <= i <= ds.len(),
    ensures
        spec_trunk_map(ds, i, old_trunks_of(ds, i)) == spec_trunk_map(ds, 0, Seq::empty()),
    decreases i,
{
    if i > 0 {
        lemma_old_trunks(ds, i - 1);
        assert(spec_trunk_map(ds, i - 1, old_trunks_of(ds, i - 1)) == spec_trunk_map(
            ds,
            i,
            spec_trunk_members(ds[i - 1].interfaces, ds[i - 1].vlan_tag, 0, old_trunks_of(ds, i - 1)),
        ));
    }
}

/// The trunk table as it stands when registration reaches domain `i`.
pub open spec fn old_trunks_of(ds: Seq<SpecBridgeDomain>, i: int) -> Seq<(Seq<char>, Seq<u32>)>
    decreases i,
    when 0 <= i <= ds.len()
{
    if i <= 0 {
        Seq::empty()
    } else {
        spec_trunk_members(ds[i - 1].interfaces, ds[i - 1].vlan_tag, 0, old_trunks_of(ds, i - 1))
    }
}

/// Push the recorded statements of an interface, indented.
fn push_if_stmts(lines: &mut Vec<String>, base_ifs: &NameMap<Vec<String>>, name: &str)
    requires
        base_ifs.wf(),
    ensures
        lv(final(lines)@) == lines_if_stmts(lv(old(lines)@), map_vals(base_ifs@, f_strs()), name@),
{
    proof {
        lemma_map_vals_get(base_ifs@, name@, f_strs());
    }
    match base_ifs.get(name) {
        Some(sts) => {
            let ghost stsv = sts@.map_values(|s: String| s@);
            let n = sts.len();
            let mut j: usize = 0;
            while j < n
                invariant
                    0 <= j <= n,
                    n == sts@.len(),
                    stsv == sts@.map_values(|s: String| s@),
                    stsv.len() == n,
                    lines_sts(lv(old(lines)@), stsv, 0) == lines_sts(lv(lines@), stsv, j as int),
                decreases n - j,
            {
                let mut line = String::new();
                line.append("  ");
                line.append(sts[j].as_str());
                let ghost pre = lv(lines@);
                lines.push(line);
                proof {
                    assert(lv(lines@) =~= pre.push("  "@ + stsv[j as int]));
                }
                j += 1;
            }
        },
        None => {},
    }
}

} // verus!
