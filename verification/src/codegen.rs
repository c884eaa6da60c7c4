//! Rendering the change plan into the final ordered command text.

use vstd::prelude::*;
use crate::model::{
    ChangePlan, ChangeSpec, SpecChangePlan, SpecChangeSpec, SpecInterfaceChange,
    SpecInterfaceCreation, SpecVlanChange, cs_view, plan_view,
};
use crate::omap::omap_contains;
use crate::span::Span;
use crate::text::{dec_str, u32_to_string, spec_join, join_lines, str_len};

verus! {

/// The indented pass-through statement lines of one interface.
pub open spec fn lines_stmts(acc: Seq<Seq<char>>, sts: Seq<(Seq<char>, Span)>, j: int) -> Seq<
    Seq<char>,
>
    decreases sts.len() - j,
    when 0 <= j <= sts.len()
{
    if j >= sts.len() {
        acc
    } else {
        lines_stmts(acc.push("  "@ + sts[j].0), sts, j + 1)
    }
}

/// Pass-through blocks for every interface with extra statements.
pub open spec fn lines_interfaces(
    acc: Seq<Seq<char>>,
    ifcs: Seq<(Seq<char>, SpecInterfaceChange)>,
    i: int,
) -> Seq<Seq<char>>
    decreases ifcs.len() - i,
    when 0 <= i <= ifcs.len()
{
    if i >= ifcs.len() {
        acc
    } else {
        let next = if ifcs[i].1.other_statements.len() > 0 {
            lines_stmts(acc.push("interface "@ + ifcs[i].0), ifcs[i].1.other_statements, 0).push(
                "exit"@,
            ).push(Seq::empty())
        } else {
            acc
        };
        lines_interfaces(next, ifcs, i + 1)
    }
}

/// Pass-through blocks for every BVI interface with statements.
pub open spec fn lines_bvis(
    acc: Seq<Seq<char>>,
    bvis: Seq<(u32, Seq<(Seq<char>, Span)>)>,
    i: int,
) -> Seq<Seq<char>>
    decreases bvis.len() - i,
    when 0 <= i <= bvis.len()
{
    if i >= bvis.len() {
        acc
    } else {
        let next = if bvis[i].1.len() > 0 {
            lines_stmts(
                acc.push("interface BVI"@ + dec_str(bvis[i].0 as nat)),
                bvis[i].1,
                0,
            ).push("exit"@).push(Seq::empty())
        } else {
            acc
        };
        lines_bvis(next, bvis, i + 1)
    }
}

/// The block of removal commands, when any.
pub open spec fn lines_removals(acc: Seq<Seq<char>>, cmds: Seq<Seq<char>>) -> Seq<Seq<char>> {
    if cmds.len() > 0 {
        acc + cmds + seq![Seq::<char>::empty()]
    } else {
        acc
    }
}

/// The l2transport stanza of one planned subinterface creation.
pub open spec fn lines_one_addition(acc: Seq<Seq<char>>, a: SpecInterfaceCreation) -> Seq<
    Seq<char>,
> {
    acc.push("interface "@ + a.baseif + "."@ + dec_str(a.vlan as nat) + " l2transport"@).push(
        "  description "@ + a.description,
    ).push("  encapsulation dot1q "@ + dec_str(a.vlan as nat)).push(
        "  rewrite ingress tag pop 1 symmetric"@,
    ).push("exit"@).push(Seq::empty())
}

/// Stanzas for every planned creation, in planning order.
pub open spec fn lines_additions(
    acc: Seq<Seq<char>>,
    adds: Seq<SpecInterfaceCreation>,
    i: int,
) -> Seq<Seq<char>>
    decreases adds.len() - i,
    when 0 <= i <= adds.len()
{
    if i >= adds.len() {
        acc
    } else {
        lines_additions(lines_one_addition(acc, adds[i]), adds, i + 1)
    }
}

/// `no interface` lines of one bridge-domain, in ascending member order.
pub open spec fn lines_vc_removals(acc: Seq<Seq<char>>, rs: Seq<Seq<char>>, j: int) -> Seq<
    Seq<char>,
>
    decreases rs.len() - j,
    when 0 <= j <= rs.len()
{
    if j >= rs.len() {
        acc
    } else {
        lines_vc_removals(acc.push("      no interface "@ + rs[j]), rs, j + 1)
    }
}

/// Member lines of one bridge-domain, in planning order.
pub open spec fn lines_vc_additions(acc: Seq<Seq<char>>, adds: Seq<(Seq<char>, u32)>, j: int) -> Seq<
    Seq<char>,
>
    decreases adds.len() - j,
    when 0 <= j <= adds.len()
{
    if j >= adds.len() {
        acc
    } else {
        lines_vc_additions(
            acc.push("      interface "@ + adds[j].0 + "."@ + dec_str(adds[j].1 as nat)).push(
                "      exit"@,
            ),
            adds,
            j + 1,
        )
    }
}

/// The `bridge-domain VLAN<n>` stanza of one VLAN's aggregate.
///
/// The description is emitted only when the VLAN was explicitly named in
/// the change input's VLAN database.
pub open spec fn lines_one_vc(acc: Seq<Seq<char>>, vc: SpecVlanChange, cs: SpecChangeSpec) -> Seq<
    Seq<char>,
> {
    let a1 = acc.push("    bridge-domain VLAN"@ + dec_str(vc.vlan as nat));
    let a2 = if omap_contains(cs.vlans, vc.vlan) && (vc.description matches Some(p) && p.0.len()
        > 0) {
        a1.push("      description "@ + (vc.description->0).0)
    } else {
        a1
    };
    let a3 = lines_vc_removals(a2, vc.removals, 0);
    let a4 = lines_vc_additions(a3, vc.additions, 0);
    let a5 = if vc.add_bvi {
        a4.push("      routed interface BVI"@ + dec_str(vc.vlan as nat)).push("      exit"@)
    } else {
        a4
    };
    a5.push("    exit"@)
}

/// Stanzas for every touched VLAN, ascending by tag.
pub open spec fn lines_vcs(
    acc: Seq<Seq<char>>,
    vcs: Seq<(u32, SpecVlanChange)>,
    i: int,
    cs: SpecChangeSpec,
) -> Seq<Seq<char>>
    decreases vcs.len() - i,
    when 0 <= i <= vcs.len()
{
    if i >= vcs.len() {
        acc
    } else {
        lines_vcs(lines_one_vc(acc, vcs[i].1, cs), vcs, i + 1, cs)
    }
}

/// The whole `l2vpn / bridge group VLAN` section, when any VLAN was
/// touched.
pub open spec fn lines_l2vpn(
    acc: Seq<Seq<char>>,
    vcs: Seq<(u32, SpecVlanChange)>,
    cs: SpecChangeSpec,
) -> Seq<Seq<char>> {
    if vcs.len() > 0 {
        lines_vcs(acc.push("l2vpn"@).push("  bridge group VLAN"@), vcs, 0, cs).push("  exit"@).push(
            "exit"@,
        )
    } else {
        acc
    }
}

/// All output lines before trailing blank lines are trimmed.
pub open spec fn spec_render_lines(plan: SpecChangePlan, cs: SpecChangeSpec) -> Seq<Seq<char>> {
    let a1 = lines_interfaces(Seq::empty(), cs.interface_changes, 0);
    let a2 = lines_bvis(a1, cs.bvi_statements, 0);
    let a3 = lines_removals(a2, plan.removal_cmds);
    let a4 = lines_additions(a3, plan.additions, 0);
    lines_l2vpn(a4, plan.vlan_changes, cs)
}

/// Drop trailing blank lines.
pub open spec fn spec_trim_trailing(lines: Seq<Seq<char>>) -> Seq<Seq<char>>
    decreases lines.len(),
{
    if lines.len() > 0 && lines.last().len() == 0 {
        spec_trim_trailing(lines.drop_last())
    } else {
        lines
    }
}

/// Model of `generate_commands`: the rendered sections, trailing blank
/// lines trimmed, joined with newlines.
pub open spec fn spec_generate_commands(plan: SpecChangePlan, cs: SpecChangeSpec) -> Seq<char> {
    spec_join(spec_trim_trailing(spec_render_lines(plan, cs)))
}

/// The line-sequence view of rendered output under construction.
pub open spec fn lv(lines: Seq<String>) -> Seq<Seq<char>> {
    lines.map_values(|l: String| l@)
}

/// Render the change plan, plus the pass-through statements of the change
/// input, into the final ordered command text.
///
/// Total: every invariant was established upstream, so rendering cannot
/// fail.
pub fn generate_commands(plan: &ChangePlan, change_spec: &ChangeSpec) -> (r: String)
    requires
        plan.wf(),
        change_spec.wf(),
    ensures
        r@ == spec_generate_commands(plan_view(*plan), cs_view(*change_spec)),
{
    let ghost pv = plan_view(*plan);
    let ghost csv = cs_view(*change_spec);
    let mut lines: Vec<String> = Vec::new();
    proof {
        assert(lv(lines@) =~= Seq::<Seq<char>>::empty());
    }

    // Pass-through interface configuration.
    let nifc = change_spec.interface_changes.len();
    let mut i: usize = 0;
    while i < nifc
        invariant
            0 <= i <= nifc,
            nifc == change_spec.interface_changes@.len(),
            change_spec.wf(),
            csv == cs_view(*change_spec),
            csv.interface_changes.len() == nifc,
            forall|k: int|
                0 <= k < nifc ==> #[trigger] csv.interface_changes[k] == (
                change_spec.interface_changes@[k].0,
                crate::model::ic_view(change_spec.interface_changes@[k].1),
                ),
            lines_interfaces(Seq::empty(), csv.interface_changes, 0) == lines_interfaces(
                lv(lines@),
                csv.interface_changes,
                i as int,
            ),
        decreases nifc - i,
    {
        let name = change_spec.interface_changes.key_at(i);
        let change = change_spec.interface_changes.val_at(i);
        let ghost entry = lv(lines@);
        if change.other_statements.len() > 0 {
            let mut hdr = String::new();
            hdr.append("interface ");
            hdr.append(name.as_str());
            lines.push(hdr);
            let ns = change.other_statements.len();
            let ghost stsv = crate::model::ic_view(*change).other_statements;
            let ghost after_hdr = lv(lines@);
            let mut j: usize = 0;
            while j < ns
                invariant
                    0 <= j <= ns,
                    ns == change.other_statements@.len(),
                    stsv == crate::model::stmts_view(change.other_statements@),
                    stsv.len() == ns,
                    lines_stmts(after_hdr, stsv, 0) == lines_stmts(lv(lines@), stsv, j as int),
                decreases ns - j,
            {
                let st = &change.other_statements[j];
                let mut line = String::new();
                line.append("  ");
                line.append(st.stmt.as_str());
                let ghost pre = lv(lines@);
                lines.push(line);
                proof {
                    assert(stsv[j as int] == (st.stmt@, st.span));
                    assert(lv(lines@) =~= pre.push("  "@ + st.stmt@));
                }
                j += 1;
            }
            let ghost pre = lv(lines@);
            lines.push("exit".to_owned());
            lines.push(String::new());
            proof {
                assert(lv(lines@) =~= pre.push("exit"@).push(Seq::<char>::empty()));
                assert(after_hdr =~= entry.push("interface "@ + name@));
            }
        }
        i += 1;
    }

    // Pass-through BVI configuration.
    let nbvi = change_spec.bvi_statements.len();
    let ghost a1 = lv(lines@);
    let mut i: usize = 0;
    while i < nbvi
        invariant
            0 <= i <= nbvi,
            nbvi == change_spec.bvi_statements@.len(),
            change_spec.wf(),
            csv == cs_view(*change_spec),
            csv.bvi_statements.len() == nbvi,
            forall|k: int|
                0 <= k < nbvi ==> #[trigger] csv.bvi_statements[k] == (
                change_spec.bvi_statements@[k].0,
                crate::model::spanned_strs_view(change_spec.bvi_statements@[k].1@),
                ),
            lines_bvis(a1, csv.bvi_statements, 0) == lines_bvis(
                lv(lines@),
                csv.bvi_statements,
                i as int,
            ),
        decreases nbvi - i,
    {
        let vlan = change_spec.bvi_statements.key_at(i);
        let stmts = change_spec.bvi_statements.val_at(i);
        let ghost entry = lv(lines@);
        if stmts.len() > 0 {
            let mut hdr = String::new();
            hdr.append("interface BVI");
            let num = u32_to_string(vlan);
            hdr.append(num.as_str());
            lines.push(hdr);
            let ns = stmts.len();
            let ghost stsv = crate::model::spanned_strs_view(stmts@);
            let ghost after_hdr = lv(lines@);
            let mut j: usize = 0;
            while j < ns
                invariant
                    0 <= j <= ns,
                    ns == stmts@.len(),
                    stsv == crate::model::spanned_strs_view(stmts@),
                    stsv.len() == ns,
                    lines_stmts(after_hdr, stsv, 0) == lines_stmts(lv(lines@), stsv, j as int),
                decreases ns - j,
            {
                let st = &stmts[j];
                let mut line = String::new();
                line.append("  ");
                line.append(st.value.as_str());
                let ghost pre = lv(lines@);
                lines.push(line);
                proof {
                    assert(stsv[j as int] == (st.value@, st.span));
                    assert(lv(lines@) =~= pre.push("  "@ + st.value@));
                }
                j += 1;
            }
            let ghost pre = lv(lines@);
            lines.push("exit".to_owned());
            lines.push(String::new());
            proof {
                assert(lv(lines@) =~= pre.push("exit"@).push(Seq::<char>::empty()));
                assert(after_hdr =~= entry.push("interface BVI"@ + dec_str(vlan as nat)));
            }
        }
        i += 1;
    }

    // Removal commands, as one contiguous block.
    let ghost a2 = lv(lines@);
    if plan.removal_cmds.len() > 0 {
        let nr = plan.removal_cmds.len();
        let mut j: usize = 0;
        while j < nr
            invariant
                0 <= j <= nr,
                nr == plan.removal_cmds@.len(),
                pv == plan_view(*plan),
                pv.removal_cmds.len() == nr,
                lv(lines@) == a2 + pv.removal_cmds.take(j as int),
            decreases nr - j,
        {
            let ghost pre = lv(lines@);
            lines.push(plan.removal_cmds[j].as_str().to_owned());
            proof {
                assert(pv.removal_cmds[j as int] == plan.removal_cmds@[j as int]@);
                assert(lv(lines@) =~= pre.push(pv.removal_cmds[j as int]));
                assert(a2 + pv.removal_cmds.take(j + 1) =~= (a2 + pv.removal_cmds.take(
                    j as int,
                )).push(pv.removal_cmds[j as int]));
            }
            j += 1;
        }
        lines.push(String::new());
        proof {
            assert(pv.removal_cmds.take(nr as int) =~= pv.removal_cmds);
            assert(lv(lines@) =~= (a2 + pv.removal_cmds).push(Seq::<char>::empty()));
            assert(lv(lines@) =~= a2 + pv.removal_cmds + seq![Seq::<char>::empty()]);
        }
    }
    proof {
        assert(lv(lines@) == lines_removals(a2, pv.removal_cmds)) by {
            if pv.removal_cmds.len() == 0 {
            }
        }
    }

    // New subinterface stanzas.
    let ghost a3 = lv(lines@);
    let nadd = plan.additions.len();
    let mut i: usize = 0;
    while i < nadd
        invariant
            0 <= i <= nadd,
            nadd == plan.additions@.len(),
            pv == plan_view(*plan),
            pv.additions.len() == nadd,
            forall|k: int|
                0 <= k < nadd ==> #[trigger] pv.additions[k] == crate::model::creation_view(
                    plan.additions@[k],
                ),
            lines_additions(a3, pv.additions, 0) == lines_additions(
                lv(lines@),
                pv.additions,
                i as int,
            ),
        decreases nadd - i,
    {
        let a = &plan.additions[i];
        let ghost pre = lv(lines@);
        let num = u32_to_string(a.vlan.get());
        let mut l1 = String::new();
        l1.append("interface ");
        l1.append(a.baseif.0.as_str());
        l1.append(".");
        l1.append(num.as_str());
        l1.append(" l2transport");
        lines.push(l1);
        let mut l2 = String::new();
        l2.append("  description ");
        l2.append(a.description.as_str());
        lines.push(l2);
        let mut l3 = String::new();
        l3.append("  encapsulation dot1q ");
        l3.append(num.as_str());
        lines.push(l3);
        lines.push("  rewrite ingress tag pop 1 symmetric".to_owned());
        lines.push("exit".to_owned());
        lines.push(String::new());
        proof {
            assert(lv(lines@) =~= lines_one_addition(pre, pv.additions[i as int]));
        }
        i += 1;
    }

    // The l2vpn bridge-domain section.
    let ghost a4 = lv(lines@);
    let nvc = plan.vlan_changes.len();
    if nvc > 0 {
        lines.push("l2vpn".to_owned());
        lines.push("  bridge group VLAN".to_owned());
        let ghost entry = lv(lines@);
        proof {
            assert(entry =~= a4.push("l2vpn"@).push("  bridge group VLAN"@));
        }
        let mut i: usize = 0;
        while i < nvc
            invariant
                0 <= i <= nvc,
                nvc == plan.vlan_changes@.len(),
                plan.wf(),
                change_spec.wf(),
                csv == cs_view(*change_spec),
                pv == plan_view(*plan),
                pv.vlan_changes.len() == nvc,
                forall|k: int|
                    0 <= k < nvc ==> #[trigger] pv.vlan_changes[k] == (
                    plan.vlan_changes@[k].0,
                    crate::model::vc_view(plan.vlan_changes@[k].1),
                    ),
                lines_vcs(entry, pv.vlan_changes, 0, csv) == lines_vcs(
                    lv(lines@),
                    pv.vlan_changes,
                    i as int,
                    csv,
                ),
            decreases nvc - i,
        {
            let vc = plan.vlan_changes.val_at(i);
            let ghost vcv = crate::model::vc_view(*vc);
            let ghost pre = lv(lines@);
            let num = u32_to_string(vc.vlan.get());
            let mut hdr = String::new();
            hdr.append("    bridge-domain VLAN");
            hdr.append(num.as_str());
            lines.push(hdr);
            proof {
                crate::omap::lemma_map_vals_get(
                    change_spec.vlans@,
                    vc.vlan.0,
                    crate::model::f_vlan_name(),
                );
            }
            let in_db = change_spec.vlans.contains_key(vc.vlan.get());
            let ghost after_hdr = lv(lines@);
            match &vc.description {
                Some(desc) if in_db && desc.value.unicode_len() > 0 => {
                    let mut dl = String::new();
                    dl.append("      description ");
                    dl.append(desc.value.as_str());
                    lines.push(dl);
                    proof {
                        assert(lv(lines@) =~= after_hdr.push(
                            "      description "@ + (vcv.description->0).0,
                        ));
                    }
                },
                _ => {},
            }
            let ghost a_desc = lv(lines@);
            proof {
                assert(after_hdr =~= pre.push("    bridge-domain VLAN"@ + dec_str(
                    vcv.vlan as nat,
                )));
            }
            // removals of this bridge-domain
            let nrm = vc.removals.len();
            let mut j: usize = 0;
            while j < nrm
                invariant
                    0 <= j <= nrm,
                    nrm == vcv.removals.len(),
                    vcv == crate::model::vc_view(*vc),
                    vc.removals.wf(),
                    lines_vc_removals(a_desc, vcv.removals, 0) == lines_vc_removals(
                        lv(lines@),
                        vcv.removals,
                        j as int,
                    ),
                decreases nrm - j,
            {
                let rname = vc.removals.get_at(j);
                let mut line = String::new();
                line.append("      no interface ");
                line.append(rname.as_str());
                let ghost pre2 = lv(lines@);
                lines.push(line);
                proof {
                    assert(lv(lines@) =~= pre2.push("      no interface "@ + vcv.removals[
                        j as int]));
                }
                j += 1;
            }
            let ghost a_rm = lv(lines@);
            // additions of this bridge-domain
            let nad = vc.additions.len();
            let mut j: usize = 0;
            while j < nad
                invariant
                    0 <= j <= nad,
                    nad == vc.additions@.len(),
                    vcv == crate::model::vc_view(*vc),
                    vcv.additions.len() == nad,
                    lines_vc_additions(a_rm, vcv.additions, 0) == lines_vc_additions(
                        lv(lines@),
                        vcv.additions,
                        j as int,
                    ),
                decreases nad - j,
            {
                let m = &vc.additions[j];
                let mnum = u32_to_string(m.vlan.get());
                let mut line = String::new();
                line.append("      interface ");
                line.append(m.baseif.0.as_str());
                line.append(".");
                line.append(mnum.as_str());
                let ghost pre2 = lv(lines@);
                lines.push(line);
                lines.push("      exit".to_owned());
                proof {
                    assert(vcv.additions[j as int] == (m.baseif.0@, m.vlan.0));
                    assert(lv(lines@) =~= pre2.push(
                        "      interface "@ + m.baseif.0@ + "."@ + dec_str(m.vlan.0 as nat),
                    ).push("      exit"@));
                }
                j += 1;
            }
            let ghost a_ad = lv(lines@);
            if vc.add_bvi {
                let mut line = String::new();
                line.append("      routed interface BVI");
                line.append(num.as_str());
                lines.push(line);
                lines.push("      exit".to_owned());
                proof {
                    assert(lv(lines@) =~= a_ad.push(
                        "      routed interface BVI"@ + dec_str(vcv.vlan as nat),
                    ).push("      exit"@));
                }
            }
            lines.push("    exit".to_owned());
            proof {
                assert(lv(lines@) =~= (if vcv.add_bvi {
                    a_ad.push("      routed interface BVI"@ + dec_str(vcv.vlan as nat)).push(
                        "      exit"@,
                    )
                } else {
                    a_ad
                }).push("    exit"@));
                assert(lv(lines@) == lines_one_vc(pre, vcv, csv));
                assert(pv.vlan_changes[i as int].1 == vcv);
            }
            i += 1;
        }
        lines.push("  exit".to_owned());
        lines.push("exit".to_owned());
        proof {
            assert(lv(lines@) =~= lines_vcs(entry, pv.vlan_changes, 0, csv).push(
                "  exit"@,
            ).push("exit"@));
        }
    }
    proof {
        assert(lv(lines@) == lines_l2vpn(a4, pv.vlan_changes, csv)) by {
            if pv.vlan_changes.len() == 0 {
            }
        }
        assert(lv(lines@) == spec_render_lines(pv, csv));
    }

    // Trim trailing blank lines and join.
    let ghost full = lv(lines@);
    while lines.len() > 0 && str_len(lines[lines.len() - 1].as_str()) == 0
        invariant
            spec_trim_trailing(full) == spec_trim_trailing(lv(lines@)),
        decreases lines@.len(),
    {
        let ghost pre = lv(lines@);
        lines.pop();
        proof {
            assert(lv(lines@) =~= pre.drop_last());
        }
    }
    proof {
        assert(spec_trim_trailing(lv(lines@)) == lv(lines@));
    }
    join_lines(&lines)
}

} // verus!
