//! Change planning: replaying trunk operations, diffing against the
//! existing configuration, and aggregating per-VLAN bridge-domain changes.

use vstd::prelude::*;
use crate::diagnostic::{Diagnostic, SpecDiag, diag_view};
use crate::model::{
    BaseContext, BaseIf, ChangePlan, ChangeSpec, InterfaceChange, SpecBaseContext, SpecChangePlan,
    SpecChangeSpec, SpecInterfaceChange, SpecInterfaceCreation, SpecVlanChange, VlanChange, VlanId,
    InterfaceCreation, bc_view, cs_view, ic_view, vc_view, plan_view, spec_new_vc, empty_plan,
    f_vc,
};
use crate::omap::{
    VlanTagSet, VlanMap, omap_get, omap_insert, omap_remove, oset_insert, oset_remove, oset_diff, u32_lt,
    nameset_insert, lemma_map_vals_get, lemma_map_vals_insert, lemma_map_vals_remove,
    lemma_omap_get_index, lemma_omap_insert_vals, lemma_omap_remove_vals,
};
use crate::span::{Span, span_lt};
use crate::text::{dec_str, u32_to_string};
use crate::validator::{
    spec_removals_error, spec_description_error, spec_addition_error, spec_bundled_error,
    validate_vlan_removals, validate_interface_description, validate_vlan_addition,
    validate_not_bundled_interface,
};

verus! {

// ---------------------------------------------------------------------------
// Trunk operation replay
// ---------------------------------------------------------------------------
/// Model of one requested trunk operation, tagged with its source span.
pub enum SpecTrunkOp {
    /// Drop every VLAN from the trunk.
    Clear(Span),
    /// Replace the trunk wholesale with an explicit set.
    Replace(Span, Seq<u32>),
    /// Remove one VLAN.
    Exclude(Span, u32),
    /// Add one VLAN.
    Include(Span, u32),
}

pub open spec fn op_span(o: SpecTrunkOp) -> Span {
    match o {
        SpecTrunkOp::Clear(sp) => sp,
        SpecTrunkOp::Replace(sp, _) => sp,
        SpecTrunkOp::Exclude(sp, _) => sp,
        SpecTrunkOp::Include(sp, _) => sp,
    }
}

/// Fixed precedence for operations sharing one span: clear before set
/// before remove before add, so replay is deterministic.
pub open spec fn op_rank(o: SpecTrunkOp) -> int {
    match o {
        SpecTrunkOp::Clear(_) => 0,
        SpecTrunkOp::Replace(_, _) => 1,
        SpecTrunkOp::Exclude(_, _) => 2,
        SpecTrunkOp::Include(_, _) => 3,
    }
}

/// Strict replay order: by source position, ties broken by precedence.
pub open spec fn op_lt(a: SpecTrunkOp, b: SpecTrunkOp) -> bool {
    span_lt(op_span(a), op_span(b)) || (op_span(a) == op_span(b) && op_rank(a) < op_rank(b))
}

/// Insert an operation after every operation not strictly above it, so
/// insertion order is kept among equals.
pub open spec fn op_sorted_insert(s: Seq<SpecTrunkOp>, o: SpecTrunkOp) -> Seq<SpecTrunkOp>
    decreases s.len(),
{
    if s.len() == 0 {
        seq![o]
    } else if op_lt(o, s[0]) {
        seq![o] + s
    } else {
        seq![s[0]] + op_sorted_insert(s.drop_first(), o)
    }
}

pub proof fn lemma_op_insert_at(s: Seq<SpecTrunkOp>, o: SpecTrunkOp, pos: int)
    requires
        0 <= pos <= s.len(),
        forall|i: int| 0 <= i < pos ==> !op_lt(o, #[trigger] s[i]),
        pos < s.len() ==> op_lt(o, s[pos]),
    ensures
        op_sorted_insert(s, o) == s.insert(pos, o),
    decreases s.len(),
{
    if s.len() == 0 {
        assert(op_sorted_insert(s, o) =~= s.insert(0, o));
    } else if pos == 0 {
        assert(seq![o] + s =~= s.insert(0, o));
    } else {
        lemma_op_insert_at(s.drop_first(), o, pos - 1);
        assert(seq![s[0]] + s.drop_first().insert(pos - 1, o) =~= s.insert(pos, o));
    }
}

/// Fold the add or remove table into the sorted operation list.
pub open spec fn ops_with_pairs(
    s: Seq<SpecTrunkOp>,
    pairs: Seq<(u32, Span)>,
    i: int,
    adding: bool,
) -> Seq<SpecTrunkOp>
    decreases pairs.len() - i,
    when 0 <= i <= pairs.len()
{
    if i >= pairs.len() {
        s
    } else {
        let o = if adding {
            SpecTrunkOp::Include(pairs[i].1, pairs[i].0)
        } else {
            SpecTrunkOp::Exclude(pairs[i].1, pairs[i].0)
        };
        ops_with_pairs(op_sorted_insert(s, o), pairs, i + 1, adding)
    }
}

/// The requested operations of an interface, in replay order.
pub open spec fn spec_ops_list(ic: SpecInterfaceChange) -> Seq<SpecTrunkOp> {
    let s0 = Seq::<SpecTrunkOp>::empty();
    let s1 = match ic.trunk_clear {
        Some(sp) => op_sorted_insert(s0, SpecTrunkOp::Clear(sp)),
        None => s0,
    };
    let s2 = match ic.trunk_set {
        Some(p) => op_sorted_insert(s1, SpecTrunkOp::Replace(p.1, p.0)),
        None => s1,
    };
    let s3 = ops_with_pairs(s2, ic.trunk_add, 0, true);
    ops_with_pairs(s3, ic.trunk_remove, 0, false)
}

/// Replay the operations over the working VLAN set, from `i` on.
pub open spec fn spec_replay(cur: Seq<u32>, ops: Seq<SpecTrunkOp>, i: int) -> Seq<u32>
    decreases ops.len() - i,
    when 0 <= i <= ops.len()
{
    if i >= ops.len() {
        cur
    } else {
        let next = match ops[i] {
            SpecTrunkOp::Clear(_) => Seq::<u32>::empty(),
            SpecTrunkOp::Replace(_, vs) => vs,
            SpecTrunkOp::Exclude(_, v) => oset_remove(cur, v),
            SpecTrunkOp::Include(_, v) => oset_insert(cur, v),
        };
        spec_replay(next, ops, i + 1)
    }
}

/// The desired VLAN set of an interface: its existing set with every
/// requested operation replayed in source order.
pub open spec fn spec_desired(ic: SpecInterfaceChange, existing: Seq<u32>) -> Seq<u32> {
    spec_replay(existing, spec_ops_list(ic), 0)
}

/// An executable trunk operation.
enum TrunkOp {
    Clear(Span),
    Replace(Span, VlanTagSet),
    Exclude(Span, u32),
    Include(Span, u32),
}

spec fn op_view(o: TrunkOp) -> SpecTrunkOp {
    match o {
        TrunkOp::Clear(sp) => SpecTrunkOp::Clear(sp),
        TrunkOp::Replace(sp, vs) => SpecTrunkOp::Replace(sp, vs@),
        TrunkOp::Exclude(sp, v) => SpecTrunkOp::Exclude(sp, v),
        TrunkOp::Include(sp, v) => SpecTrunkOp::Include(sp, v),
    }
}

spec fn ops_view(s: Seq<TrunkOp>) -> Seq<SpecTrunkOp> {
    s.map_values(|o: TrunkOp| op_view(o))
}

fn op_span_exec(o: &TrunkOp) -> (r: Span)
    ensures
        r == op_span(op_view(*o)),
{
    match o {
        TrunkOp::Clear(sp) => *sp,
        TrunkOp::Replace(sp, _) => *sp,
        TrunkOp::Exclude(sp, _) => *sp,
        TrunkOp::Include(sp, _) => *sp,
    }
}

fn op_rank_exec(o: &TrunkOp) -> (r: u8)
    ensures
        r as int == op_rank(op_view(*o)),
{
    match o {
        TrunkOp::Clear(_) => 0,
        TrunkOp::Replace(_, _) => 1,
        TrunkOp::Exclude(_, _) => 2,
        TrunkOp::Include(_, _) => 3,
    }
}

fn op_lt_exec(a: &TrunkOp, b: &TrunkOp) -> (r: bool)
    ensures
        r == op_lt(op_view(*a), op_view(*b)),
{
    let sa = op_span_exec(a);
    let sb = op_span_exec(b);
    if sa.line.get() < sb.line.get() {
        true
    } else if sa.line.get() == sb.line.get() {
        if sa.col_start < sb.col_start {
            true
        } else if sa.col_start == sb.col_start {
            if sa.col_end < sb.col_end {
                true
            } else if sa.col_end == sb.col_end {
                op_rank_exec(a) < op_rank_exec(b)
            } else {
                false
            }
        } else {
            false
        }
    } else {
        false
    }
}

/// Every wholesale-replacement payload in the list is sorted.
spec fn replace_ok(s: Seq<TrunkOp>) -> bool {
    forall|j: int|
        0 <= j < s.len() ==> (#[trigger] s[j] matches TrunkOp::Replace(_, vs)
            ==> crate::omap::oset_sorted(vs@))
}

/// Insert keeping the existing order among operations not strictly above
/// the new one.
fn push_sorted(ops: &mut Vec<TrunkOp>, o: TrunkOp)
    ensures
        ops_view(final(ops)@) == op_sorted_insert(ops_view(old(ops)@), op_view(o)),
        forall|j: int|
            0 <= j < final(ops)@.len() ==> #[trigger] final(ops)@[j] == o || old(
                ops,
            )@.contains(final(ops)@[j]),
{
    let ghost s = ops_view(ops@);
    let n = ops.len();
    let mut pos: usize = 0;
    while pos < n && !op_lt_exec(&o, &ops[pos])
        invariant
            0 <= pos <= n,
            n == ops@.len(),
            *ops == *old(ops),
            s == ops_view(ops@),
            forall|i: int| 0 <= i < pos ==> !op_lt(op_view(o), #[trigger] s[i]),
        decreases n - pos,
    {
        pos += 1;
    }
    proof {
        assert(forall|i: int| 0 <= i < ops@.len() ==> #[trigger] s[i] == op_view(ops@[i]));
        lemma_op_insert_at(s, op_view(o), pos as int);
    }
    let ghost pre = ops@;
    ops.insert(pos, o);
    proof {
        assert(ops_view(ops@) =~= s.insert(pos as int, op_view(o)));
        assert forall|j: int|
            0 <= j < ops@.len() implies #[trigger] ops@[j] == o || pre.contains(ops@[j]) by {
            if j < pos {
                assert(ops@[j] == pre[j]);
            } else if j > pos {
                assert(ops@[j] == pre[j - 1]);
            }
        }
    }
}

/// Compute the desired VLAN set for an interface by replaying its
/// requested operations, ordered by source position with the fixed
/// precedence for ties, over the existing set.
pub fn desired_vlans(change: &InterfaceChange, existing: &VlanTagSet) -> (r: VlanTagSet)
    requires
        change.wf(),
        existing.wf(),
    ensures
        r.wf(),
        r@ == spec_desired(ic_view(*change), existing@),
{
    let ghost ic = ic_view(*change);
    let mut ops: Vec<TrunkOp> = Vec::new();
    proof {
        assert(ops_view(ops@) =~= Seq::<SpecTrunkOp>::empty());
    }
    match &change.trunk_clear {
        Some(sp) => {
            push_sorted(&mut ops, TrunkOp::Clear(*sp));
        },
        None => {},
    }
    let ghost s1 = ops_view(ops@);
    match &change.trunk_set {
        Some(st) => {
            push_sorted(&mut ops, TrunkOp::Replace(st.span, st.value.copy_of()));
        },
        None => {},
    }
    let ghost s2 = ops_view(ops@);
    proof {
        assert(replace_ok(ops@));
    }
    let na = change.trunk_add.len();
    let mut i: usize = 0;
    while i < na
        invariant
            0 <= i <= na,
            na == change.trunk_add@.len(),
            change.wf(),
            ic == ic_view(*change),
            replace_ok(ops@),
            ops_with_pairs(s2, ic.trunk_add, 0, true) == ops_with_pairs(
                ops_view(ops@),
                ic.trunk_add,
                i as int,
                true,
            ),
        decreases na - i,
    {
        let vlan = change.trunk_add.key_at(i);
        let sp = *change.trunk_add.val_at(i);
        let ghost pre = ops@;
        push_sorted(&mut ops, TrunkOp::Include(sp, vlan));
        proof {
            assert forall|j: int|
                0 <= j < ops@.len() implies (#[trigger] ops@[j] matches TrunkOp::Replace(_, vs)
                ==> crate::omap::oset_sorted(vs@)) by {
                if ops@[j] == TrunkOp::Include(sp, vlan) {
                } else {
                    assert(pre.contains(ops@[j]));
                    let j0 = choose|j0: int| 0 <= j0 < pre.len() && pre[j0] == ops@[j];
                }
            }
        }
        i += 1;
    }
    let nr = change.trunk_remove.len();
    let ghost s3 = ops_view(ops@);
    let mut i: usize = 0;
    while i < nr
        invariant
            0 <= i <= nr,
            nr == change.trunk_remove@.len(),
            change.wf(),
            ic == ic_view(*change),
            replace_ok(ops@),
            ops_with_pairs(s3, ic.trunk_remove, 0, false) == ops_with_pairs(
                ops_view(ops@),
                ic.trunk_remove,
                i as int,
                false,
            ),
        decreases nr - i,
    {
        let vlan = change.trunk_remove.key_at(i);
        let sp = *change.trunk_remove.val_at(i);
        let ghost pre = ops@;
        push_sorted(&mut ops, TrunkOp::Exclude(sp, vlan));
        proof {
            assert forall|j: int|
                0 <= j < ops@.len() implies (#[trigger] ops@[j] matches TrunkOp::Replace(_, vs)
                ==> crate::omap::oset_sorted(vs@)) by {
                if ops@[j] == TrunkOp::Exclude(sp, vlan) {
                } else {
                    assert(pre.contains(ops@[j]));
                    let j0 = choose|j0: int| 0 <= j0 < pre.len() && pre[j0] == ops@[j];
                }
            }
        }
        i += 1;
    }
    let ghost allops = ops_view(ops@);
    proof {
        assert(allops == spec_ops_list(ic));
    }
    let mut cur = existing.copy_of();
    let n = ops.len();
    let mut i: usize = 0;
    while i < n
        invariant
            0 <= i <= n,
            n == ops@.len(),
            allops == ops_view(ops@),
            allops.len() == n,
            replace_ok(ops@),
            cur.wf(),
            spec_replay(existing@, allops, 0) == spec_replay(cur@, allops, i as int),
        decreases n - i,
    {
        proof {
            assert(allops[i as int] == op_view(ops@[i as int]));
        }
        match &ops[i] {
            TrunkOp::Clear(_) => {
                cur = VlanTagSet::new();
            },
            TrunkOp::Replace(_, vs) => {
                assert(ops@[i as int] matches TrunkOp::Replace(_, vs2) && vs2 == *vs);
                cur = vs.copy_of();
            },
            TrunkOp::Exclude(_, v) => {
                cur.remove_val(*v);
            },
            TrunkOp::Include(_, v) => {
                cur.insert(*v);
            },
        }
        i += 1;
    }
    cur
}

// ---------------------------------------------------------------------------
// Subinterface descriptions
// ---------------------------------------------------------------------------
/// The label shown for a VLAN: its name from the change input when
/// declared there, else the existing bridge-domain's description.
pub open spec fn spec_vlan_label(vlan: u32, cs: SpecChangeSpec, bc: SpecBaseContext) -> Option<
    Seq<char>,
> {
    match omap_get(cs.vlans, vlan) {
        Some(Some(p)) => Some(p.0),
        _ => match omap_get(bc.domain_descriptions, vlan) {
            Some(Some(d)) => Some(d),
            _ => None,
        },
    }
}

/// `"<label>,<base description>"` when the VLAN has a label, else the base
/// description unchanged.
pub open spec fn spec_subif_desc(
    vlan: u32,
    base_desc: Seq<char>,
    cs: SpecChangeSpec,
    bc: SpecBaseContext,
) -> Seq<char> {
    match spec_vlan_label(vlan, cs, bc) {
        Some(v) => v + ","@ + base_desc,
        None => base_desc,
    }
}

/// Build a subinterface description from the VLAN's label and the base
/// interface's description.
pub fn build_subinterface_description(
    vlan: VlanId,
    base_desc: &str,
    change_spec: &ChangeSpec,
    base_ctx: &BaseContext,
) -> (r: String)
    requires
        change_spec.wf(),
        base_ctx.wf(),
    ensures
        r@ == spec_subif_desc(vlan.0, base_desc@, cs_view(*change_spec), bc_view(*base_ctx)),
{
    proof {
        lemma_map_vals_get(change_spec.vlans@, vlan.0, crate::model::f_vlan_name());
        lemma_map_vals_get(base_ctx.domain_descriptions@, vlan.0, crate::model::f_opt_str());
    }
    let label: Option<&str> = match change_spec.vlan_name(&vlan) {
        Some(sp) => Some(sp.value.as_str()),
        None => {
            match base_ctx.domain_descriptions.get(vlan.0) {
                Some(d) => match d {
                    Some(d) => Some(d.as_str()),
                    None => None,
                },
                None => None,
            }
        },
    };
    match label {
        Some(v) => {
            let mut s = String::new();
            s.append(v);
            s.append(",");
            s.append(base_desc);
            s
        },
        None => base_desc.to_owned(),
    }
}

// ---------------------------------------------------------------------------
// The planning fold
// ---------------------------------------------------------------------------
/// The VLANs an interface currently trunks, per the base configuration.
pub open spec fn spec_existing_of(bc: SpecBaseContext, ifname: Seq<char>) -> Seq<u32> {
    match omap_get(bc.interfaces, ifname) {
        Some(c) => c.vlans,
        None => Seq::empty(),
    }
}

/// The effective base description: the change input's override when
/// present, else the base configuration's.
pub open spec fn spec_base_desc(
    ifname: Seq<char>,
    ic: SpecInterfaceChange,
    bc: SpecBaseContext,
) -> Option<Seq<char>> {
    match ic.description {
        Some(p) => Some(p.0),
        None => match omap_get(bc.interfaces, ifname) {
            Some(c) => c.description,
            None => None,
        },
    }
}

/// The span used to validate an added VLAN: its add statement, falling
/// back to the interface's declaration.
pub open spec fn spec_add_span(
    vlan: u32,
    ifname: Seq<char>,
    ic: SpecInterfaceChange,
    cs: SpecChangeSpec,
) -> Option<Span> {
    match omap_get(ic.trunk_add, vlan) {
        Some(sp) => Some(sp),
        None => omap_get(cs.interface_spans, ifname),
    }
}

/// First added VLAN (ascending) that carries a span and is known neither
/// to the change input nor to the base configuration.
pub open spec fn spec_added_error(
    added: Seq<u32>,
    j: int,
    ifname: Seq<char>,
    ic: SpecInterfaceChange,
    cs: SpecChangeSpec,
    bc: SpecBaseContext,
) -> Option<SpecDiag>
    decreases added.len() - j,
    when 0 <= j <= added.len()
{
    if j >= added.len() {
        None
    } else {
        let here = match spec_add_span(added[j], ifname, ic, cs) {
            Some(sp) => spec_addition_error(added[j], cs, bc, sp),
            None => None,
        };
        match here {
            Some(e) => Some(e),
            None => spec_added_error(added, j + 1, ifname, ic, cs, bc),
        }
    }
}

/// The first violation an interface's change runs into, in check order:
/// the bundle guard, removals of absent VLANs, the description
/// requirement, then unknown added VLANs in ascending order.
pub open spec fn spec_if_error(
    ifname: Seq<char>,
    ic: SpecInterfaceChange,
    cs: SpecChangeSpec,
    bc: SpecBaseContext,
) -> Option<SpecDiag> {
    let existing = spec_existing_of(bc, ifname);
    match spec_bundled_error(ifname, ic, bc, cs) {
        Some(e) => Some(e),
        None => match spec_removals_error(ifname, ic, existing) {
            Some(e) => Some(e),
            None => match spec_description_error(
                ifname,
                spec_base_desc(ifname, ic, bc) is Some,
                cs,
            ) {
                Some(e) => Some(e),
                None => {
                    let desired = spec_desired(ic, existing);
                    spec_added_error(oset_diff(desired, existing), 0, ifname, ic, cs, bc)
                },
            },
        },
    }
}

/// `"<base>.<vlan>"`.
pub open spec fn spec_subif_name(ifname: Seq<char>, vlan: u32) -> Seq<char> {
    ifname + "."@ + dec_str(vlan as nat)
}

/// `"no interface <subif> l2transport"`.
pub open spec fn spec_removal_cmd(name: Seq<char>) -> Seq<char> {
    "no interface "@ + name + " l2transport"@
}

/// The per-VLAN aggregate with one more removal recorded, creating the
/// aggregate from the change input's VLAN name if absent.
pub open spec fn agg_with_removal(
    vcs: Seq<(u32, SpecVlanChange)>,
    vlan: u32,
    iface: Seq<char>,
    cs: SpecChangeSpec,
) -> Seq<(u32, SpecVlanChange)> {
    let prev = match omap_get(vcs, vlan) {
        Some(v) => v,
        None => spec_new_vc(vlan, cs),
    };
    let rest = match omap_get(vcs, vlan) {
        Some(_) => omap_remove(vcs, vlan),
        None => vcs,
    };
    omap_insert(
        rest,
        vlan,
        SpecVlanChange { removals: nameset_insert(prev.removals, iface), ..prev },
        u32_lt(),
    )
}

/// The per-VLAN aggregate with one more membership recorded.
pub open spec fn agg_with_addition(
    vcs: Seq<(u32, SpecVlanChange)>,
    vlan: u32,
    ifname: Seq<char>,
    cs: SpecChangeSpec,
) -> Seq<(u32, SpecVlanChange)> {
    let prev = match omap_get(vcs, vlan) {
        Some(v) => v,
        None => spec_new_vc(vlan, cs),
    };
    let rest = match omap_get(vcs, vlan) {
        Some(_) => omap_remove(vcs, vlan),
        None => vcs,
    };
    omap_insert(
        rest,
        vlan,
        SpecVlanChange { additions: prev.additions.push((ifname, vlan)), ..prev },
        u32_lt(),
    )
}

/// The per-VLAN aggregate with its routed BVI interface requested.
pub open spec fn agg_with_bvi(
    vcs: Seq<(u32, SpecVlanChange)>,
    vlan: u32,
    cs: SpecChangeSpec,
) -> Seq<(u32, SpecVlanChange)> {
    let prev = match omap_get(vcs, vlan) {
        Some(v) => v,
        None => spec_new_vc(vlan, cs),
    };
    let rest = match omap_get(vcs, vlan) {
        Some(_) => omap_remove(vcs, vlan),
        None => vcs,
    };
    omap_insert(rest, vlan, SpecVlanChange { add_bvi: true, ..prev }, u32_lt())
}

/// Emit removal commands and aggregate removals, ascending by VLAN.
pub open spec fn spec_apply_removals(
    p: SpecChangePlan,
    removed: Seq<u32>,
    j: int,
    ifname: Seq<char>,
    cs: SpecChangeSpec,
) -> SpecChangePlan
    decreases removed.len() - j,
    when 0 <= j <= removed.len()
{
    if j >= removed.len() {
        p
    } else {
        let iface = spec_subif_name(ifname, removed[j]);
        let p2 = SpecChangePlan {
            removal_cmds: p.removal_cmds.push(spec_removal_cmd(iface)),
            vlan_changes: agg_with_removal(p.vlan_changes, removed[j], iface, cs),
            ..p
        };
        spec_apply_removals(p2, removed, j + 1, ifname, cs)
    }
}

/// Emit creations and aggregate additions, ascending by VLAN.
pub open spec fn spec_apply_additions(
    p: SpecChangePlan,
    added: Seq<u32>,
    j: int,
    ifname: Seq<char>,
    base_desc: Seq<char>,
    cs: SpecChangeSpec,
    bc: SpecBaseContext,
) -> SpecChangePlan
    decreases added.len() - j,
    when 0 <= j <= added.len()
{
    if j >= added.len() {
        p
    } else {
        let vlan = added[j];
        let p2 = SpecChangePlan {
            additions: p.additions.push(
                SpecInterfaceCreation {
                    baseif: ifname,
                    vlan,
                    description: spec_subif_desc(vlan, base_desc, cs, bc),
                },
            ),
            vlan_changes: agg_with_addition(p.vlan_changes, vlan, ifname, cs),
            ..p
        };
        spec_apply_additions(p2, added, j + 1, ifname, base_desc, cs, bc)
    }
}

/// Everything one validated interface contributes to the plan.
pub open spec fn spec_plan_if(
    p: SpecChangePlan,
    ifname: Seq<char>,
    ic: SpecInterfaceChange,
    cs: SpecChangeSpec,
    bc: SpecBaseContext,
) -> SpecChangePlan {
    let existing = spec_existing_of(bc, ifname);
    let desired = spec_desired(ic, existing);
    let removed = oset_diff(existing, desired);
    let added = oset_diff(desired, existing);
    let bd = match spec_base_desc(ifname, ic, bc) {
        Some(d) => d,
        None => Seq::empty(),
    };
    spec_apply_additions(
        spec_apply_removals(p, removed, 0, ifname, cs),
        added,
        0,
        ifname,
        bd,
        cs,
        bc,
    )
}

/// Fold the interfaces in ascending name order, stopping at the first
/// violation.
pub open spec fn spec_plan_loop(
    ifcs: Seq<(Seq<char>, SpecInterfaceChange)>,
    i: int,
    p: SpecChangePlan,
    cs: SpecChangeSpec,
    bc: SpecBaseContext,
) -> Result<SpecChangePlan, SpecDiag>
    decreases ifcs.len() - i,
    when 0 <= i <= ifcs.len()
{
    if i >= ifcs.len() {
        Ok(p)
    } else {
        match spec_if_error(ifcs[i].0, ifcs[i].1, cs, bc) {
            Some(e) => Err(e),
            None => spec_plan_loop(ifcs, i + 1, spec_plan_if(p, ifcs[i].0, ifcs[i].1, cs, bc), cs, bc),
        }
    }
}

/// Record the requested BVI interfaces, ascending by VLAN.
pub open spec fn spec_apply_bvis(
    p: SpecChangePlan,
    bvis: Seq<u32>,
    j: int,
    cs: SpecChangeSpec,
) -> SpecChangePlan
    decreases bvis.len() - j,
    when 0 <= j <= bvis.len()
{
    if j >= bvis.len() {
        p
    } else {
        spec_apply_bvis(
            SpecChangePlan { vlan_changes: agg_with_bvi(p.vlan_changes, bvis[j], cs), ..p },
            bvis,
            j + 1,
            cs,
        )
    }
}

/// Model of `ChangePlanner::plan`: validate and diff every interface in
/// ascending name order, then record the BVI requests.
pub open spec fn spec_plan(cs: SpecChangeSpec, bc: SpecBaseContext) -> Result<
    SpecChangePlan,
    SpecDiag,
> {
    match spec_plan_loop(cs.interface_changes, 0, empty_plan(), cs, bc) {
        Ok(p) => Ok(spec_apply_bvis(p, cs.bvi_additions, 0, cs)),
        Err(e) => Err(e),
    }
}

/// All aggregate values in the table are well-formed.
pub open spec fn vcs_wf(vcs: VlanMap<VlanChange>) -> bool {
    &&& vcs.wf()
    &&& forall|i: int| 0 <= i < vcs@.len() ==> (#[trigger] vcs@[i].1).wf()
}

/// Take the aggregate for `vlan`, creating a fresh one when absent.
fn agg_take(vcs: &mut VlanMap<VlanChange>, vlan: VlanId, cs: &ChangeSpec) -> (vc: VlanChange)
    requires
        vcs_wf(*old(vcs)),
        cs.wf(),
    ensures
        vcs_wf(*final(vcs)),
        vc.wf(),
        vc_view(vc) == (match omap_get(crate::omap::map_vals(old(vcs)@, f_vc()), vlan.0) {
            Some(v) => v,
            None => spec_new_vc(vlan.0, cs_view(*cs)),
        }),
        crate::omap::map_vals(final(vcs)@, f_vc()) == (match omap_get(
            crate::omap::map_vals(old(vcs)@, f_vc()),
            vlan.0,
        ) {
            Some(_) => omap_remove(crate::omap::map_vals(old(vcs)@, f_vc()), vlan.0),
            None => crate::omap::map_vals(old(vcs)@, f_vc()),
        }),
    decreases 0int,
{
    let ghost pre = vcs@;
    proof {
        lemma_map_vals_get(pre, vlan.0, f_vc());
        lemma_map_vals_remove(pre, vlan.0, f_vc());
    }
    match vcs.take(vlan.0) {
        Some(v) => {
            proof {
                lemma_omap_get_index(pre, vlan.0);
                let k = choose|k: int| 0 <= k < pre.len() && #[trigger] pre[k] == (vlan.0, v);
                assert(pre[k].1 == v);
                lemma_omap_remove_vals(pre, vlan.0);
                assert forall|k2: int|
                    0 <= k2 < vcs@.len() implies (#[trigger] vcs@[k2].1).wf() by {
                    let i0 = choose|i0: int| 0 <= i0 < pre.len() && #[trigger] pre[i0] == vcs@[k2];
                }
            }
            v
        },
        None => VlanChange::new(vlan, cs),
    }
}

/// Put the aggregate back under its VLAN.
fn agg_put(vcs: &mut VlanMap<VlanChange>, vlan: VlanId, vc: VlanChange)
    requires
        vcs_wf(*old(vcs)),
        vc.wf(),
    ensures
        vcs_wf(*final(vcs)),
        crate::omap::map_vals(final(vcs)@, f_vc()) == omap_insert(
            crate::omap::map_vals(old(vcs)@, f_vc()),
            vlan.0,
            vc_view(vc),
            u32_lt(),
        ),
{
    let ghost pre = vcs@;
    proof {
        lemma_map_vals_insert(pre, vlan.0, vc, u32_lt(), f_vc());
    }
    let ghost vcg = vc;
    vcs.insert(vlan.0, vc);
    proof {
        lemma_omap_insert_vals(pre, vlan.0, vcg, u32_lt());
        assert forall|k2: int| 0 <= k2 < vcs@.len() implies (#[trigger] vcs@[k2].1).wf() by {
            if vcs@[k2].1 == vcg {
            } else {
                let i0 = choose|i0: int| 0 <= i0 < pre.len() && #[trigger] pre[i0] == vcs@[k2];
            }
        }
    }
}

/// Builds a concrete change plan from the parsed change specification and
/// the existing base context.
pub struct ChangePlanner<'a> {
    /// Parsed change specification from the change input.
    pub change_spec: &'a ChangeSpec,
    /// Snapshot of the current configuration.
    pub base_ctx: &'a BaseContext,
}

impl<'a> ChangePlanner<'a> {
    /// A planner over the given change specification and base context.
    pub fn new(change_spec: &'a ChangeSpec, base_ctx: &'a BaseContext) -> (r: ChangePlanner<'a>)
        ensures
            r.change_spec == change_spec,
            r.base_ctx == base_ctx,
    {
        ChangePlanner { change_spec, base_ctx }
    }

    /// Produce a `ChangePlan`, validating each interface along the way and
    /// stopping at the first violation.
    pub fn plan(&self) -> (r: Result<ChangePlan, Diagnostic>)
        requires
            self.change_spec.wf(),
            self.base_ctx.wf(),
        ensures
            match r {
                Ok(p) => p.wf() && spec_plan(cs_view(*self.change_spec), bc_view(*self.base_ctx))
                    == Ok::<_, SpecDiag>(plan_view(p)),
                Err(d) => spec_plan(cs_view(*self.change_spec), bc_view(*self.base_ctx)) == Err::<
                    SpecChangePlan,
                    _,
                >(diag_view(d)),
            },
    {
        let cs = self.change_spec;
        let bc = self.base_ctx;
        let ghost csv = cs_view(*cs);
        let ghost bcv = bc_view(*bc);
        let ghost icv = csv.interface_changes;
        let mut plan = ChangePlan::new();
        let n = cs.interface_changes.len();
        proof {
            assert(icv.len() == n);
            assert(forall|k: int|
                0 <= k < n ==> #[trigger] icv[k] == (
                cs.interface_changes@[k].0,
                ic_view(cs.interface_changes@[k].1),
                ));
        }
        let mut i: usize = 0;
        while i < n
            invariant
                0 <= i <= n,
                n == cs.interface_changes@.len(),
                cs == self.change_spec,
                bc == self.base_ctx,
                cs.wf(),
                bc.wf(),
                csv == cs_view(*cs),
                bcv == bc_view(*bc),
                icv == csv.interface_changes,
                icv.len() == n,
                forall|k: int|
                    0 <= k < n ==> #[trigger] icv[k] == (
                    cs.interface_changes@[k].0,
                    ic_view(cs.interface_changes@[k].1),
                    ),
                plan.wf(),
                spec_plan_loop(icv, 0, empty_plan(), csv, bcv) == spec_plan_loop(
                    icv,
                    i as int,
                    plan_view(plan),
                    csv,
                    bcv,
                ),
            decreases n - i,
        {
            let ghost entry_plan = plan_view(plan);
            let ifname_s = cs.interface_changes.key_at(i);
            let change = cs.interface_changes.val_at(i);
            let ghost ifv = icv[i as int].0;
            let ghost ic = icv[i as int].1;
            proof {
                assert(change.wf()) by {
                    assert(cs.interface_changes@[i as int].1 == *change);
                }
                assert(ic == ic_view(*change));
                assert(ifv == ifname_s@);
            }
            let baseif = BaseIf::new(ifname_s.as_str().to_owned());
            let existing: VlanTagSet = match bc.vlans_for(&baseif) {
                Some(v) => v.copy_of(),
                None => VlanTagSet::new(),
            };
            proof {
                assert(existing@ == spec_existing_of(bcv, ifv));
                assert(existing.wf()) by {
                    if omap_get(bcv.interfaces, ifv) is Some {
                    }
                }
            }
            match validate_not_bundled_interface(&baseif, change, bc, cs) {
                Ok(_) => {},
                Err(d) => {
                    return Err(d);
                },
            }
            match validate_vlan_removals(&baseif, change, &existing) {
                Ok(_) => {},
                Err(d) => {
                    return Err(d);
                },
            }
            let desired = desired_vlans(change, &existing);
            let base_desc_opt: Option<String> = match &change.description {
                Some(sp) => Some(sp.value.as_str().to_owned()),
                None => match bc.description_for(&baseif) {
                    Some(d) => Some(d.to_owned()),
                    None => None,
                },
            };
            proof {
                assert((base_desc_opt is Some) == (spec_base_desc(ifv, ic, bcv) is Some));
            }
            match validate_interface_description(&baseif, base_desc_opt.is_some(), cs) {
                Ok(_) => {},
                Err(d) => {
                    return Err(d);
                },
            }
            let base_desc: String = match base_desc_opt {
                Some(d) => d,
                None => {
                    proof {
                        assert(false);
                    }
                    String::new()
                },
            };
            proof {
                assert(base_desc@ == (match spec_base_desc(ifv, ic, bcv) {
                    Some(d) => d,
                    None => Seq::<char>::empty(),
                }));
            }
            let removed = existing.difference(&desired);
            let added = desired.difference(&existing);
            let ghost addedv = added@;
            proof {
                assert(addedv == oset_diff(spec_desired(ic, existing@), existing@));
            }
            // Validate every added VLAN before touching the plan.
            let na = added.len();
            let mut j: usize = 0;
            while j < na
                invariant
                    0 <= j <= na,
                    na == added@.len(),
                    addedv == added@,
                    cs == self.change_spec,
                    bc == self.base_ctx,
                    cs.wf(),
                    bc.wf(),
                    csv == cs_view(*cs),
                    bcv == bc_view(*bc),
                    change.wf(),
                    ic == ic_view(*change),
                    ifv == baseif.0@,
                    spec_added_error(addedv, 0, ifv, ic, csv, bcv) == spec_added_error(
                        addedv,
                        j as int,
                        ifv,
                        ic,
                        csv,
                        bcv,
                    ),
                decreases na - j,
            {
                let vlan = added.get_at(j);
                let span_opt: Option<Span> = match change.trunk_add.get(vlan) {
                    Some(sp) => Some(*sp),
                    None => cs.interface_span(&baseif),
                };
                proof {
                    assert(span_opt == spec_add_span(vlan, ifv, ic, csv));
                }
                match span_opt {
                    Some(sp) => {
                        match validate_vlan_addition(VlanId::new(vlan), cs, bc, sp) {
                            Ok(_) => {},
                            Err(d) => {
                                return Err(d);
                            },
                        }
                    },
                    None => {},
                }
                j += 1;
            }
            proof {
                assert(spec_if_error(ifv, ic, csv, bcv) is None);
            }
            // Emit removals, ascending by VLAN.
            let removedv_len = removed.len();
            let ghost removedv = removed@;
            let mut j: usize = 0;
            while j < removedv_len
                invariant
                    0 <= j <= removedv_len,
                    removedv_len == removed@.len(),
                    removedv == removed@,
                    cs == self.change_spec,
                    cs.wf(),
                    csv == cs_view(*cs),
                    ifv == baseif.0@,
                    plan.wf(),
                    spec_apply_removals(entry_plan, removedv, 0, ifv, csv) == spec_apply_removals(
                        plan_view(plan),
                        removedv,
                        j as int,
                        ifv,
                        csv,
                    ),
                decreases removedv_len - j,
            {
                let vlan = removed.get_at(j);
                let mut iface = String::new();
                iface.append(baseif.0.as_str());
                iface.append(".");
                let num = u32_to_string(vlan);
                iface.append(num.as_str());
                proof {
                    assert(iface@ == spec_subif_name(ifv, vlan));
                }
                let mut cmd = String::new();
                cmd.append("no interface ");
                cmd.append(iface.as_str());
                cmd.append(" l2transport");
                proof {
                    assert(cmd@ == spec_removal_cmd(iface@));
                }
                let ghost pre_plan = plan_view(plan);
                plan.removal_cmds.push(cmd);
                let mut vc = agg_take(&mut plan.vlan_changes, VlanId::new(vlan), cs);
                vc.record_removal(iface);
                agg_put(&mut plan.vlan_changes, VlanId::new(vlan), vc);
                proof {
                    assert(plan_view(plan).removal_cmds =~= pre_plan.removal_cmds.push(
                        spec_removal_cmd(spec_subif_name(ifv, vlan)),
                    ));
                    assert(plan_view(plan).additions =~= pre_plan.additions);
                    assert(plan_view(plan).vlan_changes == agg_with_removal(
                        pre_plan.vlan_changes,
                        vlan,
                        spec_subif_name(ifv, vlan),
                        csv,
                    ));
                }
                j += 1;
            }
            // Emit creations, ascending by VLAN.
            let ghost mid_plan = plan_view(plan);
            let added_len = added.len();
            let mut j: usize = 0;
            while j < added_len
                invariant
                    0 <= j <= added_len,
                    added_len == added@.len(),
                    addedv == added@,
                    cs == self.change_spec,
                    bc == self.base_ctx,
                    cs.wf(),
                    bc.wf(),
                    csv == cs_view(*cs),
                    bcv == bc_view(*bc),
                    ifv == baseif.0@,
                    base_desc@ == (match spec_base_desc(ifv, ic, bcv) {
                        Some(d) => d,
                        None => Seq::<char>::empty(),
                    }),
                    plan.wf(),
                    spec_apply_additions(mid_plan, addedv, 0, ifv, base_desc@, csv, bcv)
                        == spec_apply_additions(
                        plan_view(plan),
                        addedv,
                        j as int,
                        ifv,
                        base_desc@,
                        csv,
                        bcv,
                    ),
                decreases added_len - j,
            {
                let vlan = added.get_at(j);
                let desc = build_subinterface_description(
                    VlanId::new(vlan),
                    base_desc.as_str(),
                    cs,
                    bc,
                );
                let ghost pre_plan = plan_view(plan);
                plan.additions.push(
                    InterfaceCreation {
                        baseif: baseif.copy_of(),
                        vlan: VlanId::new(vlan),
                        description: desc,
                    },
                );
                let mut vc = agg_take(&mut plan.vlan_changes, VlanId::new(vlan), cs);
                vc.record_addition(baseif.copy_of(), VlanId::new(vlan));
                agg_put(&mut plan.vlan_changes, VlanId::new(vlan), vc);
                proof {
                    assert(plan_view(plan).removal_cmds =~= pre_plan.removal_cmds);
                    assert(plan_view(plan).additions =~= pre_plan.additions.push(
                        SpecInterfaceCreation {
                            baseif: ifv,
                            vlan,
                            description: spec_subif_desc(vlan, base_desc@, csv, bcv),
                        },
                    ));
                    assert(plan_view(plan).vlan_changes == agg_with_addition(
                        pre_plan.vlan_changes,
                        vlan,
                        ifv,
                        csv,
                    ));
                }
                j += 1;
            }
            proof {
                assert(plan_view(plan) == spec_plan_if(entry_plan, ifv, ic, csv, bcv));
            }
            i += 1;
        }
        // Record the requested BVI interfaces.
        let ghost pre_bvi = plan_view(plan);
        let nb = cs.bvi_additions.len();
        let mut j: usize = 0;
        while j < nb
            invariant
                0 <= j <= nb,
                nb == cs.bvi_additions@.len(),
                cs == self.change_spec,
                cs.wf(),
                csv == cs_view(*cs),
                plan.wf(),
                spec_apply_bvis(pre_bvi, csv.bvi_additions, 0, csv) == spec_apply_bvis(
                    plan_view(plan),
                    csv.bvi_additions,
                    j as int,
                    csv,
                ),
            decreases nb - j,
        {
            let vlan = cs.bvi_additions.get_at(j);
            let ghost pre_plan = plan_view(plan);
            let mut vc = agg_take(&mut plan.vlan_changes, VlanId::new(vlan), cs);
            vc.add_bvi = true;
            agg_put(&mut plan.vlan_changes, VlanId::new(vlan), vc);
            proof {
                assert(plan_view(plan).removal_cmds =~= pre_plan.removal_cmds);
                assert(plan_view(plan).additions =~= pre_plan.additions);
                assert(plan_view(plan).vlan_changes == agg_with_bvi(
                    pre_plan.vlan_changes,
                    vlan,
                    csv,
                ));
            }
            j += 1;
        }
        Ok(plan)
    }
}

} // verus!
