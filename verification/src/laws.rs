//! The library's general guarantees, stated and proved over the planner's
//! specification.

use vstd::prelude::*;
use crate::diagnostic::{SpecDiag, SpecErrorKind};
use crate::model::{SpecBaseContext, SpecChangePlan, SpecChangeSpec, SpecInterfaceChange, empty_plan};
use crate::omap::{omap_get, oset_diff, oset_insert, oset_sorted, notin_pred};
use crate::planner::{
    SpecTrunkOp, spec_desired, spec_ops_list, spec_replay, op_sorted_insert, ops_with_pairs,
    spec_if_error, spec_plan, spec_plan_loop, spec_plan_if, spec_apply_bvis, spec_existing_of,
    agg_with_bvi,
};
use crate::validator::spec_has_trunk_op;

verus! {

/// A filtered sequence holds exactly the passing elements, whatever the
/// order of the original.
pub proof fn lemma_filter_contains_iff<A>(s: Seq<A>, p: spec_fn(A) -> bool)
    ensures
        forall|y: A| #[trigger] s.filter(p).contains(y) <==> s.contains(y) && p(y),
    decreases s.len(),
{
    reveal(Seq::filter);
    let r = s.filter(p);
    if s.len() == 0 {
        assert forall|y: A| #[trigger] r.contains(y) implies s.contains(y) && p(y) by {}
    } else {
        let t = s.drop_last();
        lemma_filter_contains_iff(t, p);
        let rt = t.filter(p);
        assert forall|y: A| #[trigger] r.contains(y) implies s.contains(y) && p(y) by {
            let i = choose|i: int| 0 <= i < r.len() && r[i] == y;
            if p(s.last()) && i == r.len() - 1 {
                assert(s[s.len() - 1] == y);
            } else {
                assert(rt[i] == y);
                assert(rt.contains(y));
                let i0 = choose|i0: int| 0 <= i0 < t.len() && t[i0] == y;
                assert(s[i0] == y);
            }
        }
        assert forall|y: A| s.contains(y) && p(y) implies #[trigger] r.contains(y) by {
            let i = choose|i: int| 0 <= i < s.len() && s[i] == y;
            if i < s.len() - 1 {
                assert(t[i] == y);
                assert(rt.contains(y));
                let j = choose|j: int| 0 <= j < rt.len() && rt[j] == y;
                if p(s.last()) {
                    assert(r[j] == y);
                } else {
                    assert(r[j] == y);
                }
            } else {
                assert(p(s.last()));
                assert(r[r.len() - 1] == y);
            }
        }
    }
}

/// Diff correctness.  With the planner's diffs `removed = existing \
/// desired` and `added = desired \ existing`:
///
/// * `existing \ removed  ==  desired \ added` always; and
/// * `existing U added == desired` whenever nothing is removed.
///
/// The union identity genuinely needs `removed` empty: with
/// `existing = {300}` and `desired = {}` the left side is `{300}` while the
/// right side is empty.
pub proof fn lemma_diff_correctness(existing: Seq<u32>, desired: Seq<u32>)
    ensures
        existing.to_set().difference(oset_diff(existing, desired).to_set())
            == desired.to_set().difference(oset_diff(desired, existing).to_set()),
        oset_diff(existing, desired).len() == 0 ==> existing.to_set().union(
            oset_diff(desired, existing).to_set(),
        ) == desired.to_set(),
{
    let removed = oset_diff(existing, desired);
    let added = oset_diff(desired, existing);
    lemma_filter_contains_iff(existing, notin_pred(desired));
    lemma_filter_contains_iff(desired, notin_pred(existing));
    assert(existing.to_set().difference(removed.to_set()) =~= desired.to_set().difference(
        added.to_set(),
    ));
    if removed.len() == 0 {
        assert forall|y: u32| existing.contains(y) implies desired.contains(y) by {
            if !desired.contains(y) {
                assert(removed.contains(y));
                let i = choose|i: int| 0 <= i < removed.len() && removed[i] == y;
            }
        }
        assert(existing.to_set().union(added.to_set()) =~= desired.to_set());
    }
}

/// Inserting a value already present leaves a sorted set unchanged.
proof fn lemma_oset_insert_present(s: Seq<u32>, x: u32)
    requires
        oset_sorted(s),
        s.contains(x),
    ensures
        oset_insert(s, x) == s,
    decreases s.len(),
{
    let i = choose|i: int| 0 <= i < s.len() && s[i] == x;
    if i > 0 {
        assert(s[0] < s[i]);
    }
    if x == s[0] {
    } else {
        assert(x > s[0]);
        let t = s.drop_first();
        assert(oset_sorted(t)) by {
            assert(forall|k: int| 0 <= k < t.len() ==> t[k] == s[k + 1]);
        }
        assert(t[i - 1] == x);
        assert(t.contains(x));
        lemma_oset_insert_present(t, x);
        assert(seq![s[0]] + t =~= s);
    }
}

/// Every operation in the sorted insertion result is the new one or one of
/// the old ones.
proof fn lemma_op_insert_elems(s: Seq<SpecTrunkOp>, o: SpecTrunkOp)
    ensures
        forall|j: int| #![trigger op_sorted_insert(s, o)[j]]
            0 <= j < op_sorted_insert(s, o).len() ==> op_sorted_insert(s, o)[j] == o
                || s.contains(op_sorted_insert(s, o)[j]),
    decreases s.len(),
{
    let r = op_sorted_insert(s, o);
    if s.len() == 0 {
    } else if crate::planner::op_lt(o, s[0]) {
        assert forall|j: int| #![trigger r[j]]
            0 <= j < r.len() implies r[j] == o || s.contains(r[j]) by {
            if j > 0 {
                assert(s[j - 1] == r[j]);
            }
        }
    } else {
        let t = s.drop_first();
        lemma_op_insert_elems(t, o);
        let rt = op_sorted_insert(t, o);
        assert(r == seq![s[0]] + rt);
        assert forall|j: int| #![trigger r[j]]
            0 <= j < r.len() implies r[j] == o || s.contains(r[j]) by {
            if j == 0 {
                assert(s[0] == r[0]);
            } else {
                assert(r[j] == rt[j - 1]);
                if rt[j - 1] == o {
                } else {
                    assert(t.contains(rt[j - 1]));
                    let i0 = choose|i0: int| 0 <= i0 < t.len() && t[i0] == rt[j - 1];
                    assert(s[i0 + 1] == r[j]);
                }
            }
        }
    }
}

/// Whether an operation only adds a VLAN that `existing` already trunks.
spec fn is_present_include(o: SpecTrunkOp, existing: Seq<u32>) -> bool {
    o matches SpecTrunkOp::Include(_, v) && existing.contains(v)
}

/// Folding add operations over a list of already-present includes keeps
/// every operation an already-present include.
proof fn lemma_ops_with_pairs_present(
    s: Seq<SpecTrunkOp>,
    pairs: Seq<(u32, crate::span::Span)>,
    i: int,
    existing: Seq<u32>,
)
    requires
        0 <= i <= pairs.len(),
        forall|j: int| 0 <= j < s.len() ==> is_present_include(#[trigger] s[j], existing),
        forall|j: int| i <= j < pairs.len() ==> existing.contains(#[trigger] pairs[j].0),
    ensures
        forall|j: int|
            0 <= j < ops_with_pairs(s, pairs, i, true).len() ==> is_present_include(
                #[trigger] ops_with_pairs(s, pairs, i, true)[j],
                existing,
            ),
    decreases pairs.len() - i,
{
    if i < pairs.len() {
        let o = SpecTrunkOp::Include(pairs[i].1, pairs[i].0);
        let s2 = op_sorted_insert(s, o);
        lemma_op_insert_elems(s, o);
        assert forall|j: int| 0 <= j < s2.len() implies is_present_include(
            #[trigger] s2[j],
            existing,
        ) by {
            if s2[j] == o {
            } else {
                assert(s.contains(s2[j]));
                let i0 = choose|i0: int| 0 <= i0 < s.len() && s[i0] == s2[j];
            }
        }
        lemma_ops_with_pairs_present(s2, pairs, i + 1, existing);
        assert(ops_with_pairs(s, pairs, i, true) == ops_with_pairs(s2, pairs, i + 1, true));
    } else {
        assert(ops_with_pairs(s, pairs, i, true) == s);
    }
}

/// Replaying only already-present includes changes nothing.
proof fn lemma_replay_noop(existing: Seq<u32>, ops: Seq<SpecTrunkOp>, i: int)
    requires
        oset_sorted(existing),
        0 <= i <= ops.len(),
        forall|j: int| i <= j < ops.len() ==> is_present_include(#[trigger] ops[j], existing),
    ensures
        spec_replay(existing, ops, i) == existing,
    decreases ops.len() - i,
{
    if i < ops.len() {
        let v = ops[i]->Include_1;
        lemma_oset_insert_present(existing, v);
        lemma_replay_noop(existing, ops, i + 1);
    }
}

/// The no-op condition on one interface: it only adds VLANs it already
/// trunks and removes, clears and replaces nothing.
pub open spec fn noop_change(ic: SpecInterfaceChange, existing: Seq<u32>) -> bool {
    &&& ic.trunk_clear is None
    &&& ic.trunk_set is None
    &&& ic.trunk_remove.len() == 0
    &&& forall|j: int| 0 <= j < ic.trunk_add.len() ==> existing.contains(#[trigger] ic.trunk_add[j].0)
}

/// A no-op change leaves the desired set equal to the existing set.
pub proof fn lemma_noop_desired(ic: SpecInterfaceChange, existing: Seq<u32>)
    requires
        oset_sorted(existing),
        noop_change(ic, existing),
    ensures
        spec_desired(ic, existing) == existing,
{
    let ops = spec_ops_list(ic);
    assert(ops == ops_with_pairs(
        ops_with_pairs(Seq::<SpecTrunkOp>::empty(), ic.trunk_add, 0, true),
        ic.trunk_remove,
        0,
        false,
    ));
    lemma_ops_with_pairs_present(Seq::<SpecTrunkOp>::empty(), ic.trunk_add, 0, existing);
    lemma_replay_noop(existing, ops, 0);
}

/// A subset's difference is empty.
proof fn lemma_diff_empty(a: Seq<u32>, b: Seq<u32>)
    requires
        forall|y: u32| a.contains(y) ==> b.contains(y),
    ensures
        oset_diff(a, b).len() == 0,
{
    lemma_filter_contains_iff(a, notin_pred(b));
    let r = oset_diff(a, b);
    if r.len() > 0 {
        assert(r.contains(r[0]));
    }
}

/// Recording BVI requests never emits removal commands or stanzas.
proof fn lemma_bvis_keep_cmds(p: SpecChangePlan, bvis: Seq<u32>, j: int, cs: SpecChangeSpec)
    requires
        0 <= j <= bvis.len(),
    ensures
        spec_apply_bvis(p, bvis, j, cs).removal_cmds == p.removal_cmds,
        spec_apply_bvis(p, bvis, j, cs).additions == p.additions,
    decreases bvis.len() - j,
{
    if j < bvis.len() {
        lemma_bvis_keep_cmds(
            SpecChangePlan { vlan_changes: agg_with_bvi(p.vlan_changes, bvis[j], cs), ..p },
            bvis,
            j + 1,
            cs,
        );
    }
}

/// No-op stability over the whole plan: when every interface's change is a
/// no-op against its existing trunk set, a successful plan emits no
/// removal commands and no new subinterface stanzas.
pub proof fn lemma_noop_stability(cs: SpecChangeSpec, bc: SpecBaseContext)
    requires
        forall|k: int|
            0 <= k < bc.interfaces.len() ==> oset_sorted(
                (#[trigger] bc.interfaces[k]).1.vlans,
            ),
        forall|i: int|
            0 <= i < cs.interface_changes.len() ==> noop_change(
                (#[trigger] cs.interface_changes[i]).1,
                spec_existing_of(bc, cs.interface_changes[i].0),
            ),
    ensures
        spec_plan(cs, bc) matches Ok(p) ==> p.removal_cmds.len() == 0 && p.additions.len() == 0,
{
    lemma_noop_loop(cs, bc, 0, empty_plan());
    match spec_plan_loop(cs.interface_changes, 0, empty_plan(), cs, bc) {
        Ok(p) => {
            lemma_bvis_keep_cmds(p, cs.bvi_additions, 0, cs);
        },
        Err(_) => {},
    }
}

proof fn lemma_noop_loop(cs: SpecChangeSpec, bc: SpecBaseContext, i: int, p: SpecChangePlan)
    requires
        0 <= i <= cs.interface_changes.len(),
        p.removal_cmds.len() == 0,
        p.additions.len() == 0,
        forall|k: int|
            0 <= k < bc.interfaces.len() ==> oset_sorted(
                (#[trigger] bc.interfaces[k]).1.vlans,
            ),
        forall|j: int|
            0 <= j < cs.interface_changes.len() ==> noop_change(
                (#[trigger] cs.interface_changes[j]).1,
                spec_existing_of(bc, cs.interface_changes[j].0),
            ),
    ensures
        spec_plan_loop(cs.interface_changes, i, p, cs, bc) matches Ok(q) ==> q.removal_cmds.len()
            == 0 && q.additions.len() == 0,
    decreases cs.interface_changes.len() - i,
{
    let ifcs = cs.interface_changes;
    if i < ifcs.len() {
        match spec_if_error(ifcs[i].0, ifcs[i].1, cs, bc) {
            Some(_) => {},
            None => {
                let ifname = ifcs[i].0;
                let ic = ifcs[i].1;
                let existing = spec_existing_of(bc, ifname);
                assert(oset_sorted(existing)) by {
                    if omap_get(bc.interfaces, ifname) is Some {
                        crate::omap::lemma_omap_get_index(bc.interfaces, ifname);
                        let k = choose|k: int|
                            0 <= k < bc.interfaces.len() && #[trigger] bc.interfaces[k] == (
                            ifname,
                            omap_get(bc.interfaces, ifname)->0,
                            );
                    }
                }
                lemma_noop_desired(ic, existing);
                let desired = spec_desired(ic, existing);
                lemma_diff_empty(existing, desired);
                lemma_diff_empty(desired, existing);
                let q = spec_plan_if(p, ifname, ic, cs, bc);
                assert(q == p) by {
                    assert(oset_diff(existing, desired) =~= Seq::<u32>::empty());
                    assert(oset_diff(desired, existing) =~= Seq::<u32>::empty());
                }
                lemma_noop_loop(cs, bc, i + 1, q);
            },
        }
    }
}

/// Validation ordering: the plan reports exactly the first violation in
/// per-interface iteration order (ascending by interface name), whatever
/// the violations of later interfaces.  The checks of one interface run in
/// the fixed order given by `spec_if_error`.
pub proof fn lemma_validation_order(cs: SpecChangeSpec, bc: SpecBaseContext, k: int)
    requires
        0 <= k < cs.interface_changes.len(),
        spec_if_error(cs.interface_changes[k].0, cs.interface_changes[k].1, cs, bc) is Some,
        forall|j: int|
            0 <= j < k ==> spec_if_error(
                (#[trigger] cs.interface_changes[j]).0,
                cs.interface_changes[j].1,
                cs,
                bc,
            ) is None,
    ensures
        spec_plan(cs, bc) == Err::<SpecChangePlan, SpecDiag>(
            spec_if_error(cs.interface_changes[k].0, cs.interface_changes[k].1, cs, bc)->0,
        ),
{
    lemma_plan_loop_err(cs, bc, 0, empty_plan(), k);
}

proof fn lemma_plan_loop_err(
    cs: SpecChangeSpec,
    bc: SpecBaseContext,
    i: int,
    p: SpecChangePlan,
    k: int,
)
    requires
        0 <= i <= k < cs.interface_changes.len(),
        spec_if_error(cs.interface_changes[k].0, cs.interface_changes[k].1, cs, bc) is Some,
        forall|j: int|
            i <= j < k ==> spec_if_error(
                (#[trigger] cs.interface_changes[j]).0,
                cs.interface_changes[j].1,
                cs,
                bc,
            ) is None,
    ensures
        spec_plan_loop(cs.interface_changes, i, p, cs, bc) == Err::<SpecChangePlan, SpecDiag>(
            spec_if_error(cs.interface_changes[k].0, cs.interface_changes[k].1, cs, bc)->0,
        ),
    decreases k - i,
{
    let ifcs = cs.interface_changes;
    if i < k {
        lemma_plan_loop_err(cs, bc, i + 1, spec_plan_if(p, ifcs[i].0, ifcs[i].1, cs, bc), k);
    }
}

/// Bundle guard, first part: for a bundle member, any trunk operation is
/// the interface's first violation, whatever else the change asks.
pub proof fn lemma_bundle_guard(
    ifname: Seq<char>,
    ic: SpecInterfaceChange,
    cs: SpecChangeSpec,
    bc: SpecBaseContext,
    b: u32,
)
    requires
        omap_get(bc.interfaces, ifname) matches Some(c) && c.bundle_id == Some(b),
        spec_has_trunk_op(ic),
    ensures
        spec_if_error(ifname, ic, cs, bc) == Some(
            SpecDiag {
                kind: SpecErrorKind::BundledInterfaceCannotConfigureVlans {
                    interface: ifname,
                    bundle_id: b,
                },
                span: Some(crate::validator::spec_bundle_span(ifname, ic, cs)),
            },
        ),
{
}

/// Bundle guard, second part: when some interface of the change request
/// has a violation, generation fails outright.
pub proof fn lemma_any_error_fails(cs: SpecChangeSpec, bc: SpecBaseContext)
    requires
        exists|k: int|
            0 <= k < cs.interface_changes.len() && spec_if_error(
                (#[trigger] cs.interface_changes[k]).0,
                cs.interface_changes[k].1,
                cs,
                bc,
            ) is Some,
    ensures
        spec_plan(cs, bc) is Err,
{
    let k0 = choose|k: int|
        0 <= k < cs.interface_changes.len() && spec_if_error(
            (#[trigger] cs.interface_changes[k]).0,
            cs.interface_changes[k].1,
            cs,
            bc,
        ) is Some;
    lemma_plan_fails(cs, bc, 0, empty_plan(), k0);
}

proof fn lemma_plan_fails(
    cs: SpecChangeSpec,
    bc: SpecBaseContext,
    i: int,
    p: SpecChangePlan,
    k: int,
)
    requires
        0 <= i <= k < cs.interface_changes.len(),
        spec_if_error(cs.interface_changes[k].0, cs.interface_changes[k].1, cs, bc) is Some,
    ensures
        spec_plan_loop(cs.interface_changes, i, p, cs, bc) is Err,
    decreases k - i,
{
    let ifcs = cs.interface_changes;
    match spec_if_error(ifcs[i].0, ifcs[i].1, cs, bc) {
        Some(_) => {},
        None => {
            assert(i < k);
            lemma_plan_fails(cs, bc, i + 1, spec_plan_if(p, ifcs[i].0, ifcs[i].1, cs, bc), k);
        },
    }
}

} // verus!
