//! Device-level validation rules checked during planning.

use vstd::prelude::*;
use crate::diagnostic::{Diagnostic, ErrorKind, SpecDiag, SpecErrorKind, diag_view};
use crate::model::{
    BaseIf, ChangeSpec, InterfaceChange, SpecBaseContext, SpecChangeSpec, SpecInterfaceChange,
    BaseContext, cs_view, ic_view, bc_view, VlanId,
};
use crate::omap::{omap_get, omap_contains, VlanTagSet};
use crate::span::Span;

verus! {

/// First trunk-removal entry (ascending by VLAN) whose VLAN the interface
/// does not currently carry.
pub open spec fn spec_first_bad_removal(removes: Seq<(u32, Span)>, existing: Seq<u32>) -> Option<
    (u32, Span),
>
    decreases removes.len(),
{
    if removes.len() == 0 {
        None
    } else if !existing.contains(removes[0].0) {
        Some(removes[0])
    } else {
        spec_first_bad_removal(removes.drop_first(), existing)
    }
}

/// The diagnostic of `validate_vlan_removals`, when it rejects.
pub open spec fn spec_removals_error(
    baseif: Seq<char>,
    ic: SpecInterfaceChange,
    existing: Seq<u32>,
) -> Option<SpecDiag> {
    match spec_first_bad_removal(ic.trunk_remove, existing) {
        Some(p) => Some(
            SpecDiag {
                kind: SpecErrorKind::VlanNotPresent { vlan: p.0, interface: baseif },
                span: Some(p.1),
            },
        ),
        None => None,
    }
}

/// Every VLAN named for removal must already be trunked on the interface.
pub fn validate_vlan_removals(
    baseif: &BaseIf,
    change: &InterfaceChange,
    existing: &VlanTagSet,
) -> (r: Result<(), Diagnostic>)
    requires
        change.wf(),
    ensures
        match r {
            Ok(_) => spec_removals_error(baseif.0@, ic_view(*change), existing@) is None,
            Err(d) => spec_removals_error(baseif.0@, ic_view(*change), existing@) == Some(
                diag_view(d),
            ),
        },
{
    let ghost rm = change.trunk_remove@;
    let n = change.trunk_remove.len();
    let mut i: usize = 0;
    proof {
        assert(rm.skip(0) =~= rm);
    }
    while i < n
        invariant
            0 <= i <= n,
            n == rm.len(),
            rm == change.trunk_remove@,
            change.trunk_remove.wf(),
            spec_first_bad_removal(rm, existing@) == spec_first_bad_removal(
                rm.skip(i as int),
                existing@,
            ),
        decreases n - i,
    {
        proof {
            assert(rm.skip(i as int)[0] == rm[i as int]);
            assert(rm.skip(i as int).drop_first() =~= rm.skip(i + 1));
        }
        let vlan = change.trunk_remove.key_at(i);
        if !existing.contains(vlan) {
            let span = *change.trunk_remove.val_at(i);
            return Err(
                Diagnostic::with_span(
                    ErrorKind::VlanNotPresent { vlan, interface: baseif.0.as_str().to_owned() },
                    span,
                ),
            );
        }
        i += 1;
    }
    assert(rm.skip(n as int) =~= Seq::<(u32, Span)>::empty());
    Ok(())
}

/// The diagnostic of `validate_interface_description`, when it rejects.
pub open spec fn spec_description_error(
    baseif: Seq<char>,
    has_description: bool,
    cs: SpecChangeSpec,
) -> Option<SpecDiag> {
    if !has_description {
        Some(
            SpecDiag {
                kind: SpecErrorKind::MissingDescription { interface: baseif },
                span: omap_get(cs.interface_spans, baseif),
            },
        )
    } else {
        None
    }
}

/// The interface must have a description, from the change input or the
/// base configuration.
pub fn validate_interface_description(
    baseif: &BaseIf,
    has_description: bool,
    change_spec: &ChangeSpec,
) -> (r: Result<(), Diagnostic>)
    requires
        change_spec.wf(),
    ensures
        match r {
            Ok(_) => spec_description_error(baseif.0@, has_description, cs_view(*change_spec))
                is None,
            Err(d) => spec_description_error(baseif.0@, has_description, cs_view(*change_spec))
                == Some(diag_view(d)),
        },
{
    if !has_description {
        let kind = ErrorKind::MissingDescription { interface: baseif.0.as_str().to_owned() };
        match change_spec.interface_span(baseif) {
            Some(span) => Err(Diagnostic::with_span(kind, span)),
            None => Err(Diagnostic::new(kind)),
        }
    } else {
        Ok(())
    }
}

/// Whether a VLAN is known: declared in the change input's database or
/// already a bridge-domain of the base configuration.
pub open spec fn spec_vlan_known(vlan: u32, cs: SpecChangeSpec, bc: SpecBaseContext) -> bool {
    omap_contains(cs.vlans, vlan) || omap_contains(bc.domain_descriptions, vlan)
}

/// The diagnostic of `validate_vlan_addition`, when it rejects.
pub open spec fn spec_addition_error(
    vlan: u32,
    cs: SpecChangeSpec,
    bc: SpecBaseContext,
    span: Span,
) -> Option<SpecDiag> {
    if !spec_vlan_known(vlan, cs, bc) {
        Some(
            SpecDiag {
                kind: SpecErrorKind::VlanNotDefinedInDatabase { vlan },
                span: Some(span),
            },
        )
    } else {
        None
    }
}

/// A VLAN being newly trunked must be declared in the change input or
/// exist as a bridge-domain in the base configuration.
pub fn validate_vlan_addition(
    vlan: VlanId,
    change_spec: &ChangeSpec,
    base_ctx: &BaseContext,
    span: Span,
) -> (r: Result<(), Diagnostic>)
    requires
        change_spec.wf(),
        base_ctx.wf(),
    ensures
        match r {
            Ok(_) => spec_addition_error(
                vlan.0,
                cs_view(*change_spec),
                bc_view(*base_ctx),
                span,
            ) is None,
            Err(d) => spec_addition_error(vlan.0, cs_view(*change_spec), bc_view(*base_ctx), span)
                == Some(diag_view(d)),
        },
{
    proof {
        crate::omap::lemma_map_vals_get(
            change_spec.vlans@,
            vlan.0,
            crate::model::f_vlan_name(),
        );
        crate::omap::lemma_map_vals_get(
            base_ctx.domain_descriptions@,
            vlan.0,
            crate::model::f_opt_str(),
        );
    }
    let in_change = change_spec.vlans.contains_key(vlan.0);
    let in_base = base_ctx.domain_descriptions.contains_key(vlan.0);
    if !in_change && !in_base {
        Err(
            Diagnostic::with_span(ErrorKind::VlanNotDefinedInDatabase { vlan: vlan.0 }, span),
        )
    } else {
        Ok(())
    }
}

/// Whether the change asks for any trunk operation at all.
pub open spec fn spec_has_trunk_op(ic: SpecInterfaceChange) -> bool {
    ic.trunk_clear is Some || ic.trunk_set is Some || ic.trunk_add.len() > 0
        || ic.trunk_remove.len() > 0
}

/// The span reported for a bundle violation: the first trunk operation,
/// falling back to the interface declaration, then to line 1.
pub open spec fn spec_bundle_span(
    baseif: Seq<char>,
    ic: SpecInterfaceChange,
    cs: SpecChangeSpec,
) -> Span {
    if ic.trunk_clear is Some {
        ic.trunk_clear->0
    } else if ic.trunk_set is Some {
        (ic.trunk_set->0).1
    } else if ic.trunk_add.len() > 0 {
        ic.trunk_add[0].1
    } else if ic.trunk_remove.len() > 0 {
        ic.trunk_remove[0].1
    } else {
        match omap_get(cs.interface_spans, baseif) {
            Some(sp) => sp,
            None => crate::parse::line_span(1),
        }
    }
}

/// The diagnostic of `validate_not_bundled_interface`, when it rejects.
pub open spec fn spec_bundled_error(
    baseif: Seq<char>,
    ic: SpecInterfaceChange,
    bc: SpecBaseContext,
    cs: SpecChangeSpec,
) -> Option<SpecDiag> {
    match omap_get(bc.interfaces, baseif) {
        Some(c) => match c.bundle_id {
            Some(b) => if spec_has_trunk_op(ic) {
                Some(
                    SpecDiag {
                        kind: SpecErrorKind::BundledInterfaceCannotConfigureVlans {
                            interface: baseif,
                            bundle_id: b,
                        },
                        span: Some(spec_bundle_span(baseif, ic, cs)),
                    },
                )
            } else {
                None
            },
            None => None,
        },
        None => None,
    }
}

/// A bundle member interface may not carry its own trunk configuration.
pub fn validate_not_bundled_interface(
    baseif: &BaseIf,
    change: &InterfaceChange,
    base_ctx: &BaseContext,
    change_spec: &ChangeSpec,
) -> (r: Result<(), Diagnostic>)
    requires
        change.wf(),
        base_ctx.wf(),
        change_spec.wf(),
    ensures
        match r {
            Ok(_) => spec_bundled_error(
                baseif.0@,
                ic_view(*change),
                bc_view(*base_ctx),
                cs_view(*change_spec),
            ) is None,
            Err(d) => spec_bundled_error(
                baseif.0@,
                ic_view(*change),
                bc_view(*base_ctx),
                cs_view(*change_spec),
            ) == Some(diag_view(d)),
        },
{
    let bundle = base_ctx.bundle_id(baseif);
    match bundle {
        Some(b) => {
            let has_op = change.trunk_clear.is_some() || change.trunk_set.is_some()
                || change.trunk_add.len() > 0 || change.trunk_remove.len() > 0;
            if has_op {
                let span: Span = if let Some(sp) = &change.trunk_clear {
                    *sp
                } else if let Some(st) = &change.trunk_set {
                    st.span
                } else if change.trunk_add.len() > 0 {
                    *change.trunk_add.val_at(0)
                } else if change.trunk_remove.len() > 0 {
                    *change.trunk_remove.val_at(0)
                } else {
                    match change_spec.interface_span(baseif) {
                        Some(sp) => sp,
                        None => Span::line_only(1),
                    }
                };
                Err(
                    Diagnostic::with_span(
                        ErrorKind::BundledInterfaceCannotConfigureVlans {
                            interface: baseif.0.as_str().to_owned(),
                            bundle_id: b,
                        },
                        span,
                    ),
                )
            } else {
                Ok(())
            }
        },
        None => Ok(()),
    }
}

} // verus!
