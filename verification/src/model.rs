//! Data model: identifiers, the parsed change specification, the base
//! configuration snapshot, and the change plan.

use vstd::prelude::*;
use crate::span::{Span, Spanned};
use crate::node::SpannedNodeStmt;
use crate::omap::{
    VlanMap, NameMap, VlanTagSet, NameSet, omap_get, omap_contains, map_vals,
};
use crate::text::str_eq;

verus! {

/// Base (non-subinterface) interface identifier such as `FortyGigE0/0/0/1`.
///
/// Never carries a VLAN suffix; compares by the underlying name.
#[derive(Debug)]
pub struct BaseIf(pub String);

impl BaseIf {
    /// Wrap an interface name.
    pub fn new(name: String) -> (r: BaseIf)
        ensures
            r.0 == name,
    {
        BaseIf(name)
    }

    /// The underlying interface name.
    pub fn as_str(&self) -> (r: &str)
        ensures
            r@ == self.0@,
    {
        self.0.as_str()
    }

    /// An independent copy.
    pub fn copy_of(&self) -> (r: BaseIf)
        ensures
            r.0@ == self.0@,
    {
        BaseIf(self.0.as_str().to_owned())
    }
}

impl PartialEq for BaseIf {
    fn eq(&self, other: &BaseIf) -> (r: bool) {
        str_eq(self.0.as_str(), other.0.as_str())
    }
}

impl vstd::std_specs::cmp::PartialEqSpecImpl for BaseIf {
    open spec fn obeys_eq_spec() -> bool {
        true
    }

    open spec fn eq_spec(&self, other: &BaseIf) -> bool {
        self.0@ == other.0@
    }
}

/// VLAN tag wrapper, ordered numerically.
#[derive(Debug, Clone, Copy, PartialEq, Eq, Structural)]
pub struct VlanId(pub u32);

impl VlanId {
    /// Wrap a VLAN tag.
    pub fn new(id: u32) -> (r: VlanId)
        ensures
            r.0 == id,
    {
        VlanId(id)
    }

    /// The raw VLAN number.
    pub fn get(self) -> (r: u32)
        ensures
            r == self.0,
    {
        self.0
    }
}

// ---------------------------------------------------------------------------
// Ghost views of optional and spanned values
// ---------------------------------------------------------------------------
pub open spec fn opt_str_view(v: Option<String>) -> Option<Seq<char>> {
    match v {
        Some(s) => Some(s@),
        None => None,
    }
}

pub open spec fn opt_spanned_str_view(v: Option<Spanned<String>>) -> Option<(Seq<char>, Span)> {
    match v {
        Some(s) => Some((s.value@, s.span)),
        None => None,
    }
}

pub open spec fn stmts_view(v: Seq<SpannedNodeStmt>) -> Seq<(Seq<char>, Span)> {
    v.map_values(|s: SpannedNodeStmt| (s.stmt@, s.span))
}

pub open spec fn spanned_strs_view(v: Seq<Spanned<String>>) -> Seq<(Seq<char>, Span)> {
    v.map_values(|s: Spanned<String>| (s.value@, s.span))
}

// ---------------------------------------------------------------------------
// Requested changes for one interface
// ---------------------------------------------------------------------------
/// Model of an [`InterfaceChange`].
pub struct SpecInterfaceChange {
    pub description: Option<(Seq<char>, Span)>,
    pub trunk_add: Seq<(u32, Span)>,
    pub trunk_remove: Seq<(u32, Span)>,
    pub trunk_clear: Option<Span>,
    pub trunk_set: Option<(Seq<u32>, Span)>,
    pub other_statements: Seq<(Seq<char>, Span)>,
}

/// Trunk and pass-through changes requested for a single interface.
#[derive(Debug)]
pub struct InterfaceChange {
    /// Description override, first occurrence in the input.
    pub description: Option<Spanned<String>>,
    /// VLANs to add, each with the span of its statement.
    pub trunk_add: VlanMap<Span>,
    /// VLANs to remove, each with the span of its statement.
    pub trunk_remove: VlanMap<Span>,
    /// Clear the whole trunk before replaying later operations.
    pub trunk_clear: Option<Span>,
    /// Replace the trunk wholesale with an explicit set.
    pub trunk_set: Option<Spanned<VlanTagSet>>,
    /// Statements passed through verbatim under the interface.
    pub other_statements: Vec<SpannedNodeStmt>,
}

/// Model of an interface change value.
pub open spec fn ic_view(c: InterfaceChange) -> SpecInterfaceChange {
    SpecInterfaceChange {
        description: opt_spanned_str_view(c.description),
        trunk_add: c.trunk_add@,
        trunk_remove: c.trunk_remove@,
        trunk_clear: c.trunk_clear,
        trunk_set: match c.trunk_set {
            Some(s) => Some((s.value@, s.span)),
            None => None,
        },
        other_statements: stmts_view(c.other_statements@),
    }
}

impl InterfaceChange {
    pub open spec fn wf(&self) -> bool {
        &&& self.trunk_add.wf()
        &&& self.trunk_remove.wf()
        &&& match self.trunk_set {
            Some(s) => s.value.wf(),
            None => true,
        }
    }

    /// An interface change requesting nothing.
    pub fn new() -> (r: InterfaceChange)
        ensures
            r.wf(),
            ic_view(r) == empty_ic(),
    {
        let r = InterfaceChange {
            description: None,
            trunk_add: VlanMap::new(),
            trunk_remove: VlanMap::new(),
            trunk_clear: None,
            trunk_set: None,
            other_statements: Vec::new(),
        };
        proof {
            assert(stmts_view(r.other_statements@) =~= Seq::<(Seq<char>, Span)>::empty());
        }
        r
    }
}

/// The model of an empty interface change.
pub open spec fn empty_ic() -> SpecInterfaceChange {
    SpecInterfaceChange {
        description: None,
        trunk_add: Seq::empty(),
        trunk_remove: Seq::empty(),
        trunk_clear: None,
        trunk_set: None,
        other_statements: Seq::empty(),
    }
}

// ---------------------------------------------------------------------------
// The parsed change specification
// ---------------------------------------------------------------------------
/// Model of a [`ChangeSpec`].
pub struct SpecChangeSpec {
    pub vlans: Seq<(u32, Option<(Seq<char>, Span)>)>,
    pub interface_changes: Seq<(Seq<char>, SpecInterfaceChange)>,
    pub bvi_additions: Seq<u32>,
    pub bvi_statements: Seq<(u32, Seq<(Seq<char>, Span)>)>,
    pub interface_spans: Seq<(Seq<char>, Span)>,
}

/// Value mapper for the VLAN-name table.
pub open spec fn f_vlan_name() -> spec_fn(Option<Spanned<String>>) -> Option<(Seq<char>, Span)> {
    |v: Option<Spanned<String>>| opt_spanned_str_view(v)
}

/// Value mapper for the interface-change table.
pub open spec fn f_ic() -> spec_fn(InterfaceChange) -> SpecInterfaceChange {
    |c: InterfaceChange| ic_view(c)
}

/// Value mapper for the BVI statement table.
pub open spec fn f_bvi_stmts() -> spec_fn(Vec<Spanned<String>>) -> Seq<(Seq<char>, Span)> {
    |v: Vec<Spanned<String>>| spanned_strs_view(v@)
}

/// Everything a change request asks for, in parsed form.
#[derive(Debug)]
pub struct ChangeSpec {
    /// VLAN declarations from the `vlan database`, with optional names.
    pub vlans: VlanMap<Option<Spanned<String>>>,
    /// Per-interface trunk and pass-through changes.
    pub interface_changes: NameMap<InterfaceChange>,
    /// BVI routed interfaces to create, by VLAN.
    pub bvi_additions: VlanTagSet,
    /// Statements to emit under each BVI interface.
    pub bvi_statements: VlanMap<Vec<Spanned<String>>>,
    /// Source span of each interface declaration, for diagnostics.
    pub interface_spans: NameMap<Span>,
}

/// Model of a change-spec value.
pub open spec fn cs_view(s: ChangeSpec) -> SpecChangeSpec {
    SpecChangeSpec {
        vlans: map_vals(s.vlans@, f_vlan_name()),
        interface_changes: map_vals(s.interface_changes@, f_ic()),
        bvi_additions: s.bvi_additions@,
        bvi_statements: map_vals(s.bvi_statements@, f_bvi_stmts()),
        interface_spans: s.interface_spans@,
    }
}

impl ChangeSpec {
    pub open spec fn wf(&self) -> bool {
        &&& self.vlans.wf()
        &&& self.interface_changes.wf()
        &&& forall|i: int|
            0 <= i < self.interface_changes@.len() ==> (
            #[trigger] self.interface_changes@[i].1).wf()
        &&& self.bvi_additions.wf()
        &&& self.bvi_statements.wf()
        &&& self.interface_spans.wf()
    }

    /// An empty change specification.
    pub fn new() -> (r: ChangeSpec)
        ensures
            r.wf(),
            cs_view(r) == empty_cs(),
    {
        let r = ChangeSpec {
            vlans: VlanMap::new(),
            interface_changes: NameMap::new(),
            bvi_additions: VlanTagSet::new(),
            bvi_statements: VlanMap::new(),
            interface_spans: NameMap::new(),
        };
        proof {
            assert(map_vals(r.vlans@, f_vlan_name()) =~= empty_cs().vlans);
            assert(map_vals(r.interface_changes@, f_ic()) =~= empty_cs().interface_changes);
            assert(map_vals(r.bvi_statements@, f_bvi_stmts()) =~= empty_cs().bvi_statements);
        }
        r
    }

    /// The span of a given interface's declaration, if recorded.
    pub fn interface_span(&self, name: &BaseIf) -> (r: Option<Span>)
        requires
            self.wf(),
        ensures
            r == omap_get(cs_view(*self).interface_spans, name.0@),
    {
        match self.interface_spans.get(name.0.as_str()) {
            Some(s) => Some(*s),
            None => None,
        }
    }

    /// The VLAN's declared name from the change input, if any.
    pub fn vlan_name(&self, vlan: &VlanId) -> (r: Option<&Spanned<String>>)
        requires
            self.wf(),
        ensures
            match r {
                Some(s) => omap_get(cs_view(*self).vlans, vlan.0) == Some(
                    Some((s.value@, s.span)),
                ),
                None => match omap_get(cs_view(*self).vlans, vlan.0) {
                    Some(v) => v is None,
                    None => true,
                },
            },
    {
        proof {
            crate::omap::lemma_map_vals_get(self.vlans@, vlan.0, f_vlan_name());
        }
        match self.vlans.get(vlan.0) {
            Some(v) => match v {
                Some(s) => Some(s),
                None => None,
            },
            None => None,
        }
    }
}

/// The model of an empty change specification.
pub open spec fn empty_cs() -> SpecChangeSpec {
    SpecChangeSpec {
        vlans: Seq::empty(),
        interface_changes: Seq::empty(),
        bvi_additions: Seq::empty(),
        bvi_statements: Seq::empty(),
        interface_spans: Seq::empty(),
    }
}

// ---------------------------------------------------------------------------
// The base configuration snapshot
// ---------------------------------------------------------------------------
/// Model of an [`InterfaceContext`].
pub struct SpecInterfaceContext {
    pub description: Option<Seq<char>>,
    pub bundle_id: Option<u32>,
    pub vlans: Seq<u32>,
}

/// The model of an interface the base configuration says nothing about.
pub open spec fn empty_icx() -> SpecInterfaceContext {
    SpecInterfaceContext { description: None, bundle_id: None, vlans: Seq::empty() }
}

/// What the base configuration says about one physical interface.
#[derive(Debug)]
pub struct InterfaceContext {
    /// Description configured on the base interface.
    pub description: Option<String>,
    /// Bundle ID when the interface is a bundle member.
    pub bundle_id: Option<u32>,
    /// VLANs currently trunked, derived from subinterface names.
    pub vlans: VlanTagSet,
}

/// Model of an interface context value.
pub open spec fn icx_view(c: InterfaceContext) -> SpecInterfaceContext {
    SpecInterfaceContext {
        description: opt_str_view(c.description),
        bundle_id: c.bundle_id,
        vlans: c.vlans@,
    }
}

impl InterfaceContext {
    pub open spec fn wf(&self) -> bool {
        self.vlans.wf()
    }

    /// A context with nothing recorded.
    pub fn new() -> (r: InterfaceContext)
        ensures
            r.wf(),
            icx_view(r) == empty_icx(),
    {
        InterfaceContext { description: None, bundle_id: None, vlans: VlanTagSet::new() }
    }

    /// An independent copy.
    pub fn copy_of(&self) -> (r: InterfaceContext)
        ensures
            r.wf() == self.wf(),
            icx_view(r) == icx_view(*self),
    {
        let description = match &self.description {
            Some(d) => Some(d.as_str().to_owned()),
            None => None,
        };
        InterfaceContext { description, bundle_id: self.bundle_id, vlans: self.vlans.copy_of() }
    }
}

/// Value mapper for the base interface table.
pub open spec fn f_icx() -> spec_fn(InterfaceContext) -> SpecInterfaceContext {
    |c: InterfaceContext| icx_view(c)
}

/// Value mapper for the bridge-domain description table.
pub open spec fn f_opt_str() -> spec_fn(Option<String>) -> Option<Seq<char>> {
    |v: Option<String>| opt_str_view(v)
}

/// Model of a [`BaseContext`].
pub struct SpecBaseContext {
    pub domain_descriptions: Seq<(u32, Option<Seq<char>>)>,
    pub interfaces: Seq<(Seq<char>, SpecInterfaceContext)>,
}

/// Immutable snapshot of what the device's configuration looks like now.
#[derive(Debug)]
pub struct BaseContext {
    /// Bridge-domain descriptions keyed by VLAN tag.
    pub domain_descriptions: VlanMap<Option<String>>,
    /// Per-interface facts keyed by base interface name.
    pub interfaces: NameMap<InterfaceContext>,
}

/// Model of a base context value.
pub open spec fn bc_view(b: BaseContext) -> SpecBaseContext {
    SpecBaseContext {
        domain_descriptions: map_vals(b.domain_descriptions@, f_opt_str()),
        interfaces: map_vals(b.interfaces@, f_icx()),
    }
}

impl BaseContext {
    pub open spec fn wf(&self) -> bool {
        &&& self.domain_descriptions.wf()
        &&& self.interfaces.wf()
        &&& forall|i: int|
            0 <= i < self.interfaces@.len() ==> (#[trigger] self.interfaces@[i].1).wf()
    }

    /// The recorded context of a base interface, if any.
    pub fn interface(&self, name: &BaseIf) -> (r: Option<&InterfaceContext>)
        requires
            self.wf(),
        ensures
            match r {
                Some(c) => omap_get(bc_view(*self).interfaces, name.0@) == Some(icx_view(*c))
                    && c.wf(),
                None => omap_get(bc_view(*self).interfaces, name.0@) is None,
            },
    {
        proof {
            crate::omap::lemma_map_vals_get(self.interfaces@, name.0@, f_icx());
        }
        match self.interfaces.get(name.0.as_str()) {
            Some(c) => {
                proof {
                    crate::omap::lemma_omap_get_index(self.interfaces@, name.0@);
                    let i = choose|i: int|
                        0 <= i < self.interfaces@.len() && #[trigger] self.interfaces@[i] == (
                        name.0@,
                        *c,
                        );
                    assert(self.interfaces@[i].1 == *c);
                }
                Some(c)
            },
            None => None,
        }
    }

    /// The base configuration's description for an interface.
    pub fn description_for(&self, name: &BaseIf) -> (r: Option<&str>)
        requires
            self.wf(),
        ensures
            match omap_get(bc_view(*self).interfaces, name.0@) {
                Some(c) => opt_str_view_ref(r) == c.description,
                None => r is None,
            },
    {
        proof {
            crate::omap::lemma_map_vals_get(self.interfaces@, name.0@, f_icx());
        }
        match self.interfaces.get(name.0.as_str()) {
            Some(c) => match &c.description {
                Some(d) => Some(d.as_str()),
                None => None,
            },
            None => None,
        }
    }

    /// The bundle ID of an interface, when it is a bundle member.
    pub fn bundle_id(&self, name: &BaseIf) -> (r: Option<u32>)
        requires
            self.wf(),
        ensures
            r == (match omap_get(bc_view(*self).interfaces, name.0@) {
                Some(c) => c.bundle_id,
                None => None,
            }),
    {
        proof {
            crate::omap::lemma_map_vals_get(self.interfaces@, name.0@, f_icx());
        }
        match self.interfaces.get(name.0.as_str()) {
            Some(c) => c.bundle_id,
            None => None,
        }
    }

    /// The VLANs currently trunked on an interface.
    pub fn vlans_for(&self, name: &BaseIf) -> (r: Option<&VlanTagSet>)
        requires
            self.wf(),
        ensures
            match r {
                Some(v) => omap_get(bc_view(*self).interfaces, name.0@) matches Some(c) && c.vlans
                    == v@ && v.wf(),
                None => omap_get(bc_view(*self).interfaces, name.0@) is None,
            },
    {
        proof {
            crate::omap::lemma_map_vals_get(self.interfaces@, name.0@, f_icx());
        }
        match self.interface(name) {
            Some(c) => Some(&c.vlans),
            None => None,
        }
    }
}

/// View of an optional borrowed string.
pub open spec fn opt_str_view_ref(v: Option<&str>) -> Option<Seq<char>> {
    match v {
        Some(s) => Some(s@),
        None => None,
    }
}

// ---------------------------------------------------------------------------
// The change plan
// ---------------------------------------------------------------------------
/// Model of an [`InterfaceCreation`].
pub struct SpecInterfaceCreation {
    pub baseif: Seq<char>,
    pub vlan: u32,
    pub description: Seq<char>,
}

/// A new l2transport subinterface to create.
#[derive(Debug)]
pub struct InterfaceCreation {
    /// Base interface carrying the new subinterface.
    pub baseif: BaseIf,
    /// VLAN tag of the new subinterface.
    pub vlan: VlanId,
    /// Description to set on the subinterface.
    pub description: String,
}

/// Model of a creation value.
pub open spec fn creation_view(c: InterfaceCreation) -> SpecInterfaceCreation {
    SpecInterfaceCreation { baseif: c.baseif.0@, vlan: c.vlan.0, description: c.description@ }
}

/// Membership of a base interface in a VLAN.
#[derive(Debug)]
pub struct InterfaceMembership {
    /// Base interface joining the VLAN.
    pub baseif: BaseIf,
    /// The VLAN joined.
    pub vlan: VlanId,
}

/// Model of a [`VlanChange`].
pub struct SpecVlanChange {
    pub vlan: u32,
    pub description: Option<(Seq<char>, Span)>,
    pub removals: Seq<Seq<char>>,
    pub additions: Seq<(Seq<char>, u32)>,
    pub add_bvi: bool,
}

/// Aggregated changes for one VLAN's bridge-domain.
#[derive(Debug)]
pub struct VlanChange {
    /// The VLAN being changed.
    pub vlan: VlanId,
    /// The VLAN's name from the change input, if declared there.
    pub description: Option<Spanned<String>>,
    /// Subinterface names leaving the bridge-domain, ascending.
    pub removals: NameSet,
    /// Memberships joining the bridge-domain, in planning order.
    pub additions: Vec<InterfaceMembership>,
    /// Whether a routed BVI interface is added for this VLAN.
    pub add_bvi: bool,
}

/// Model of a VLAN change value.
pub open spec fn vc_view(c: VlanChange) -> SpecVlanChange {
    SpecVlanChange {
        vlan: c.vlan.0,
        description: opt_spanned_str_view(c.description),
        removals: c.removals@,
        additions: c.additions@.map_values(|m: InterfaceMembership| (m.baseif.0@, m.vlan.0)),
        add_bvi: c.add_bvi,
    }
}

/// Value mapper for the VLAN change table.
pub open spec fn f_vc() -> spec_fn(VlanChange) -> SpecVlanChange {
    |c: VlanChange| vc_view(c)
}

impl VlanChange {
    pub open spec fn wf(&self) -> bool {
        self.removals.wf()
    }

    /// A fresh change record for `vlan`, seeded with the VLAN's name from
    /// the change input only (never from the base configuration).
    pub fn new(vlan: VlanId, change_spec: &ChangeSpec) -> (r: VlanChange)
        requires
            change_spec.wf(),
        ensures
            r.wf(),
            vc_view(r) == spec_new_vc(vlan.0, cs_view(*change_spec)),
    {
        let description = match change_spec.vlan_name(&vlan) {
            Some(s) => Some(Spanned::new(s.value.as_str().to_owned(), s.span)),
            None => None,
        };
        let r = VlanChange {
            vlan,
            description,
            removals: NameSet::new(),
            additions: Vec::new(),
            add_bvi: false,
        };
        proof {
            assert(r.additions@.map_values(|m: InterfaceMembership| (m.baseif.0@, m.vlan.0))
                =~= Seq::<(Seq<char>, u32)>::empty());
        }
        r
    }

    /// Record that `iface` leaves this VLAN's bridge-domain.
    pub fn record_removal(&mut self, iface: String)
        requires
            old(self).wf(),
        ensures
            final(self).wf(),
            vc_view(*final(self)) == (SpecVlanChange {
                removals: crate::omap::nameset_insert(vc_view(*old(self)).removals, iface@),
                ..vc_view(*old(self))
            }),
    {
        self.removals.insert_name(iface);
    }

    /// Record that `baseif` joins this VLAN.
    pub fn record_addition(&mut self, baseif: BaseIf, vlan: VlanId)
        requires
            old(self).wf(),
        ensures
            final(self).wf(),
            vc_view(*final(self)) == (SpecVlanChange {
                additions: vc_view(*old(self)).additions.push((baseif.0@, vlan.0)),
                ..vc_view(*old(self))
            }),
    {
        let ghost pre = self.additions@;
        self.additions.push(InterfaceMembership { baseif, vlan });
        proof {
            assert(self.additions@.map_values(|m: InterfaceMembership| (m.baseif.0@, m.vlan.0))
                =~= pre.map_values(|m: InterfaceMembership| (m.baseif.0@, m.vlan.0)).push(
                (self.additions@[pre.len() as int].baseif.0@, self.additions@[pre.len() as int].vlan.0),
            ));
        }
    }
}

/// The model of a freshly created VLAN change record.
pub open spec fn spec_new_vc(vlan: u32, cs: SpecChangeSpec) -> SpecVlanChange {
    SpecVlanChange {
        vlan,
        description: match omap_get(cs.vlans, vlan) {
            Some(v) => v,
            None => None,
        },
        removals: Seq::empty(),
        additions: Seq::empty(),
        add_bvi: false,
    }
}

/// Model of a [`ChangePlan`].
pub struct SpecChangePlan {
    pub removal_cmds: Seq<Seq<char>>,
    pub additions: Seq<SpecInterfaceCreation>,
    pub vlan_changes: Seq<(u32, SpecVlanChange)>,
}

/// Everything the planner decided: removals, creations, and per-VLAN
/// bridge-domain updates, ascending by VLAN.
#[derive(Debug)]
pub struct ChangePlan {
    /// Fully formed `no interface ... l2transport` commands.
    pub removal_cmds: Vec<String>,
    /// New subinterfaces to create.
    pub additions: Vec<InterfaceCreation>,
    /// Aggregated per-VLAN changes.
    pub vlan_changes: VlanMap<VlanChange>,
}

/// Model of a change plan value.
pub open spec fn plan_view(p: ChangePlan) -> SpecChangePlan {
    SpecChangePlan {
        removal_cmds: p.removal_cmds@.map_values(|s: String| s@),
        additions: p.additions@.map_values(|c: InterfaceCreation| creation_view(c)),
        vlan_changes: map_vals(p.vlan_changes@, f_vc()),
    }
}

impl ChangePlan {
    pub open spec fn wf(&self) -> bool {
        &&& self.vlan_changes.wf()
        &&& forall|i: int|
            0 <= i < self.vlan_changes@.len() ==> (#[trigger] self.vlan_changes@[i].1).wf()
    }

    /// An empty plan.
    pub fn new() -> (r: ChangePlan)
        ensures
            r.wf(),
            plan_view(r) == empty_plan(),
    {
        let r = ChangePlan {
            removal_cmds: Vec::new(),
            additions: Vec::new(),
            vlan_changes: VlanMap::new(),
        };
        proof {
            assert(plan_view(r).removal_cmds =~= empty_plan().removal_cmds);
            assert(plan_view(r).additions =~= empty_plan().additions);
            assert(plan_view(r).vlan_changes =~= empty_plan().vlan_changes);
        }
        r
    }
}

/// The model of an empty plan.
pub open spec fn empty_plan() -> SpecChangePlan {
    SpecChangePlan {
        removal_cmds: Seq::empty(),
        additions: Seq::empty(),
        vlan_changes: Seq::empty(),
    }
}

// ---------------------------------------------------------------------------
// Building the base context from the analyzed configuration
// ---------------------------------------------------------------------------
/// Bridge-domain descriptions registered in order; a later domain with the
/// same VLAN tag overwrites an earlier one.
pub open spec fn spec_dom_descs(
    ds: Seq<crate::semantics::SpecBridgeDomain>,
    i: int,
    acc: Seq<(u32, Option<Seq<char>>)>,
) -> Seq<(u32, Option<Seq<char>>)>
    decreases ds.len() - i,
    when 0 <= i <= ds.len()
{
    if i >= ds.len() {
        acc
    } else {
        spec_dom_descs(
            ds,
            i + 1,
            crate::omap::omap_insert(acc, ds[i].vlan_tag, ds[i].description, crate::omap::u32_lt()),
        )
    }
}

/// A `bundle id <n>` statement's bundle number: the first whitespace token
/// after the keyword, parsed as a `u32`.
pub open spec fn spec_bundle_of(text: Seq<char>) -> Option<u32> {
    let t = crate::text::spec_trim(text);
    if crate::text::has_prefix(t, "bundle id "@) {
        let toks = crate::text::spec_tokens(t.skip("bundle id "@.len() as int));
        if toks.len() > 0 {
            crate::text::spec_parse_u32(toks[0])
        } else {
            None
        }
    } else {
        None
    }
}

/// First statement carrying a parsable `bundle id`.
pub open spec fn spec_first_bundle(ns: Seq<crate::parse::PNode>) -> Option<u32>
    decreases ns,
{
    if ns.len() == 0 {
        None
    } else {
        match ns[0] {
            crate::parse::PNode::Stmt { text } => match spec_bundle_of(text) {
                Some(b) => Some(b),
                None => spec_first_bundle(ns.drop_first()),
            },
            crate::parse::PNode::Block { .. } => spec_first_bundle(ns.drop_first()),
        }
    }
}

/// How one top-level node updates the interface table: an
/// `interface <name>` block (no subinterfaces, no l2transport blocks)
/// contributes its first description and first bundle id.
pub open spec fn spec_if_step(
    acc: Seq<(Seq<char>, SpecInterfaceContext)>,
    m: crate::parse::PNode,
) -> Seq<(Seq<char>, SpecInterfaceContext)> {
    match m {
        crate::parse::PNode::Block { name, children } => {
            if crate::text::has_prefix(name, "interface "@) {
                let ifname = name.skip("interface "@.len() as int);
                if ifname.contains('.') || crate::text::has_suffix(name, " l2transport"@) {
                    acc
                } else {
                    let prev = match crate::omap::omap_get(acc, ifname) {
                        Some(c) => c,
                        None => empty_icx(),
                    };
                    let with_desc = match crate::semantics::spec_first_description(children) {
                        Some(d) => SpecInterfaceContext { description: Some(d), ..prev },
                        None => prev,
                    };
                    let with_bundle = if with_desc.bundle_id is None {
                        match spec_first_bundle(children) {
                            Some(b) => SpecInterfaceContext { bundle_id: Some(b), ..with_desc },
                            None => with_desc,
                        }
                    } else {
                        with_desc
                    };
                    crate::omap::omap_insert(acc, ifname, with_bundle, crate::omap::name_lt())
                }
            } else {
                acc
            }
        },
        crate::parse::PNode::Stmt { .. } => acc,
    }
}

/// Interface facts gathered from the top-level nodes, in order.
pub open spec fn spec_scan_interfaces(
    ns: Seq<crate::parse::PNode>,
    i: int,
    acc: Seq<(Seq<char>, SpecInterfaceContext)>,
) -> Seq<(Seq<char>, SpecInterfaceContext)>
    decreases ns.len() - i,
    when 0 <= i <= ns.len()
{
    if i >= ns.len() {
        acc
    } else {
        spec_scan_interfaces(ns, i + 1, spec_if_step(acc, ns[i]))
    }
}

/// Register one bridge-domain member: when its name splits as
/// `<base>.<n>`, the domain's VLAN joins the base interface's trunk set.
pub open spec fn spec_member_step(
    acc: Seq<(Seq<char>, SpecInterfaceContext)>,
    member: Seq<char>,
    vlan: u32,
) -> Seq<(Seq<char>, SpecInterfaceContext)> {
    match crate::semantics::spec_split_subif(member) {
        Some((base, sub)) => {
            if sub is Some {
                let prev = match crate::omap::omap_get(acc, base) {
                    Some(c) => c,
                    None => empty_icx(),
                };
                crate::omap::omap_insert(
                    acc,
                    base,
                    SpecInterfaceContext { vlans: crate::omap::oset_insert(prev.vlans, vlan), ..prev },
                    crate::omap::name_lt(),
                )
            } else {
                acc
            }
        },
        None => acc,
    }
}

pub open spec fn spec_reg_members(
    members: Seq<Seq<char>>,
    vlan: u32,
    j: int,
    acc: Seq<(Seq<char>, SpecInterfaceContext)>,
) -> Seq<(Seq<char>, SpecInterfaceContext)>
    decreases members.len() - j,
    when 0 <= j <= members.len()
{
    if j >= members.len() {
        acc
    } else {
        spec_reg_members(members, vlan, j + 1, spec_member_step(acc, members[j], vlan))
    }
}

pub open spec fn spec_reg_domains(
    ds: Seq<crate::semantics::SpecBridgeDomain>,
    i: int,
    acc: Seq<(Seq<char>, SpecInterfaceContext)>,
) -> Seq<(Seq<char>, SpecInterfaceContext)>
    decreases ds.len() - i,
    when 0 <= i <= ds.len()
{
    if i >= ds.len() {
        acc
    } else {
        spec_reg_domains(ds, i + 1, spec_reg_members(ds[i].interfaces, ds[i].vlan_tag, 0, acc))
    }
}

/// Model of `BaseContext::from_analysis`.
pub open spec fn spec_from_analysis(
    ds: Seq<crate::semantics::SpecBridgeDomain>,
    ns: Seq<crate::parse::PNode>,
) -> SpecBaseContext {
    SpecBaseContext {
        domain_descriptions: spec_dom_descs(ds, 0, Seq::empty()),
        interfaces: spec_reg_domains(ds, 0, spec_scan_interfaces(ns, 0, Seq::empty())),
    }
}

/// First statement of a block carrying a parsable `bundle id`.
fn find_bundle_id(stmts: &Vec<crate::node::Node>) -> (r: Option<u32>)
    ensures
        r == spec_first_bundle(crate::parse::pnodes_view(stmts@)),
{
    let ghost ms = crate::parse::pnodes_view(stmts@);
    proof {
        crate::parse::lemma_pnodes_view(stmts@);
        assert(ms.skip(0) =~= ms);
    }
    let n = stmts.len();
    let mut i: usize = 0;
    while i < n
        invariant
            0 <= i <= n,
            n == stmts@.len(),
            ms == crate::parse::pnodes_view(stmts@),
            ms.len() == n,
            forall|k: int|
                0 <= k < n ==> #[trigger] ms[k] == crate::parse::pnode_view(stmts@[k]),
            spec_first_bundle(ms) == spec_first_bundle(ms.skip(i as int)),
        decreases n - i,
    {
        proof {
            assert(ms.skip(i as int)[0] == ms[i as int]);
            assert(ms.skip(i as int).drop_first() =~= ms.skip(i + 1));
        }
        match &stmts[i] {
            crate::node::Node::Stmt(s) => {
                match match_bundle_id(s.stmt.as_str()) {
                    Some(b) => {
                        return Some(b);
                    },
                    None => {},
                }
            },
            crate::node::Node::Block(_) => {},
        }
        i += 1;
    }
    assert(ms.skip(n as int) =~= Seq::<crate::parse::PNode>::empty());
    None
}

/// Match a single statement against the `bundle id <n>` shape.
fn match_bundle_id(s: &str) -> (r: Option<u32>)
    ensures
        r == spec_bundle_of(s@),
{
    let t = crate::text::trim_str(s);
    match crate::text::strip_prefix_str(t, "bundle id ") {
        Some(rest) => {
            let toks = crate::text::split_tokens(rest);
            if toks.len() > 0 {
                crate::text::parse_u32_str(toks[0].as_str())
            } else {
                None
            }
        },
        None => None,
    }
}

impl BaseContext {
    /// Reconstruct the device snapshot from the analyzed bridge-domains and
    /// the tokenized base configuration.
    ///
    /// Total: interfaces without a description or bundle simply keep `None`
    /// there; nothing is rejected at analysis time.
    pub fn from_analysis(
        domains: &Vec<crate::semantics::BridgeDomain>,
        nodes: &Vec<crate::node::Node>,
    ) -> (r: BaseContext)
        ensures
            r.wf(),
            bc_view(r) == spec_from_analysis(
                crate::semantics::bds_view(domains@),
                crate::parse::pnodes_view(nodes@),
            ),
    {
        let ghost dsv = crate::semantics::bds_view(domains@);
        let ghost nsv = crate::parse::pnodes_view(nodes@);
        proof {
            crate::parse::lemma_pnodes_view(nodes@);
        }
        let nd = domains.len();
        let nn = nodes.len();

        // Bridge-domain descriptions, keyed by VLAN tag.
        let mut dd: VlanMap<Option<String>> = VlanMap::new();
        proof {
            assert(map_vals(dd@, f_opt_str()) =~= Seq::<(u32, Option<Seq<char>>)>::empty());
        }
        let mut i: usize = 0;
        while i < nd
            invariant
                0 <= i <= nd,
                nd == domains@.len(),
                dsv == crate::semantics::bds_view(domains@),
                dd.wf(),
                spec_dom_descs(dsv, 0, Seq::empty()) == spec_dom_descs(
                    dsv,
                    i as int,
                    map_vals(dd@, f_opt_str()),
                ),
            decreases nd - i,
        {
            let d = &domains[i];
            let desc: Option<String> = match &d.description {
                Some(x) => Some(x.as_str().to_owned()),
                None => None,
            };
            proof {
                assert(dsv[i as int] == crate::semantics::bd_view(domains@[i as int]));
                crate::omap::lemma_map_vals_insert(dd@, d.vlan_tag, desc, crate::omap::u32_lt(), f_opt_str());
            }
            dd.insert(d.vlan_tag, desc);
            i += 1;
        }

        // Interface blocks: description and bundle id.
        let mut ifs: NameMap<InterfaceContext> = NameMap::new();
        proof {
            assert(map_vals(ifs@, f_icx()) =~= Seq::<(Seq<char>, SpecInterfaceContext)>::empty());
        }
        let mut i: usize = 0;
        while i < nn
            invariant
                0 <= i <= nn,
                nn == nodes@.len(),
                nsv == crate::parse::pnodes_view(nodes@),
                nsv.len() == nn,
                forall|k: int|
                    0 <= k < nn ==> #[trigger] nsv[k] == crate::parse::pnode_view(nodes@[k]),
                ifs.wf(),
                forall|k: int| 0 <= k < ifs@.len() ==> (#[trigger] ifs@[k].1).wf(),
                spec_scan_interfaces(nsv, 0, Seq::empty()) == spec_scan_interfaces(
                    nsv,
                    i as int,
                    map_vals(ifs@, f_icx()),
                ),
            decreases nn - i,
        {
            let ghost accv = map_vals(ifs@, f_icx());
            match &nodes[i] {
                crate::node::Node::Block(b) => {
                    match crate::text::strip_prefix_str(b.name.as_str(), "interface ") {
                        Some(ifname) => {
                            let has_dot = crate::text::contains_char(ifname, '.');
                            let is_l2 = crate::text::ends_with_str(b.name.as_str(), " l2transport");
                            if !has_dot && !is_l2 {
                                proof {
                                    crate::omap::lemma_map_vals_get(ifs@, ifname@, f_icx());
                                }
                                let mut cx: InterfaceContext = match ifs.get(ifname) {
                                    Some(c) => {
                                        proof {
                                            crate::omap::lemma_omap_get_index(ifs@, ifname@);
                                            let k = choose|k: int|
                                                0 <= k < ifs@.len() && #[trigger] ifs@[k] == (
                                                ifname@,
                                                *c,
                                                );
                                            assert(ifs@[k].1 == *c);
                                        }
                                        c.copy_of()
                                    },
                                    None => InterfaceContext::new(),
                                };
                                match crate::semantics::find_description(&b.stmts) {
                                    Some(d) => {
                                        cx.description = Some(d);
                                    },
                                    None => {},
                                }
                                if cx.bundle_id.is_none() {
                                    match find_bundle_id(&b.stmts) {
                                        Some(bid) => {
                                            cx.bundle_id = Some(bid);
                                        },
                                        None => {},
                                    }
                                }
                                proof {
                                    crate::omap::lemma_map_vals_insert(
                                        ifs@,
                                        ifname@,
                                        cx,
                                        crate::omap::name_lt(),
                                        f_icx(),
                                    );
                                    assert(spec_if_step(accv, nsv[i as int]) == crate::omap::omap_insert(
                                        accv,
                                        ifname@,
                                        icx_view(cx),
                                        crate::omap::name_lt(),
                                    ));
                                }
                                let ghost preifs = ifs@;
                                ifs.insert(ifname.to_owned(), cx);
                                proof {
                                    crate::omap::lemma_omap_insert_vals(
                                        preifs,
                                        ifname@,
                                        cx,
                                        crate::omap::name_lt(),
                                    );
                                    assert forall|k2: int|
                                        0 <= k2 < ifs@.len() implies (
                                    #[trigger] ifs@[k2].1).wf() by {
                                        if ifs@[k2].1 == cx {
                                        } else {
                                            let i0 = choose|i0: int|
                                                0 <= i0 < preifs.len() && #[trigger] preifs[i0]
                                                    == ifs@[k2];
                                        }
                                    }
                                }
                            } else {
                                proof {
                                    assert(spec_if_step(accv, nsv[i as int]) == accv);
                                }
                            }
                        },
                        None => {
                            proof {
                                assert(spec_if_step(accv, nsv[i as int]) == accv);
                            }
                        },
                    }
                },
                crate::node::Node::Stmt(_) => {
                    proof {
                        assert(spec_if_step(accv, nsv[i as int]) == accv);
                    }
                },
            }
            i += 1;
        }

        proof {
            assert(spec_scan_interfaces(nsv, 0, Seq::empty()) == spec_scan_interfaces(
                nsv,
                nn as int,
                map_vals(ifs@, f_icx()),
            ));
            assert(spec_scan_interfaces(nsv, nn as int, map_vals(ifs@, f_icx())) == map_vals(
                ifs@,
                f_icx(),
            ));
        }

        // Trunk membership derived from bridge-domain member names.
        let mut i: usize = 0;
        while i < nd
            invariant
                0 <= i <= nd,
                nd == domains@.len(),
                dsv == crate::semantics::bds_view(domains@),
                ifs.wf(),
                forall|k: int| 0 <= k < ifs@.len() ==> (#[trigger] ifs@[k].1).wf(),
                map_vals(ifs@, f_icx()) == old_acc_of(dsv, i as int, nsv),
            decreases nd - i,
        {
            let d = &domains[i];
            let ghost membersv = dsv[i as int].interfaces;
            proof {
                assert(dsv[i as int] == crate::semantics::bd_view(domains@[i as int]));
            }
            let nm = d.interfaces.len();
            let mut j: usize = 0;
            while j < nm
                invariant
                    0 <= j <= nm,
                    0 <= i < nd,
                    nd == domains@.len(),
                    dsv == crate::semantics::bds_view(domains@),
                    dsv[i as int] == crate::semantics::bd_view(domains@[i as int]),
                    nm == domains@[i as int].interfaces@.len(),
                    membersv == dsv[i as int].interfaces,
                    membersv.len() == nm,
                    ifs.wf(),
                    forall|k: int| 0 <= k < ifs@.len() ==> (#[trigger] ifs@[k].1).wf(),
                    spec_reg_members(
                        membersv,
                        dsv[i as int].vlan_tag,
                        j as int,
                        map_vals(ifs@, f_icx()),
                    ) == spec_reg_members(
                        membersv,
                        dsv[i as int].vlan_tag,
                        0,
                        old_acc_of(dsv, i as int, nsv),
                    ),
                decreases nm - j,
            {
                let ghost accv = map_vals(ifs@, f_icx());
                let member = &domains[i].interfaces[j];
                proof {
                    assert(membersv[j as int] == domains@[i as int].interfaces@[j as int]@);
                }
                match crate::semantics::split_subinterface_id(member.as_str()) {
                    Ok(p) => {
                        match p.1 {
                            Some(_) => {
                                let base = p.0;
                                proof {
                                    crate::omap::lemma_map_vals_get(ifs@, base@, f_icx());
                                }
                                let mut cx: InterfaceContext = match ifs.get(base.as_str()) {
                                    Some(c) => {
                                        proof {
                                            crate::omap::lemma_omap_get_index(ifs@, base@);
                                            let k = choose|k: int|
                                                0 <= k < ifs@.len() && #[trigger] ifs@[k] == (
                                                base@,
                                                *c,
                                                );
                                            assert(ifs@[k].1 == *c);
                                        }
                                        c.copy_of()
                                    },
                                    None => InterfaceContext::new(),
                                };
                                cx.vlans.insert(d.vlan_tag);
                                proof {
                                    crate::omap::lemma_map_vals_insert(
                                        ifs@,
                                        base@,
                                        cx,
                                        crate::omap::name_lt(),
                                        f_icx(),
                                    );
                                    assert(spec_member_step(accv, membersv[j as int], dsv[i as int].vlan_tag)
                                        == crate::omap::omap_insert(
                                        accv,
                                        base@,
                                        icx_view(cx),
                                        crate::omap::name_lt(),
                                    ));
                                }
                                let ghost preifs = ifs@;
                                let ghost basev = base@;
                                ifs.insert(base, cx);
                                proof {
                                    crate::omap::lemma_omap_insert_vals(
                                        preifs,
                                        basev,
                                        cx,
                                        crate::omap::name_lt(),
                                    );
                                    assert forall|k2: int|
                                        0 <= k2 < ifs@.len() implies (
                                    #[trigger] ifs@[k2].1).wf() by {
                                        if ifs@[k2].1 == cx {
                                        } else {
                                            let i0 = choose|i0: int|
                                                0 <= i0 < preifs.len() && #[trigger] preifs[i0]
                                                    == ifs@[k2];
                                        }
                                    }
                                }
                            },
                            None => {
                                proof {
                                    assert(spec_member_step(accv, membersv[j as int], dsv[i as int].vlan_tag)
                                        == accv);
                                }
                            },
                        }
                    },
                    Err(_) => {
                        proof {
                            assert(spec_member_step(accv, membersv[j as int], dsv[i as int].vlan_tag)
                                == accv);
                        }
                    },
                }
                j += 1;
            }
            proof {
                assert(spec_reg_members(
                    membersv,
                    dsv[i as int].vlan_tag,
                    nm as int,
                    map_vals(ifs@, f_icx()),
                ) == map_vals(ifs@, f_icx()));
            }
            i += 1;
        }
        proof {
            lemma_old_acc(dsv, nsv, nd as int);
            assert(spec_reg_domains(dsv, nd as int, old_acc_of(dsv, nd as int, nsv)) == old_acc_of(
                dsv,
                nd as int,
                nsv,
            ));
        }

        BaseContext { domain_descriptions: dd, interfaces: ifs }
    }
}

proof fn lemma_old_acc(
    ds: Seq<crate::semantics::SpecBridgeDomain>,
    ns: Seq<crate::parse::PNode>,
    i: int,
)
    requires
        0 <= i <= ds.len(),
    ensures
        spec_reg_domains(ds, i, old_acc_of(ds, i, ns)) == spec_reg_domains(
            ds,
            0,
            spec_scan_interfaces(ns, 0, Seq::empty()),
        ),
    decreases i,
{
    if i > 0 {
        lemma_old_acc(ds, ns, i - 1);
        assert(spec_reg_domains(ds, i - 1, old_acc_of(ds, i - 1, ns)) == spec_reg_domains(
            ds,
            i,
            spec_reg_members(ds[i - 1].interfaces, ds[i - 1].vlan_tag, 0, old_acc_of(ds, i - 1, ns)),
        ));
    }
}

/// The interface table as it stands when domain registration reaches
/// domain `i`.
pub open spec fn old_acc_of(
    ds: Seq<crate::semantics::SpecBridgeDomain>,
    i: int,
    ns: Seq<crate::parse::PNode>,
) -> Seq<(Seq<char>, SpecInterfaceContext)>
    decreases i,
    when 0 <= i <= ds.len()
{
    if i <= 0 {
        spec_scan_interfaces(ns, 0, Seq::empty())
    } else {
        spec_reg_members(ds[i - 1].interfaces, ds[i - 1].vlan_tag, 0, old_acc_of(ds, i - 1, ns))
    }
}

} // verus!
