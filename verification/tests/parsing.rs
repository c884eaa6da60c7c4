//! Parser-level behaviour: VLAN lists, error kinds, diagnostics.

use xrvlan::diagnostic::{Diagnostic, ErrorKind};
use xrvlan::engine::generate_change;
use xrvlan::input_parser::{parse_change_input, parse_vlan_list};
use xrvlan::model::VlanId;
use xrvlan::semantics::split_subinterface_id;
use xrvlan::span::Span;

#[test]
fn range_300_to_302_expands_exactly() {
    let vs = parse_vlan_list("300-302").expect("valid range");
    let tags: Vec<u32> = vs.iter().map(|v| v.get()).collect();
    assert_eq!(tags, vec![300, 301, 302]);
}

#[test]
fn backwards_range_is_invalid() {
    let err = parse_vlan_list("305-300").expect_err("backwards range");
    assert!(matches!(err.kind, ErrorKind::InvalidVlanRange { .. }));
    assert_eq!(err.format(), "invalid VLAN range (start must be <= end): 305-300");
}

#[test]
fn vlan_list_accepts_mixed_tokens() {
    let vs = parse_vlan_list("10 20-22 30").expect("valid list");
    let tags: Vec<u32> = vs.iter().map(|v| v.get()).collect();
    assert_eq!(tags, vec![10, 20, 21, 22, 30]);
}

#[test]
fn vlan_list_rejects_non_numbers() {
    let err = parse_vlan_list("10 abc").expect_err("non-numeric token");
    assert_eq!(err.format(), "invalid vlan number: abc");
}

#[test]
fn vlan_list_rejects_extra_dashes() {
    let err = parse_vlan_list("1-2-3").expect_err("three parts");
    assert_eq!(err.format(), "invalid vlan number: 1-2-3");
}

#[test]
fn empty_vlan_list_is_rejected() {
    let err = parse_vlan_list("   ").expect_err("empty list");
    assert!(matches!(err.kind, ErrorKind::VlanListEmpty));
    assert_eq!(err.format(), "vlan list is empty");
}

#[test]
fn vlan_declaration_without_name_is_rejected() {
    let input = "vlan database\n  vlan 300\n";
    let err = parse_change_input(input).expect_err("name required");
    assert_eq!(err.format(), "vlan name is required (line 2)");
}

#[test]
fn unsupported_switchport_mode_is_rejected() {
    let input = "interface TenGigE0/0/0/1\n  switchport mode access\n";
    let err = parse_change_input(input).expect_err("unsupported mode");
    assert_eq!(err.format(), "switchport mode access is not supported (line 2)");
}

#[test]
fn switchport_access_is_rejected() {
    let input = "interface TenGigE0/0/0/1\n  switchport access vlan 10\n";
    let err = parse_change_input(input).expect_err("access mode");
    assert_eq!(err.format(), "switchport access is not supported (line 2)");
}

#[test]
fn bare_interface_without_body_is_rejected() {
    let err = generate_change("", "interface TenGigE0/0/0/1\n").expect_err("needs a body");
    assert_eq!(err, "interface block must contain supported statements (line 1)");
}

#[test]
fn interface_block_without_supported_statement_is_rejected() {
    // Unrecognised switchport statements do not count as supported.
    let input = "interface TenGigE0/0/0/1\n  switchport trunk allowed vlan all\n";
    let err = parse_change_input(input).expect_err("nothing supported");
    assert_eq!(err.format(), "interface block must contain supported statements (line 1)");
}

#[test]
fn invalid_bvi_number_is_rejected() {
    let err = generate_change("", "interface BVIabc\n").expect_err("bad BVI number");
    assert_eq!(err, "invalid BVI number: abc");
}

#[test]
fn bare_bvi_line_registers_addition() {
    let spec = parse_change_input("interface BVI500\n").expect("parses");
    assert_eq!(spec.bvi_additions.len(), 1);
    assert_eq!(spec.bvi_additions.get_at(0), 500);
}

#[test]
fn repeated_interface_blocks_merge() {
    let input = [
        "interface TenGigE0/0/0/1",
        "  switchport trunk allowed vlan add 300",
        "interface TenGigE0/0/0/1",
        "  switchport trunk allowed vlan add 301",
    ]
    .join("\n");
    let spec = parse_change_input(&input).expect("parses");
    assert_eq!(spec.interface_changes.len(), 1);
    let change = spec.interface_changes.val_at(0);
    assert_eq!(change.trunk_add.len(), 2);
    assert_eq!(change.trunk_add.key_at(0), 300);
    assert_eq!(change.trunk_add.key_at(1), 301);
}

#[test]
fn vlan_names_are_recorded_with_spans() {
    let input = "vlan database\n  vlan 350 name demo-servers\n";
    let spec = parse_change_input(input).expect("parses");
    let name = spec.vlan_name(&VlanId::new(350)).expect("named");
    assert_eq!(name.value, "demo-servers");
    assert_eq!(name.span.line.get(), 2);
}

#[test]
fn subinterface_ids_split_on_the_dot() {
    assert_eq!(
        split_subinterface_id("TenGigE0/0/0/1.300").expect("splits"),
        ("TenGigE0/0/0/1".to_string(), Some(300))
    );
    assert_eq!(
        split_subinterface_id("TenGigE0/0/0/1.").expect("splits"),
        ("TenGigE0/0/0/1".to_string(), None)
    );
    assert!(split_subinterface_id("TenGigE0/0/0/1").is_err());
    assert!(split_subinterface_id("a.b.c").is_err());
}

#[test]
fn diagnostic_renders_message_and_optional_line() {
    let d = Diagnostic::new(ErrorKind::InvalidTrunkAction { action: "except".to_string() });
    assert_eq!(d.format(), "invalid trunk action: except");
    let d2 = Diagnostic::with_span(
        ErrorKind::VlanNotDefinedInDatabase { vlan: 640 },
        Span::line_only(7),
    );
    assert_eq!(d2.format(), "VLAN 640 is not defined in vlan database or base config (line 7)");
    let d3 = Diagnostic::new(ErrorKind::Generic { message: "boom".to_string() });
    assert_eq!(d3.format(), "boom");
}

#[test]
fn oversized_vlan_tag_is_rejected() {
    let input = "vlan database\n  vlan 99999999999 name big\n";
    let err = parse_change_input(input).expect_err("overflow");
    assert_eq!(err.format(), "invalid vlan id: vlan 99999999999 name big");
}

#[test]
fn trunk_spans_point_at_their_statements() {
    let input = [
        "interface TenGigE0/0/0/1",
        "  switchport trunk allowed vlan add 300",
        "  switchport trunk allowed vlan remove 400",
    ]
    .join("\n");
    let spec = parse_change_input(&input).expect("parses");
    let change = spec.interface_changes.val_at(0);
    assert_eq!(change.trunk_add.get(300), Some(&Span::line_only(2)));
    assert_eq!(change.trunk_remove.get(400), Some(&Span::line_only(3)));
}
