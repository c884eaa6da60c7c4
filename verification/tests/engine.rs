//! End-to-end generation scenarios.

use xrvlan::engine::{ChangeEngine, generate_change};
use xrvlan::parse::tokenize;
use xrvlan::semantics::get_bridge_domains;

#[test]
fn change_engine_generates_commands() {
    let base_config = r#"
interface FortyGigE0/0/0/46
  description To:demo-port

l2vpn
  bridge group VLAN
    bridge-domain VLAN300
      interface FortyGigE0/0/0/46.300
    exit
  exit
exit
"#;

    let change_input = [
        "interface FortyGigE0/0/0/46",
        "  description To:demo-port",
        "  switchport mode trunk",
        "  switchport trunk allowed vlan add 350",
        "  switchport trunk allowed vlan remove 300",
        "",
        "interface BVI500",
        "",
        "vlan database",
        "  vlan 350 name demo-servers",
        "  vlan 500 name demo-mgmt",
    ]
    .join("\n");

    let rendered =
        ChangeEngine::generate(base_config, &change_input).expect("generation succeeds");

    assert!(
        rendered.contains("no interface FortyGigE0/0/0/46.300 l2transport"),
        "removal command present"
    );
    assert!(
        rendered.contains("interface FortyGigE0/0/0/46.350 l2transport"),
        "addition command present"
    );
    assert!(
        rendered.contains("description demo-servers,To:demo-port"),
        "subinterface description derived from vlan + base description"
    );
    assert!(
        rendered.contains("bridge-domain VLAN350"),
        "bridge domain for new vlan emitted"
    );
}

#[test]
fn seed_scenario_full_output() {
    let base_config = r#"
interface FortyGigE0/0/0/46
  description To:demo-port

l2vpn
  bridge group VLAN
    bridge-domain VLAN300
      interface FortyGigE0/0/0/46.300
    exit
  exit
exit
"#;
    let change_input = [
        "interface FortyGigE0/0/0/46",
        "  description To:demo-port",
        "  switchport mode trunk",
        "  switchport trunk allowed vlan add 350",
        "  switchport trunk allowed vlan remove 300",
        "",
        "interface BVI500",
        "",
        "vlan database",
        "  vlan 350 name demo-servers",
        "  vlan 500 name demo-mgmt",
    ]
    .join("\n");
    let rendered = ChangeEngine::generate(base_config, &change_input).expect("generation succeeds");
    assert!(rendered.contains("  encapsulation dot1q 350"));
    assert!(rendered.contains("  rewrite ingress tag pop 1 symmetric"));
    assert!(rendered.contains("routed interface BVI500"));
    assert!(rendered.contains("      description demo-servers"));
    assert!(rendered.contains("l2vpn\n  bridge group VLAN\n"));
    // The BVI-only VLAN surfaces with the routed interface, not a member.
    assert!(rendered.contains("bridge-domain VLAN500\n      description demo-mgmt\n      routed interface BVI500"));
}

#[test]
fn tokenization_of_rendered_output_round_trips_structure() {
    let base_config = r#"
interface FortyGigE0/0/0/46
  description To:demo-port

l2vpn
  bridge group VLAN
    bridge-domain VLAN300
      interface FortyGigE0/0/0/46.300
    exit
  exit
exit
"#;
    let change_input = [
        "interface FortyGigE0/0/0/46",
        "  switchport trunk allowed vlan add 350",
        "  switchport trunk allowed vlan remove 300",
        "vlan database",
        "  vlan 350 name demo-servers",
    ]
    .join("\n");
    let rendered = ChangeEngine::generate(base_config, &change_input).expect("generation succeeds");

    // Re-tokenize the generated commands and re-extract the structural
    // facts they were generated from.
    let nodes = tokenize(&rendered);
    let domains = get_bridge_domains(&nodes).expect("l2vpn section present");
    let tags: Vec<u32> = domains.iter().map(|d| d.vlan_tag).collect();
    assert_eq!(tags, vec![300, 350]);
    assert_eq!(domains[1].interfaces, vec!["FortyGigE0/0/0/46.350".to_string()]);
    assert!(domains[0].interfaces.is_empty());

    let stanza = nodes
        .iter()
        .filter_map(|n| n.as_block())
        .find(|b| b.name == "interface FortyGigE0/0/0/46.350 l2transport")
        .expect("new subinterface stanza is a block");
    let texts: Vec<&str> = stanza
        .stmts
        .iter()
        .filter_map(|n| n.as_stmt())
        .map(|s| s.stmt())
        .collect();
    assert!(texts.contains(&"description demo-servers,To:demo-port"));
    assert!(texts.contains(&"encapsulation dot1q 350"));
}

#[test]
fn noop_change_emits_no_removals_and_no_stanzas() {
    let base_config = r#"
interface TenGigE0/0/0/1
  description uplink

l2vpn
  bridge group VLAN
    bridge-domain VLAN300
      interface TenGigE0/0/0/1.300
    exit
  exit
exit
"#;
    let change_input = [
        "interface TenGigE0/0/0/1",
        "  switchport trunk allowed vlan add 300",
    ]
    .join("\n");
    let rendered = ChangeEngine::generate(base_config, &change_input).expect("generation succeeds");
    assert!(!rendered.contains("no interface"), "no removal commands");
    assert!(!rendered.contains("l2transport"), "no new subinterface stanzas");
}

#[test]
fn validation_order_reports_first_interface_in_ascending_name_order() {
    // FortyGigE... orders before TenGigE...; its missing description must
    // win over the later interface's invalid removal, regardless of the
    // order the blocks appear in the input.
    let base_config = r#"
interface TenGigE0/0/0/2
  description present
"#;
    let change_input = [
        "interface TenGigE0/0/0/2",
        "  switchport trunk allowed vlan remove 300",
        "interface FortyGigE0/0/0/1",
        "  switchport trunk allowed vlan add 300",
        "vlan database",
        "  vlan 300 name x",
    ]
    .join("\n");
    let err = generate_change(base_config, &change_input).expect_err("must fail");
    assert_eq!(err, "interface requires description: FortyGigE0/0/0/1 (line 3)");
}

#[test]
fn bundle_member_cannot_configure_vlans() {
    let base_config = r#"
interface HundredGigE0/0/0/3
  description member
  bundle id 5 mode active
"#;
    let change_input = [
        "interface HundredGigE0/0/0/3",
        "  switchport trunk allowed vlan add 300",
        "vlan database",
        "  vlan 300 name valid-name",
    ]
    .join("\n");
    let err = generate_change(base_config, &change_input).expect_err("must fail");
    assert_eq!(
        err,
        "interface HundredGigE0/0/0/3 is part of bundle 5 and cannot configure VLANs directly. \
         Configure VLANs on Bundle-Ether5 instead (line 2)"
    );
}

#[test]
fn removal_of_absent_vlan_is_rejected() {
    let base_config = "interface TenGigE0/0/0/1\n  description up\n";
    let change_input = "interface TenGigE0/0/0/1\n  switchport trunk allowed vlan remove 300\n";
    let err = generate_change(base_config, change_input).expect_err("must fail");
    assert_eq!(
        err,
        "cannot remove VLAN 300 from interface TenGigE0/0/0/1: VLAN not present in base config (line 2)"
    );
}

#[test]
fn addition_of_unknown_vlan_is_rejected() {
    let base_config = "interface TenGigE0/0/0/1\n  description up\n";
    let change_input = "interface TenGigE0/0/0/1\n  switchport trunk allowed vlan add 999\n";
    let err = generate_change(base_config, change_input).expect_err("must fail");
    assert_eq!(err, "VLAN 999 is not defined in vlan database or base config (line 2)");
}

#[test]
fn vlan_known_from_base_config_needs_no_declaration() {
    let base_config = r#"
interface TenGigE0/0/0/1
  description up

l2vpn
  bridge group VLAN
    bridge-domain VLAN640
      description legacy-net
      interface TenGigE0/0/0/9.640
    exit
  exit
exit
"#;
    let change_input = "interface TenGigE0/0/0/1\n  switchport trunk allowed vlan add 640\n";
    let rendered = ChangeEngine::generate(base_config, change_input).expect("generation succeeds");
    assert!(rendered.contains("interface TenGigE0/0/0/1.640 l2transport"));
    // The label comes from the existing bridge-domain description.
    assert!(rendered.contains("  description legacy-net,up"));
    // Not re-emitted as the bridge-domain's own description: the VLAN was
    // not named in the change input.
    assert!(!rendered.contains("      description legacy-net"));
}

#[test]
fn indentation_baseline_is_normalized() {
    let base_config = "interface TenGigE0/0/0/1\n  description up\n";
    let change_input = [
        "    interface TenGigE0/0/0/1",
        "      switchport trunk allowed vlan add 300",
        "    vlan database",
        "      vlan 300 name n1",
    ]
    .join("\n");
    let rendered = ChangeEngine::generate(base_config, &change_input).expect("generation succeeds");
    assert!(rendered.contains("interface TenGigE0/0/0/1.300 l2transport"));
}

#[test]
fn description_override_wins_and_rides_through() {
    let base_config = "interface TenGigE0/0/0/1\n  description old\n";
    let change_input = [
        "interface TenGigE0/0/0/1",
        "  description new-desc",
        "  switchport trunk allowed vlan add 300",
        "vlan database",
        "  vlan 300 name n1",
    ]
    .join("\n");
    let rendered = ChangeEngine::generate(base_config, &change_input).expect("generation succeeds");
    assert!(rendered.contains("  description n1,new-desc"));
    assert!(rendered.starts_with("interface TenGigE0/0/0/1\n  description new-desc\nexit\n"));
}

#[test]
fn range_expansion_generates_each_subinterface() {
    let base_config = "interface TenGigE0/0/0/1\n  description up\n";
    let change_input = [
        "interface TenGigE0/0/0/1",
        "  switchport trunk allowed vlan add 300-302",
        "vlan database",
        "  vlan 300 name a",
        "  vlan 301 name b",
        "  vlan 302 name c",
    ]
    .join("\n");
    let rendered = ChangeEngine::generate(base_config, &change_input).expect("generation succeeds");
    assert!(rendered.contains("interface TenGigE0/0/0/1.300 l2transport"));
    assert!(rendered.contains("interface TenGigE0/0/0/1.301 l2transport"));
    assert!(rendered.contains("interface TenGigE0/0/0/1.302 l2transport"));
    assert!(!rendered.contains("TenGigE0/0/0/1.303"));
}
