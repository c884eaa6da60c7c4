//! Analyzer, lint, and summary behaviour.

use xrvlan::omap::VlanTagSet;
use xrvlan::parse::tokenize;
use xrvlan::semantics::{BridgeDomain, L2TransportConfig, analyze, get_bridge_domains};
use xrvlan::simplified_config::format_vlan_ranges;

fn tag_set(tags: &[u32]) -> VlanTagSet {
    let mut s = VlanTagSet::new();
    for t in tags {
        s.insert(*t);
    }
    s
}

#[test]
fn vlan_ranges_compact_consecutive_runs() {
    assert_eq!(format_vlan_ranges(&tag_set(&[])), "-");
    assert_eq!(format_vlan_ranges(&tag_set(&[300])), "300");
    assert_eq!(format_vlan_ranges(&tag_set(&[300, 301, 302])), "300-302");
    assert_eq!(format_vlan_ranges(&tag_set(&[300, 301, 302, 400, 500, 501])), "300-302 400 500-501");
}

#[test]
fn bridge_domains_are_collected_in_source_order() {
    let base = r#"
l2vpn
  bridge group VLAN
    bridge-domain VLAN300
      description backbone
      interface TenGigE0/0/0/1.300
      interface TenGigE0/0/0/2.300
    exit
    bridge-domain VLAN400
      interface BVI400
    exit
  exit
exit
"#;
    let nodes = tokenize(base);
    let domains = get_bridge_domains(&nodes).expect("domains present");
    assert_eq!(domains.len(), 2);
    assert_eq!(domains[0].vlan_tag, 300);
    assert_eq!(domains[0].description(), Some("backbone"));
    assert_eq!(
        domains[0].interfaces,
        vec!["TenGigE0/0/0/1.300".to_string(), "TenGigE0/0/0/2.300".to_string()]
    );
    assert_eq!(domains[1].vlan_tag, 400);
    assert_eq!(domains[1].interfaces, vec!["BVI400".to_string()]);
    assert!(get_bridge_domains(&tokenize("interface Foo\n  mtu 1\n")).is_none());
}

#[test]
fn l2transport_lint_flags_mismatches() {
    let nodes = tokenize(
        "interface TenGigE0/0/0/1.300 l2transport\n  encapsulation dot1q 301\n",
    );
    let cfg = L2TransportConfig::try_new(&nodes[0]).expect("parses");
    assert_eq!(cfg.baseif, "TenGigE0/0/0/1");
    assert_eq!(cfg.sub_if_num, 300);
    assert_eq!(cfg.encap, Some(301));
    assert!(!cfg.has_rewrite);
    assert_eq!(cfg.lint().len(), 2);

    let good = tokenize(
        "interface TenGigE0/0/0/1.300 l2transport\n  encapsulation dot1q 300\n  rewrite ingress tag pop 1 symmetric\n",
    );
    let cfg2 = L2TransportConfig::try_new(&good[0]).expect("parses");
    assert!(cfg2.lint().is_empty());
}

#[test]
fn bridge_domain_lint_flags_mismatched_members() {
    let d = BridgeDomain {
        vlan_tag: 300,
        interfaces: vec![
            "TenGigE0/0/0/1.300".to_string(),
            "TenGigE0/0/0/1.301".to_string(),
            "BVI400".to_string(),
        ],
        description: None,
    };
    let res = d.lint();
    assert_eq!(res.len(), 2);
    assert!(res[0].contains("TenGigE0/0/0/1.301"));
    assert!(res[1].contains("BVI400"));
}

#[test]
fn analyze_builds_lint_and_summary() {
    let base = r#"
interface TenGigE0/0/0/1
  description uplink

interface TenGigE0/0/0/1.300 l2transport
  encapsulation dot1q 300
  rewrite ingress tag pop 1 symmetric

interface BVI300
  description gateway

l2vpn
  bridge group VLAN
    bridge-domain VLAN300
      description backbone
      interface TenGigE0/0/0/1.300
      interface BVI300
    exit
  exit
exit
"#;
    let nodes = tokenize(base);
    let config = analyze(&nodes);
    assert_eq!(config.domains.len(), 1);
    assert_eq!(config.lint(), "");
    let summary = config.simplified_config;
    assert!(summary.contains("interface TenGigE0/0/0/1\n  description uplink\n  switchport mode trunk\n  switchport trunk allowed vlan add 300\n"));
    assert!(summary.contains("interface BVI300\n  description gateway\n  ! -- L3 config reduced --"));
    assert!(summary.contains("vlan database\n  vlan 300 name backbone"));
}

#[test]
fn analyze_reports_inconsistencies() {
    let base = r#"
interface TenGigE0/0/0/1.300 l2transport
  encapsulation dot1q 999

l2vpn
  bridge group VLAN
    bridge-domain VLAN300
      interface TenGigE0/0/0/1.999
    exit
  exit
exit
"#;
    let nodes = tokenize(base);
    let config = analyze(&nodes);
    let lint = config.lint();
    assert!(lint.contains("--- interface TenGigE0/0/0/1.300 l2transport ---"));
    assert!(lint.contains("--- bridge-domain VLAN300 ---"));
    assert!(lint.contains("TenGigE0/0/0/1.999"));
}
