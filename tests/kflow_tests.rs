use kflow::aggregate::{merge_cycle, parse_endpoints, pod_names, tunnel_port, NodeAggregate, NodeReport};
use kflow::connection::{Address, ConnState, Connection, Protocol};
use kflow::locator::{detect_conntrack_candidate, detection_candidates, has_content, is_auto, resolution_candidates, resolve_conntrack_path, SourcePath};
use kflow::manifest::{conntrack_replacement, kubectl_args, manifest_source, update_manifest_conntrack, ManifestSource};
use kflow::parser::{parse_conntrack_line, parse_ip, parse_ipv4, parse_port};
use kflow::snapshot::{build_snapshot, changes, IngestState};

fn conn(proto: Protocol, src: u32, sport: u16, dst: u32, dport: u16, state: ConnState) -> Connection {
    Connection { proto, src_ip: Address::V4(src), src_port: sport, dst_ip: Address::V4(dst), dst_port: dport, state }
}

fn lines(ls: &[&str]) -> Vec<String> {
    ls.iter().map(|l| l.to_string()).collect()
}

#[test]
fn established_tcp_line() {
    let c = parse_conntrack_line(
        "tcp 6 431999 ESTABLISHED src=10.0.0.5 dst=10.0.0.9 sport=443 dport=51000 [ASSURED] mark=0 use=1",
    );
    assert_eq!(c, Some(conn(Protocol::Tcp, 0x0A000005, 443, 0x0A000009, 51000, ConnState::Established)));
}

#[test]
fn udp_line_without_state_is_unknown() {
    let c = parse_conntrack_line("udp 17 29 src=10.0.0.5 dst=8.8.8.8 sport=53000 dport=53");
    assert_eq!(c, Some(conn(Protocol::Udp, 0x0A000005, 53000, 0x08080808, 53, ConnState::Unknown)));
}

#[test]
fn unrecognized_state_is_unknown() {
    let c = parse_conntrack_line("tcp 6 10 CLOSE src=1.2.3.4 dst=5.6.7.8 sport=1 dport=2").unwrap();
    assert_eq!(c.state, ConnState::Unknown);
}

#[test]
fn token_order_does_not_matter() {
    let canonical = parse_conntrack_line("tcp src=10.0.0.1 dst=10.0.0.2 sport=1000 dport=80");
    let shuffled = parse_conntrack_line("dport=80 mark=7 sport=1000 zone=3 dst=10.0.0.2 tcp src=10.0.0.1 use=2");
    assert!(canonical.is_some());
    assert_eq!(canonical, shuffled);
}

#[test]
fn first_occurrence_wins() {
    let c = parse_conntrack_line(
        "tcp 6 5 SYN_SENT src=10.0.0.1 dst=10.0.0.2 sport=1 dport=2 src=10.0.0.2 dst=10.0.0.1 sport=2 dport=1 TIME_WAIT",
    )
    .unwrap();
    assert_eq!(c, conn(Protocol::Tcp, 0x0A000001, 1, 0x0A000002, 2, ConnState::SynSent));
}

#[test]
fn malformed_values_are_skipped() {
    let c = parse_conntrack_line("udp src=nope src=1.1.1.1 dst=2.2.2.2 sport=70000 sport=+7 dport=9").unwrap();
    assert_eq!(c, conn(Protocol::Udp, 0x01010101, 7, 0x02020202, 9, ConnState::Unknown));
}

#[test]
fn missing_required_field_rejects_line() {
    assert_eq!(parse_conntrack_line("tcp 6 1 src=1.1.1.1 dst=2.2.2.2 sport=1 flags=x"), None);
    assert_eq!(parse_conntrack_line("6 1 ESTABLISHED src=1.1.1.1 dst=2.2.2.2 sport=1 dport=2"), None);
    assert_eq!(parse_conntrack_line("tcp 6 1 src=1.1.1.1 sport=1 dport=2"), None);
    assert_eq!(parse_conntrack_line("tcp src=x dst=2.2.2.2 sport=1 dport=2"), None);
}

#[test]
fn fewer_than_five_words_rejected() {
    assert_eq!(parse_conntrack_line("tcp src=1.1.1.1 dst=2.2.2.2 sport=1"), None);
    assert_eq!(parse_conntrack_line(""), None);
}

#[test]
fn ipv6_addresses_parse() {
    let c = parse_conntrack_line("tcp 6 1 ESTABLISHED src=::1 dst=fe80::2 sport=22 dport=40000").unwrap();
    assert_eq!(c.src_ip, Address::V6(1));
    assert_eq!(c.dst_ip, Address::V6(0xfe80_0000_0000_0000_0000_0000_0000_0002));
}

#[test]
fn port_reading() {
    let p = |s: &str| parse_port(&s.chars().collect());
    assert_eq!(p("0"), Some(0));
    assert_eq!(p("65535"), Some(65535));
    assert_eq!(p("65536"), None);
    assert_eq!(p("+80"), Some(80));
    assert_eq!(p("+"), None);
    assert_eq!(p("-1"), None);
    assert_eq!(p(""), None);
    assert_eq!(p("0080"), Some(80));
    assert_eq!(p("12a"), None);
}

#[test]
fn snapshot_keeps_parsed_lines_in_order() {
    let ls = lines(&[
        "udp 17 29 src=10.0.0.5 dst=8.8.8.8 sport=53000 dport=53",
        "garbage",
        "tcp 6 431999 ESTABLISHED src=10.0.0.5 dst=10.0.0.9 sport=443 dport=51000",
    ]);
    let s = build_snapshot(&ls);
    assert_eq!(s.len(), 2);
    assert_eq!(s[0].proto, Protocol::Udp);
    assert_eq!(s[1].state, ConnState::Established);
}

#[test]
fn empty_table_gives_empty_snapshot() {
    assert!(build_snapshot(&Vec::new()).is_empty());
    let none: Vec<Option<String>> = vec![None; 7];
    assert_eq!(detect_conntrack_candidate(&none), SourcePath::Unresolved);
}

#[test]
fn same_content_twice_reports_no_change() {
    let ls = lines(&[
        "tcp 6 1 ESTABLISHED src=1.1.1.1 dst=2.2.2.2 sport=1 dport=2",
        "udp 17 1 src=1.1.1.1 dst=2.2.2.2 sport=3 dport=4",
    ]);
    let a = build_snapshot(&ls);
    let b = build_snapshot(&ls);
    assert_eq!(a, b);
    let ch = changes(&a, &b);
    assert!(ch.added.is_empty());
    assert!(ch.removed.is_empty());
}

#[test]
fn diff_reports_both_directions() {
    let x = conn(Protocol::Tcp, 1, 1, 2, 2, ConnState::Established);
    let y = conn(Protocol::Tcp, 1, 1, 2, 2, ConnState::SynSent);
    let z = conn(Protocol::Udp, 3, 3, 4, 4, ConnState::Unknown);
    let ch = changes(&vec![x, y, y], &vec![y, z, z]);
    assert_eq!(ch.added, vec![z]);
    assert_eq!(ch.removed, vec![x]);
    let first = changes(&Vec::new(), &vec![x, y]);
    assert_eq!(first.added, vec![x, y]);
    assert!(first.removed.is_empty());
    let gone = changes(&vec![x, y], &Vec::new());
    assert!(gone.added.is_empty());
    assert_eq!(gone.removed, vec![x, y]);
}

#[test]
fn ingest_cycle_compares_with_previous() {
    let x = conn(Protocol::Tcp, 1, 1, 2, 2, ConnState::Established);
    let z = conn(Protocol::Udp, 3, 3, 4, 4, ConnState::Unknown);
    let mut st = IngestState::new();
    let c1 = st.cycle(&vec![x]);
    assert_eq!(c1.added, vec![x]);
    let c2 = st.cycle(&vec![z]);
    assert_eq!(c2.added, vec![z]);
    assert_eq!(c2.removed, vec![x]);
    assert_eq!(st.prev, vec![z]);
}

#[test]
fn failing_node_is_omitted() {
    let x = conn(Protocol::Tcp, 1, 1, 2, 2, ConnState::Established);
    let z = conn(Protocol::Udp, 3, 3, 4, 4, ConnState::Unknown);
    let ids = lines(&["pod-a", "pod-b", "pod-c"]);
    let reports = vec![
        Some(NodeReport { node_name: Some("node-1".to_string()), connections: vec![x] }),
        None,
        Some(NodeReport { node_name: None, connections: vec![z] }),
    ];
    let agg = merge_cycle(&ids, &reports);
    assert_eq!(agg.len(), 2);
    assert_eq!(agg.get(&"node-1".to_string()), Some(&vec![x]));
    assert_eq!(agg.get(&"pod-c".to_string()), Some(&vec![z]));
    assert_eq!(agg.get(&"pod-b".to_string()), None);
}

#[test]
fn later_report_with_same_name_replaces_earlier() {
    let x = conn(Protocol::Tcp, 1, 1, 2, 2, ConnState::Established);
    let z = conn(Protocol::Udp, 3, 3, 4, 4, ConnState::Unknown);
    let mut agg = NodeAggregate::new();
    agg.insert("n".to_string(), vec![x]);
    agg.insert("n".to_string(), vec![z]);
    assert_eq!(agg.len(), 1);
    assert_eq!(agg.get(&"n".to_string()), Some(&vec![z]));
}

#[test]
fn tunnel_ports_follow_position() {
    assert_eq!(tunnel_port(18080, 0), Some(18080));
    assert_eq!(tunnel_port(18080, 2), Some(18082));
    assert_eq!(tunnel_port(65535, 0), Some(65535));
    assert_eq!(tunnel_port(65535, 1), None);
}

#[test]
fn endpoints_are_split_and_trimmed() {
    assert_eq!(parse_endpoints(" http://a:8080 , http://b:8080,c"), vec!["http://a:8080", "http://b:8080", "c"]);
    assert_eq!(parse_endpoints(""), vec![""]);
    assert_eq!(pod_names("kflow-a  kflow-b\n"), vec!["kflow-a", "kflow-b"]);
    assert!(pod_names("  ").is_empty());
}

#[test]
fn concrete_request_falls_back_to_alternates() {
    let cands = resolution_candidates("/proc/net/nf_conntrack");
    assert_eq!(cands[0], "/proc/net/nf_conntrack");
    assert_eq!(cands[1], "/host/proc/net/nf_conntrack");
    let r = resolve_conntrack_path("/x/ct", &vec![false, false, false, true, true, false], SourcePath::Unresolved);
    assert_eq!(r, SourcePath::Resolved("/host/proc/net/ip_conntrack".to_string()));
    let r = resolve_conntrack_path("/x/ct", &vec![false, true, false, false, false, false], SourcePath::Unresolved);
    assert_eq!(r, SourcePath::Resolved("/host/x/ct".to_string()));
    let r = resolve_conntrack_path("/x/ct", &vec![true, true, false, false, false, false], SourcePath::Unresolved);
    assert_eq!(r, SourcePath::Resolved("/x/ct".to_string()));
    let r = resolve_conntrack_path("/x/ct", &vec![false; 6], SourcePath::Resolved("/d".to_string()));
    assert_eq!(r, SourcePath::Unresolved);
}

#[test]
fn auto_request_takes_detection() {
    assert!(is_auto("auto"));
    assert!(!is_auto("Auto"));
    let r = resolve_conntrack_path("auto", &vec![true; 6], SourcePath::Resolved("/d".to_string()));
    assert_eq!(r, SourcePath::Resolved("/d".to_string()));
}

#[test]
fn detection_skips_blank_candidates() {
    let cands = detection_candidates();
    assert_eq!(cands.len(), 7);
    let probes = vec![None, Some("  \n".to_string()), None, Some("ipv4 2 tcp 6 ...\n".to_string()), None, None, Some("x".to_string())];
    assert_eq!(detect_conntrack_candidate(&probes), SourcePath::Resolved("/proc/net/nf_conntrack".to_string()));
    assert!(!has_content(" \t\r\n"));
    assert!(has_content(" a "));
}

#[test]
fn manifest_value_line_is_rewritten() {
    let m = "env:\n  - \n    name: CONNTRACK_PATH\n    value: '/proc/net/nf_conntrack'\n  - \n    name: OTHER\n    value: \"x\"\n";
    let out = update_manifest_conntrack(m, "/host/proc/net/nf_conntrack6");
    assert_eq!(
        out,
        "env:\n  - \n    name: CONNTRACK_PATH\n    value: '/host/proc/net/nf_conntrack6'\n  - \n    name: OTHER\n    value: \"x\""
    );
    let m2 = "name: CONNTRACK_PATH\r\n  value: plain\r\n";
    assert_eq!(update_manifest_conntrack(m2, "auto"), "name: CONNTRACK_PATH\n  value: \"auto\"");
    let listed = "- name: CONNTRACK_PATH\n  value: /proc/net/nf_conntrack\n";
    assert_eq!(update_manifest_conntrack(listed, "auto"), "- name: CONNTRACK_PATH\n  value: auto\n");
}

#[test]
fn manifest_without_value_line_uses_replacement() {
    let m = "path: /host/proc/net/nf_conntrack\nother: /proc/net/nf_conntrack\n";
    assert_eq!(update_manifest_conntrack(m, "/c"), "path: /c\nother: /c\n");
    let host = "path: /host/proc/net/nf_conntrack";
    assert_eq!(update_manifest_conntrack(host, "/host/proc/net/nf_conntrack"), host);
    let plain = "a: /proc/net/nf_conntrack b: /proc/net/nf_conntrack6";
    assert_eq!(update_manifest_conntrack(plain, "/host/proc/net/nf_conntrack"),
        "a: /host/proc/net/nf_conntrack b: /host/proc/net/nf_conntrack6");
    let far = "name: CONNTRACK_PATH\na\nb\nc\nd\ne\n  value: x\n";
    assert_eq!(update_manifest_conntrack(far, "/c"), far);
}

#[test]
fn replacement_moves_proc_under_host() {
    assert_eq!(conntrack_replacement("auto"), "auto");
    assert_eq!(conntrack_replacement("/proc/net/nf_conntrack"), "/host/proc/net/nf_conntrack");
    assert_eq!(conntrack_replacement("/var/ct"), "/var/ct");
}

#[test]
fn install_plan_and_arguments() {
    assert!(matches!(manifest_source(Some("d.yaml"), None), ManifestSource::File(p) if p == "d.yaml"));
    assert!(matches!(manifest_source(Some("d.yaml"), Some("/proc/x")),
        ManifestSource::RewrittenFile { path, ct } if path == "d.yaml" && ct == "/host/proc/x"));
    assert!(matches!(manifest_source(None, None), ManifestSource::Bundled { replacement: None }));
    assert_eq!(kubectl_args("apply", "-", Some("kube-system")), vec!["apply", "-f", "-", "-n", "kube-system"]);
    assert_eq!(kubectl_args("delete", "d.yaml", None), vec!["delete", "-f", "d.yaml"]);
}

#[test]
fn ipv4_grammar() {
    let v4 = |s: &str| parse_ipv4(&s.chars().collect());
    assert_eq!(v4("10.0.0.5"), Some(0x0A000005));
    assert_eq!(v4("0.0.0.0"), Some(0));
    assert_eq!(v4("255.255.255.255"), Some(u32::MAX));
    assert_eq!(v4("256.1.1.1"), None);
    assert_eq!(v4("01.2.3.4"), None);
    assert_eq!(v4("1.2.3"), None);
    assert_eq!(v4("1.2.3.4.5"), None);
    assert_eq!(v4("1..3.4"), None);
    assert_eq!(v4("1.2.3.+4"), None);
    assert_eq!(v4("1000.2.3.4"), None);
}

#[test]
fn ip_addresses_of_both_families() {
    let ip = |s: &str| parse_ip(&s.chars().collect());
    assert_eq!(ip("192.168.1.20"), Some(Address::V4(0xC0A80114)));
    assert_eq!(ip("::"), Some(Address::V6(0)));
    assert_eq!(ip("2001:db8::1"), Some(Address::V6(0x2001_0db8_0000_0000_0000_0000_0000_0001)));
    assert_eq!(ip("::ffff:10.0.0.1"), Some(Address::V6(0xffff_0a00_0001)));
    assert_eq!(ip("not-an-ip"), None);
    assert_eq!(ip(""), None);
}

#[test]
fn token_order_with_state_does_not_matter() {
    let canonical = parse_conntrack_line("udp src=10.0.0.1 dst=10.0.0.2 sport=5 dport=6 TIME_WAIT");
    let shuffled = parse_conntrack_line("TIME_WAIT x=1 dport=6 udp 17 sport=5 dst=10.0.0.2 [UNREPLIED] src=10.0.0.1");
    assert_eq!(canonical, Some(conn(Protocol::Udp, 0x0A000001, 5, 0x0A000002, 6, ConnState::TimeWait)));
    assert_eq!(canonical, shuffled);
}
