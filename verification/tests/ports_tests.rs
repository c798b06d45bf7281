use mfw::ports::RuleFile;

fn cs(s: &str) -> Vec<char> {
    s.chars().collect()
}

fn st(v: &Vec<char>) -> String {
    v.iter().collect()
}

fn strings(rf: &RuleFile) -> Vec<String> {
    rf.lines.iter().map(|l| l.iter().collect()).collect()
}

#[test]
fn fresh_file_has_generated_scaffolding() {
    let rf = RuleFile::new(None);
    assert_eq!(
        strings(&rf),
        vec![
            "#-GENERATED- allowed ports managed by mfw-ports ",
            "# ",
            "*filter",
            ":INPUT ACCEPT [0:0]",
            ":allowed-ports - [0:0]",
            "-A INPUT -j allowed-ports",
        ]
    );
}

#[test]
fn listed_ports_sorted_regardless_of_insertion_order() {
    let mut rf = RuleFile::new(None);
    assert!(rf.add_port(&cs("8080/tcp")));
    assert!(rf.add_port(&cs("22/tcp")));
    let meta = rf.list_ports().unwrap();
    assert_eq!(st(&meta), "22/tcp,8080/tcp");
}

#[test]
fn add_appends_generated_rule() {
    let mut rf = RuleFile::new(None);
    rf.add_port(&cs("8080/tcp"));
    let lines = strings(&rf);
    assert_eq!(lines[1], "# 8080/tcp");
    assert_eq!(
        lines.last().unwrap(),
        "-A allowed-ports -p tcp --dport 8080 -j ACCEPT"
    );
}

#[test]
fn add_without_protocol_defaults_to_tcp() {
    let mut rf = RuleFile::new(None);
    rf.add_port(&cs("443"));
    let lines = strings(&rf);
    assert_eq!(
        lines.last().unwrap(),
        "-A allowed-ports -p tcp --dport 443 -j ACCEPT"
    );
}

#[test]
fn add_udp_port_uses_udp() {
    let mut rf = RuleFile::new(None);
    rf.add_port(&cs("53/udp"));
    let lines = strings(&rf);
    assert_eq!(
        lines.last().unwrap(),
        "-A allowed-ports -p udp --dport 53 -j ACCEPT"
    );
}

#[test]
fn duplicate_add_changes_nothing() {
    let mut rf = RuleFile::new(None);
    assert!(rf.add_port(&cs("22/tcp")));
    let before = strings(&rf);
    assert!(!rf.add_port(&cs("22/tcp")));
    assert_eq!(strings(&rf), before);
}

#[test]
fn remove_drops_port_and_rule() {
    let mut rf = RuleFile::new(None);
    rf.add_port(&cs("22/tcp"));
    rf.add_port(&cs("8080/tcp"));
    assert!(rf.remove_port(&cs("22/tcp")));
    let lines = strings(&rf);
    assert_eq!(lines[1], "# 8080/tcp");
    assert!(lines.iter().all(|l| !l.contains("--dport 22 -j ACCEPT")));
    assert!(lines
        .iter()
        .any(|l| l == "-A allowed-ports -p tcp --dport 8080 -j ACCEPT"));
}

#[test]
fn remove_keeps_same_port_under_other_protocol() {
    let mut rf = RuleFile::new(None);
    rf.add_port(&cs("22/tcp"));
    rf.add_port(&cs("22/udp"));
    assert!(rf.remove_port(&cs("22/tcp")));
    let lines = strings(&rf);
    assert_eq!(lines[1], "# 22/udp");
    assert!(lines
        .iter()
        .any(|l| l == "-A allowed-ports -p udp --dport 22 -j ACCEPT"));
    assert!(lines
        .iter()
        .all(|l| l != "-A allowed-ports -p tcp --dport 22 -j ACCEPT"));
}

#[test]
fn remove_absent_port_changes_nothing() {
    let mut rf = RuleFile::new(None);
    rf.add_port(&cs("22/tcp"));
    let before = strings(&rf);
    assert!(!rf.remove_port(&cs("80/tcp")));
    assert_eq!(strings(&rf), before);
}

#[test]
fn existing_contents_are_kept() {
    let lines = vec![cs("# header"), cs("# 22/tcp"), cs("-A allowed-ports -p tcp --dport 22 -j ACCEPT")];
    let rf = RuleFile::new(Some(lines));
    let meta = rf.list_ports().unwrap();
    assert_eq!(st(&meta), "22/tcp");
}

#[test]
fn short_file_lists_nothing() {
    let rf = RuleFile::new(Some(vec![cs("# only header")]));
    assert!(rf.list_ports().is_none());
}
