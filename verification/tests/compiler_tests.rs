use mfw::compiler::default_tables;
use mfw::compiler::generate_clean_script;
use mfw::compiler::generate_script;
use mfw::compiler::generate_uninstall_script;
use mfw::compiler::namespace_prefix;
use mfw::compiler::CompileError;

fn cs(s: &str) -> Vec<char> {
    s.chars().collect()
}

fn st(v: &Vec<char>) -> String {
    v.iter().collect()
}

fn expected_uninstall(verbose: bool) -> String {
    let mut s = String::from("#!/usr/bin/bash\n#\n# MFW Generated\n#\n\n");
    if verbose {
        s.push_str("set -x");
    }
    s.push_str(
        "\n# Clean up\nfor t in filter nat mangle raw security;do iptables -S -t$t|grep \"\\-j _mfw_\"|sed 's/-A/-D/'|while read r;do iptables -t$t $r;done;iptables -S -t$t|grep \"\\-N _mfw_\"|cut -d\\  -f2|while read c;do iptables -t$t -F $c&&iptables -t$t -X$c;done;done\n\n",
    );
    s
}

fn expected_clean(verbose: bool) -> String {
    let mut s = expected_uninstall(verbose);
    s.push_str("# Create prefixed chains and setup jumps\n");
    let tables: Vec<(&str, Vec<&str>)> = vec![
        ("filter", vec!["INPUT", "FORWARD", "OUTPUT"]),
        (
            "mangle",
            vec!["PREROUTING", "INPUT", "FORWARD", "OUTPUT", "POSTROUTING"],
        ),
        ("nat", vec!["PREROUTING", "INPUT", "OUTPUT", "POSTROUTING"]),
        ("raw", vec!["PREROUTING", "OUTPUT"]),
    ];
    for (t, chains) in tables {
        for c in chains {
            s.push_str(&format!(
                "iptables -t {t} -N _mfw_{c}\niptables -t {t} -A {c} -j _mfw_{c}\n"
            ));
        }
    }
    s
}

#[test]
fn uninstall_script_text() {
    let prefix = namespace_prefix();
    let script = generate_uninstall_script(false, &prefix);
    assert_eq!(st(&script), expected_uninstall(false));
}

#[test]
fn uninstall_script_verbose_text() {
    let prefix = namespace_prefix();
    let script = generate_uninstall_script(true, &prefix);
    assert_eq!(st(&script), expected_uninstall(true));
}

#[test]
fn clean_script_text() {
    let tables = default_tables();
    let prefix = namespace_prefix();
    let script = generate_clean_script(false, &tables, &prefix);
    assert_eq!(st(&script), expected_clean(false));
}

#[test]
fn compiles_example_rule_source() {
    let rules = vec![
        cs("*filter"),
        cs(":custom -"),
        cs("-A custom -p tcp --dport 22 -j ACCEPT"),
    ];
    let tables = default_tables();
    let prefix = namespace_prefix();
    let script = generate_script(false, &rules, &tables, &prefix).unwrap();
    let mut expected = expected_clean(false);
    expected.push_str("\n# Apply rules\n");
    expected.push_str("iptables -t filter -F _mfw_custom 2>/dev/null || true\n");
    expected.push_str("iptables -t filter -X _mfw_custom 2>/dev/null || true\n");
    expected.push_str("iptables -t filter -N _mfw_custom\n");
    expected.push_str("iptables -t filter -A _mfw_custom -p tcp --dport 22 -j ACCEPT\n");
    assert_eq!(st(&script), expected);
}

#[test]
fn same_source_compiles_to_identical_scripts() {
    let rules = vec![
        cs("# heading"),
        cs("*filter"),
        cs(":web -"),
        cs("-A web -p tcp --dport 80 -j ACCEPT"),
        cs("-A INPUT -j web"),
    ];
    let tables = default_tables();
    let prefix = namespace_prefix();
    let first = generate_script(false, &rules, &tables, &prefix).unwrap();
    let second = generate_script(false, &rules, &tables, &prefix).unwrap();
    assert_eq!(st(&first), st(&second));
}

#[test]
fn chain_token_rewritten_only_after_declaration() {
    let rules = vec![
        cs("*filter"),
        cs("-A INPUT -j custom"),
        cs(":custom -"),
        cs("-A custom -j ACCEPT"),
    ];
    let tables = default_tables();
    let prefix = namespace_prefix();
    let script = st(&generate_script(false, &rules, &tables, &prefix).unwrap());
    assert!(script.contains("iptables -t filter -A INPUT -j custom\n"));
    assert!(script.contains("iptables -t filter -A _mfw_custom -j ACCEPT\n"));
}

#[test]
fn longer_token_not_rewritten() {
    let rules = vec![
        cs("*filter"),
        cs(":custom -"),
        cs("-A INPUT -j customx"),
        cs("-A INPUT -m comment --comment custom -j custom"),
    ];
    let tables = default_tables();
    let prefix = namespace_prefix();
    let script = st(&generate_script(false, &rules, &tables, &prefix).unwrap());
    assert!(script.contains("iptables -t filter -A INPUT -j customx\n"));
    assert!(script
        .contains("iptables -t filter -A INPUT -m comment --comment _mfw_custom -j _mfw_custom\n"));
}

#[test]
fn builtin_chain_declaration_creates_nothing() {
    let rules = vec![cs("*filter"), cs(":INPUT ACCEPT [0:0]")];
    let tables = default_tables();
    let prefix = namespace_prefix();
    let script = st(&generate_script(false, &rules, &tables, &prefix).unwrap());
    let mut expected = expected_clean(false);
    expected.push_str("\n# Apply rules\n");
    assert_eq!(script, expected);
}

#[test]
fn user_chain_declaration_creates_chain() {
    let rules = vec![cs("*filter"), cs(":mine -")];
    let tables = default_tables();
    let prefix = namespace_prefix();
    let script = st(&generate_script(false, &rules, &tables, &prefix).unwrap());
    assert!(script.contains("iptables -t filter -N _mfw_mine\n"));
    assert!(script.contains("iptables -t filter -F _mfw_mine 2>/dev/null || true\n"));
    assert!(script.contains("iptables -t filter -X _mfw_mine 2>/dev/null || true\n"));
}

#[test]
fn repeated_declaration_creates_once() {
    let rules = vec![cs("*filter"), cs(":mine -"), cs(":mine -")];
    let tables = default_tables();
    let prefix = namespace_prefix();
    let script = st(&generate_script(false, &rules, &tables, &prefix).unwrap());
    assert_eq!(script.matches("iptables -t filter -N _mfw_mine\n").count(), 1);
}

#[test]
fn unknown_table_declaration_still_creates_chain() {
    let rules = vec![cs("*special"), cs(":mine -"), cs("-A mine -j ACCEPT")];
    let tables = default_tables();
    let prefix = namespace_prefix();
    let script = st(&generate_script(false, &rules, &tables, &prefix).unwrap());
    let mut expected = expected_clean(false);
    expected.push_str("\n# Apply rules\n");
    expected.push_str("iptables -t special -F _mfw_mine 2>/dev/null || true\n");
    expected.push_str("iptables -t special -X _mfw_mine 2>/dev/null || true\n");
    expected.push_str("iptables -t special -N _mfw_mine\n");
    expected.push_str("iptables -t special -A _mfw_mine -j ACCEPT\n");
    assert_eq!(script, expected);
}

#[test]
fn rule_before_table_switch_is_refused() {
    let rules = vec![cs("-A INPUT -j ACCEPT"), cs("*filter")];
    let tables = default_tables();
    let prefix = namespace_prefix();
    let r = generate_script(false, &rules, &tables, &prefix);
    assert_eq!(r.unwrap_err(), CompileError::UndefinedTableContext { line: 0 });
}

#[test]
fn empty_chain_name_is_refused() {
    let rules = vec![cs("*filter"), cs(":")];
    let tables = default_tables();
    let prefix = namespace_prefix();
    let r = generate_script(false, &rules, &tables, &prefix);
    assert_eq!(
        r.unwrap_err(),
        CompileError::MalformedChainDeclaration { line: 1 }
    );
}

#[test]
fn comments_copied_and_blanks_dropped() {
    let rules = vec![cs("# note"), cs(""), cs("stray words"), cs("*filter")];
    let tables = default_tables();
    let prefix = namespace_prefix();
    let script = st(&generate_script(false, &rules, &tables, &prefix).unwrap());
    let mut expected = expected_clean(false);
    expected.push_str("\n# Apply rules\n# note\n");
    assert_eq!(script, expected);
}

#[test]
fn teardown_loop_covers_every_default_table() {
    let prefix = namespace_prefix();
    let script = st(&generate_uninstall_script(false, &prefix));
    assert!(script.contains("for t in filter nat mangle raw security;do"));
    let tables = default_tables();
    for td in &tables {
        let name: String = td.name.iter().collect();
        assert!("filter nat mangle raw security"
            .split(' ')
            .any(|t| t == name));
    }
}
