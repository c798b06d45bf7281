use mfw::loader::import_keyword;
use mfw::loader::inclusion_keyword;
use mfw::loader::load;
use mfw::loader::FileSet;
use mfw::loader::LoadError;

fn cs(s: &str) -> Vec<char> {
    s.chars().collect()
}

fn st(v: &Vec<char>) -> String {
    v.iter().collect()
}

fn strings(v: &Vec<Vec<char>>) -> Vec<String> {
    v.iter().map(|l| l.iter().collect()).collect()
}

fn file_lines(content: &str) -> Vec<Vec<char>> {
    content.lines().map(|l| l.chars().collect()).collect()
}

fn directive(path: &str) -> String {
    let kw: String = inclusion_keyword().iter().collect();
    format!("{kw} \"{path}\"")
}

#[test]
fn splices_nested_sources_depth_first() {
    let mut files = FileSet::new();
    files.insert(
        cs("base.rule"),
        vec![cs("# top"), cs(&directive("a.rule")), cs("-A x")],
    );
    files.insert(
        cs("a.rule"),
        vec![cs("-A a1"), cs(&directive("b.rule")), cs("-A a2")],
    );
    files.insert(cs("b.rule"), vec![cs("-A b")]);
    let got = load(&files, &cs("base.rule")).unwrap();
    assert_eq!(
        strings(&got),
        vec!["# top", "-A a1", "-A b", "-A a2", "-A x"]
    );
}

#[test]
fn expansion_equals_manual_concatenation() {
    let mut files = FileSet::new();
    files.insert(cs("root.rule"), vec![cs(&directive("a.rule")), cs("*filter")]);
    files.insert(cs("a.rule"), vec![cs("# from a"), cs(&directive("b.rule"))]);
    files.insert(cs("b.rule"), vec![cs("-A deep")]);
    let got = load(&files, &cs("root.rule")).unwrap();

    let mut manual: Vec<String> = Vec::new();
    manual.push("# from a".to_string());
    manual.push("-A deep".to_string());
    manual.push("*filter".to_string());
    assert_eq!(strings(&got), manual);
}

#[test]
fn missing_target_fails_whole_load() {
    let mut files = FileSet::new();
    files.insert(
        cs("base.rule"),
        vec![cs("-A before"), cs(&directive("extra.rule"))],
    );
    let got = load(&files, &cs("base.rule"));
    match got {
        Err(LoadError::SourceNotFound { path }) => assert_eq!(st(&path), "extra.rule"),
        _ => panic!("expected SourceNotFound"),
    }
}

#[test]
fn missing_root_reports_its_path() {
    let files = FileSet::new();
    let got = load(&files, &cs("nowhere.rule"));
    match got {
        Err(LoadError::SourceNotFound { path }) => assert_eq!(st(&path), "nowhere.rule"),
        _ => panic!("expected SourceNotFound"),
    }
}

#[test]
fn targets_resolve_relative_to_containing_file() {
    let mut files = FileSet::new();
    files.insert(cs("conf/base.rule"), vec![cs(&directive("sub/x.rule"))]);
    files.insert(cs("conf/sub/x.rule"), vec![cs("-A nested")]);
    let got = load(&files, &cs("conf/base.rule")).unwrap();
    assert_eq!(strings(&got), vec!["-A nested"]);
}

#[test]
fn absolute_target_is_kept() {
    let mut files = FileSet::new();
    files.insert(cs("conf/base.rule"), vec![cs(&directive("/etc/x.rule"))]);
    files.insert(cs("/etc/x.rule"), vec![cs("-A abs")]);
    let got = load(&files, &cs("conf/base.rule")).unwrap();
    assert_eq!(strings(&got), vec!["-A abs"]);
}

#[test]
fn self_reference_is_a_cycle() {
    let mut files = FileSet::new();
    files.insert(cs("loop.rule"), vec![cs(&directive("loop.rule"))]);
    let got = load(&files, &cs("loop.rule"));
    match got {
        Err(LoadError::IncludeCycle { path }) => assert_eq!(st(&path), "loop.rule"),
        _ => panic!("expected IncludeCycle"),
    }
}

#[test]
fn dot_segments_collapse_during_resolution() {
    let mut files = FileSet::new();
    files.insert(cs("conf/base.rule"), vec![cs(&directive("./sub/../x.rule"))]);
    files.insert(cs("conf/x.rule"), vec![cs("-A dotted")]);
    let got = load(&files, &cs("conf/base.rule")).unwrap();
    assert_eq!(strings(&got), vec!["-A dotted"]);
}

#[test]
fn cycle_spelled_through_parent_segments_is_detected() {
    let mut files = FileSet::new();
    files.insert(cs("d/a.rule"), vec![cs(&directive("../d/a.rule"))]);
    let got = load(&files, &cs("d/a.rule"));
    match got {
        Err(LoadError::IncludeCycle { path }) => assert_eq!(st(&path), "d/a.rule"),
        _ => panic!("expected IncludeCycle"),
    }
}

#[test]
fn directive_without_argument_is_refused() {
    let mut files = FileSet::new();
    let kw: String = inclusion_keyword().iter().collect();
    files.insert(cs("base.rule"), vec![cs(&kw)]);
    let got = load(&files, &cs("base.rule"));
    match got {
        Err(LoadError::IncludeResolutionError { line }) => assert_eq!(st(&line), kw),
        _ => panic!("expected IncludeResolutionError"),
    }
}

#[test]
fn import_keyword_also_splices() {
    let kw: String = import_keyword().iter().collect();
    let mut files = FileSet::new();
    files.insert(cs("base.rule"), vec![cs(&format!("{kw} \"other.rule\""))]);
    files.insert(cs("other.rule"), vec![cs("-A imported")]);
    let got = load(&files, &cs("base.rule")).unwrap();
    assert_eq!(strings(&got), vec!["-A imported"]);
}

#[test]
fn lines_are_trimmed() {
    let mut files = FileSet::new();
    files.insert(
        cs("base.rule"),
        file_lines("  *filter\t\n\t:custom -  \n   \n-A custom -j ACCEPT\n"),
    );
    let got = load(&files, &cs("base.rule")).unwrap();
    assert_eq!(
        strings(&got),
        vec!["*filter", ":custom -", "", "-A custom -j ACCEPT"]
    );
}

#[test]
fn unquoted_target_is_accepted() {
    let mut files = FileSet::new();
    let kw: String = inclusion_keyword().iter().collect();
    files.insert(cs("base.rule"), vec![cs(&format!("{kw} plain.rule"))]);
    files.insert(cs("plain.rule"), vec![cs("-A plain")]);
    let got = load(&files, &cs("base.rule")).unwrap();
    assert_eq!(strings(&got), vec!["-A plain"]);
}
